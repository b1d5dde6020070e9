//! Token counting with the cl100k_base encoding.
use vstd::prelude::*;
use crate::outside::{cl100k_encode, cl100k_token_count};

verus! {

/// Number of cl100k_base tokens in `text` (special tokens allowed), or
/// `None` when the encoder gives up on the text; which texts it gives up on
/// is the encoder's (`cl100k_encode`).
pub fn count_tokens(text: &str) -> (r: Option<usize>)
    ensures
        match cl100k_encode(text@) {
            Some(t) => r matches Some(n) && n == t.len(),
            None => r is None,
        },
        r matches Some(n) ==> (text@.len() > 0 ==> n > 0),
        text@.len() == 0 ==> r == Some(0usize),
{
    cl100k_token_count(text)
}

} // verus!
