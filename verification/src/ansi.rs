//! Removal of ANSI escape sequences.
use vstd::prelude::*;
use crate::outside::{regex_replace, regex_replace_all};

verus! {

/// The ANSI escape pattern: CSI sequences, charset selections and other
/// two-character escapes.
pub open spec fn ansi_pattern() -> Seq<char> {
    "\x1b\\[[0-9;]*[A-Za-z]|\x1b[()][0-9A-Za-z]|\x1b[^\x1b]"@
}

/// `input` with every match of the ANSI escape pattern removed.
pub open spec fn strip_ansi_spec(input: Seq<char>) -> Seq<char> {
    match regex_replace_all(ansi_pattern(), input, ""@) {
        Some(s) => s,
        None => input,
    }
}

/// Strip ANSI escape sequences (colours, cursor movement, ...) from text.
pub fn strip_ansi(input: &str) -> (r: String)
    ensures
        r@ == strip_ansi_spec(input@),
{
    match regex_replace("\x1b\\[[0-9;]*[A-Za-z]|\x1b[()][0-9A-Za-z]|\x1b[^\x1b]", input, "") {
        Some(s) => s,
        None => input.to_owned(),
    }
}

} // verus!
