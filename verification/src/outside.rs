//! The calls this library makes into `regex`, `tiktoken-rs` and the parts of
//! `std` that vstd does not specify. Each item here is trusted: its contract
//! is believed, not proved.
use vstd::prelude::*;

verus! {

/// What `regex::Regex::new(pattern)` followed by `is_match(haystack)` gives:
/// `None` when the pattern does not compile.
pub uninterp spec fn regex_is_match(pattern: Seq<char>, haystack: Seq<char>) -> Option<bool>;

/// What `regex::Regex::new(pattern)` followed by `replace_all(haystack, replacement)`
/// gives: `None` when the pattern does not compile.
pub uninterp spec fn regex_replace_all(
    pattern: Seq<char>,
    haystack: Seq<char>,
    replacement: Seq<char>,
) -> Option<Seq<char>>;

/// What `regex::Regex::new(pattern)` followed by `captures(haystack)` gives, each
/// group as its matched text (empty for a group that did not take part):
/// `None` when the pattern does not compile, `Some(None)` when there is no match.
pub uninterp spec fn regex_captures(pattern: Seq<char>, haystack: Seq<char>) -> Option<
    Option<Seq<Seq<char>>>,
>;

/// What `tiktoken_rs::CoreBPE::encode` gives for a text with every special
/// token allowed: the cl100k_base token ids, or `None` when the encoder
/// reports an error. Both depend on the text alone.
pub uninterp spec fn cl100k_encode(text: Seq<char>) -> Option<Seq<u32>>;

/// `str::to_lowercase` (full Unicode lower-case mapping).
pub uninterp spec fn lowercase(s: Seq<char>) -> Seq<char>;

/// `str::to_uppercase` (full Unicode upper-case mapping).
pub uninterp spec fn uppercase(s: Seq<char>) -> Seq<char>;

/// `char::is_alphabetic` (Unicode `Alphabetic`).
pub uninterp spec fn alphabetic(c: char) -> bool;

/// `char::is_alphanumeric` (Unicode `Alphabetic` or `Numeric`).
pub uninterp spec fn alphanumeric(c: char) -> bool;

/// Calls `regex::Regex::new(pattern)` and then `Regex::is_match(haystack)`.
/// Claims only that the result is `regex_is_match` of the two texts; what
/// matching means is left to the `regex` crate.
#[verifier::external_body]
pub(crate) fn regex_match(pattern: &str, haystack: &str) -> (r: Option<bool>)
    ensures
        r == regex_is_match(pattern@, haystack@),
{
    match regex::Regex::new(pattern) {
        Ok(re) => Some(re.is_match(haystack)),
        Err(_) => None,
    }
}

/// Calls `regex::Regex::new(pattern)` and then `Regex::replace_all`.
/// Claims only that the result is `regex_replace_all` of the three texts.
#[verifier::external_body]
pub(crate) fn regex_replace(pattern: &str, haystack: &str, replacement: &str) -> (r: Option<String>)
    ensures
        match r {
            Some(s) => regex_replace_all(pattern@, haystack@, replacement@) == Some(s@),
            None => regex_replace_all(pattern@, haystack@, replacement@) is None,
        },
{
    match regex::Regex::new(pattern) {
        Ok(re) => Some(re.replace_all(haystack, replacement).into_owned()),
        Err(_) => None,
    }
}

/// Calls `regex::Regex::new(pattern)` and then `Regex::captures(haystack)`,
/// handing back every group's text. Claims only that the result is
/// `regex_captures` of the two texts.
#[verifier::external_body]
pub(crate) fn regex_capture(pattern: &str, haystack: &str) -> (r: Option<Option<Vec<String>>>)
    ensures
        match r {
            Some(Some(v)) => regex_captures(pattern@, haystack@) == Some(
                Some(v@.map_values(|g: String| g@)),
            ),
            Some(None) => regex_captures(pattern@, haystack@) == Some(None::<Seq<Seq<char>>>),
            None => regex_captures(pattern@, haystack@) is None,
        },
{
    let re = match regex::Regex::new(pattern) {
        Ok(re) => re,
        Err(_) => return None,
    };
    let caps = match re.captures(haystack) {
        Some(caps) => caps,
        None => return Some(None),
    };
    let mut groups: Vec<String> = Vec::new();
    for m in caps.iter() {
        groups.push(m.map(|m| m.as_str().to_string()).unwrap_or_default());
    }
    Some(Some(groups))
}

/// Calls `tiktoken_rs::cl100k_base_singleton().encode(text, &special_tokens())`,
/// every special token allowed, and hands back the number of tokens, or
/// `None` when the encoder reports an error (its regex search gives up on
/// very long runs of whitespace; the special-token search before it is an
/// alternation of literal tokens, which fancy-regex hands whole to the
/// `regex` crate, so it does not fail). Claims that the result is the
/// length of `cl100k_encode(text)` when that is `Some`, and `None` when it
/// is `None`; that an empty text gives `Some(0)` (no piece is
/// found in it, so no search can fail); and that a non-empty text has at
/// least one token (the split covers every character, letters, digits,
/// whitespace and the rest alike, and each piece encodes to one token or
/// more).
#[verifier::external_body]
pub(crate) fn cl100k_token_count(text: &str) -> (r: Option<usize>)
    ensures
        match cl100k_encode(text@) {
            Some(t) => r matches Some(n) && n == t.len(),
            None => r is None,
        },
        r matches Some(n) ==> (text@.len() > 0 ==> n > 0),
        text@.len() == 0 ==> r == Some(0usize),
{
    let bpe = tiktoken_rs::cl100k_base_singleton();
    bpe.encode(text, &bpe.special_tokens()).ok().map(|(tokens, _)| tokens.len())
}

/// Every character is ASCII.
pub open spec fn all_ascii(s: Seq<char>) -> bool {
    forall|i: int| 0 <= i < s.len() ==> (#[trigger] s[i] as u32) < 128
}

/// `str::to_lowercase`. Claims the result is `lowercase` of the text, and,
/// as the Unicode case mapping does on ASCII, that an ASCII text keeps its
/// length, its letters `A`-`Z` become `a`-`z` and every other character
/// stays.
#[verifier::external_body]
pub(crate) fn to_lowercase(s: &str) -> (r: String)
    ensures
        r@ == lowercase(s@),
        all_ascii(s@) ==> r@.len() == s@.len() && forall|i: int|
            0 <= i < s@.len() ==> if 'A' <= #[trigger] s@[i] <= 'Z' {
                r@[i] as u32 == s@[i] as u32 + 32
            } else {
                r@[i] == s@[i]
            },
{
    s.to_lowercase()
}

/// `str::to_uppercase`. Claims the result is `uppercase` of the text, and,
/// as the Unicode case mapping does on ASCII, that an ASCII text keeps its
/// length, its letters `a`-`z` become `A`-`Z` and every other character
/// stays.
#[verifier::external_body]
pub(crate) fn to_uppercase(s: &str) -> (r: String)
    ensures
        r@ == uppercase(s@),
        all_ascii(s@) ==> r@.len() == s@.len() && forall|i: int|
            0 <= i < s@.len() ==> if 'a' <= #[trigger] s@[i] <= 'z' {
                r@[i] as u32 + 32 == s@[i] as u32
            } else {
                r@[i] == s@[i]
            },
{
    s.to_uppercase()
}

/// `char::is_alphabetic`. Claims the result is `alphabetic(c)`, and, as the
/// documentation of the Unicode property shows, that the ASCII letters are
/// alphabetic and the other ASCII characters are not.
#[verifier::external_body]
pub(crate) fn is_alphabetic(c: char) -> (b: bool)
    ensures
        b == alphabetic(c),
        (c as u32) < 128 ==> (b <==> ('a' <= c <= 'z' || 'A' <= c <= 'Z')),
{
    c.is_alphabetic()
}

/// `char::is_alphanumeric`. Claims the result is `alphanumeric(c)`, and that
/// among ASCII characters exactly letters and digits are alphanumeric.
#[verifier::external_body]
pub(crate) fn is_alphanumeric(c: char) -> (b: bool)
    ensures
        b == alphanumeric(c),
        (c as u32) < 128 ==> (b <==> ('a' <= c <= 'z' || 'A' <= c <= 'Z' || '0' <= c <= '9')),
{
    c.is_alphanumeric()
}

} // verus!
