//! The request and reply text of a generative summariser: the prompt that
//! asks a language model to compress a message to a number of words, and
//! the text taken from its reply.
use vstd::prelude::*;
use crate::text::{chars_of, decimal, push_decimal, push_str, string_of, trim, trim_of, views, words, words_of};

verus! {

/// The number of whitespace-separated words of a text.
pub fn word_count(text: &str) -> (n: usize)
    ensures
        n == words(text@).len(),
{
    let v = chars_of(text);
    let ws = words_of(v.as_slice());
    assert(views(ws@).len() == ws.len());
    ws.len()
}

pub open spec fn prompt_start() -> Seq<char> {
    "Compress the following message to at most "@
}

pub open spec fn prompt_middle() -> Seq<char> {
    " words (60% of the original "@
}

pub open spec fn prompt_end() -> Seq<char> {
    " words). You MUST preserve every specific fact, number, name, constraint, and instruction \u{2014} these cannot be dropped or paraphrased. Aggressively cut filler words, repetition, elaboration, and anything that restates the obvious. Be terse. Output only the compressed text, nothing else.\n\nMessage: "@
}

/// The prompt asking for `text` compressed to at most `target_words` of its
/// `word_count` words, with every fact kept.
pub fn compress_prompt(text: &str, target_words: usize, word_count: usize) -> (r: String)
    ensures
        r@ == prompt_start() + decimal(target_words as nat) + prompt_middle() + decimal(
            word_count as nat,
        ) + prompt_end() + text@,
{
    let mut s: Vec<char> = Vec::new();
    push_str(&mut s, "Compress the following message to at most ");
    push_decimal(&mut s, target_words);
    push_str(&mut s, " words (60% of the original ");
    push_decimal(&mut s, word_count);
    push_str(
        &mut s,
        " words). You MUST preserve every specific fact, number, name, constraint, and instruction \u{2014} these cannot be dropped or paraphrased. Aggressively cut filler words, repetition, elaboration, and anything that restates the obvious. Be terse. Output only the compressed text, nothing else.\n\nMessage: ",
    );
    push_str(&mut s, text);
    string_of(s.as_slice())
}

/// The summary in a reply: its text without surrounding whitespace.
pub fn reply_text(response: &str) -> (r: String)
    ensures
        r@ == trim(response@),
{
    let v = chars_of(response);
    let t = trim_of(v.as_slice());
    string_of(t.as_slice())
}

} // verus!
