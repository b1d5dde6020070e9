//! The decisions of the post-tool hook: which text to compress and which
//! command produced it.
use vstd::prelude::*;
use crate::json::{Json, as_str, get, get_field, str_of};
use crate::text::{chars_of, string_of, words, words_of};

verus! {

/// The first word of `tool_input.command`, when it is a string with a word.
pub open spec fn command_hint_spec(tool_input: Json) -> Option<Seq<char>> {
    match as_str(get(tool_input, "command"@)) {
        Some(cmd) => if words(cmd).len() > 0 {
            Some(words(cmd)[0])
        } else {
            None
        },
        None => None,
    }
}

/// The name of the command the hook saw run.
pub fn command_hint(tool_input: &Json) -> (r: Option<String>)
    ensures
        match r {
            Some(s) => command_hint_spec(*tool_input) == Some(s@),
            None => command_hint_spec(*tool_input) is None,
        },
{
    match str_of(get_field(tool_input, "command")) {
        Some(cmd) => {
            let v = chars_of(cmd);
            let ws = words_of(v.as_slice());
            assert(crate::text::views(ws@).len() == ws.len());
            if ws.len() > 0 {
                assert(crate::text::views(ws@)[0] == ws@[0]@);
                Some(string_of(ws[0].as_slice()))
            } else {
                None
            }
        },
        None => None,
    }
}

/// The text to compress: the tool's error when it reported one, else its
/// output; `None` when that text is empty and there is nothing to do.
pub fn hook_payload(output: &str, error: Option<&str>) -> (r: Option<String>)
    ensures
        match error {
            Some(e) => if e@.len() == 0 {
                r is None
            } else {
                r matches Some(s) && s@ == e@
            },
            None => if output@.len() == 0 {
                r is None
            } else {
                r matches Some(s) && s@ == output@
            },
        },
{
    let text = match error {
        Some(e) => e,
        None => output,
    };
    let v = chars_of(text);
    if v.len() == 0 {
        None
    } else {
        Some(text.to_owned())
    }
}

} // verus!
