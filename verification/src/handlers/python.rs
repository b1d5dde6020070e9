//! `python`: tracebacks kept, long output summarised.
use vstd::prelude::*;
use super::util::output_lines;
use super::{clone_args, Handler};
use crate::rewrite::{find_from, lemma_find_from};
use crate::summarizer::{headtail_ranking, summarize, summarize_with, summary_text};
use crate::text::{chars_of, lines, matches_at, occurs_at, slice, string_of, views};

verus! {

pub struct PythonHandler;

/// Up to 50 lines unchanged; otherwise everything from the first
/// `Traceback (most recent call last):` on, or a 40-line summary (by the
/// given ranking, or by position without one).
pub open spec fn python_spec(output: Seq<char>, ranking: Option<Seq<usize>>) -> Seq<char> {
    let p = find_from(output, "Traceback (most recent call last):"@, 0);
    if lines(output).len() <= 50 {
        output
    } else if p >= 0 {
        output.skip(p)
    } else {
        match ranking {
            Some(rk) => summary_text(output, 40, Some(rk)),
            None => summary_text(output, 40, Some(headtail_ranking(lines(output).len(), 40))),
        }
    }
}

/// The first position of `p` in `s`, or `None`.
pub fn find_lit(s: &[char], p: &str) -> (r: Option<usize>)
    ensures
        match r {
            Some(i) => find_from(s@, p@, 0) == i as int,
            None => find_from(s@, p@, 0) == -1,
        },
{
    let pv = chars_of(p);
    proof {
        lemma_find_from(s@, p@, 0);
    }
    if pv.len() > s.len() {
        return None;
    }
    let mut i: usize = 0;
    while i <= s.len() - pv.len()
        invariant
            pv@ == p@,
            pv.len() <= s.len(),
            i <= s.len() - pv.len() + 1,
            find_from(s@, p@, 0) == find_from(s@, p@, i as int),
        decreases s.len() - pv.len() + 1 - i,
    {
        if matches_at(s, pv.as_slice(), i) {
            return Some(i);
        }
        if i == s.len() - pv.len() {
            assert(find_from(s@, p@, i + 1) == -1);
            return None;
        }
        i += 1;
    }
    None
}

/// Filter `python` output given the ranking of its non-blank lines for the
/// summary (or `None`).
pub fn filter_python_with(output: &str, ranking: Option<&[usize]>) -> (r: String)
    requires
        ranking matches Some(rk) ==> forall|k: int|
            0 <= k < rk@.len() ==> rk@[k] < lines(output@).len(),
    ensures
        r@ == python_spec(
            output@,
            match ranking {
                Some(rk) => Some(rk@),
                None => None,
            },
        ),
{
    let ls = output_lines(output);
    assert(views(ls@).len() == ls@.len());
    if ls.len() <= 50 {
        return output.to_owned();
    }
    let v = chars_of(output);
    match find_lit(v.as_slice(), "Traceback (most recent call last):") {
        Some(p) => {
            proof {
                lemma_find_from(output@, "Traceback (most recent call last):"@, 0);
            }
            let t = slice(v.as_slice(), p, v.len());
            assert(t@ =~= output@.skip(p as int));
            string_of(t.as_slice())
        },
        None => match ranking {
            Some(rk) => summarize_with(output, 40, Some(rk)).output,
            None => summarize(output, 40).output,
        },
    }
}

impl Handler for PythonHandler {
    fn rewrite_args(&self, args: &[String]) -> (r: Vec<String>)
        ensures
            r@ == args@,
    {
        clone_args(args)
    }

    /// Without a line ranking, long output is summarised by position.
    fn filter(&self, output: &str, args: &[String]) -> (r: String)
        ensures
            r@ == python_spec(output@, None),
    {
        filter_python_with(output, None)
    }
}

} // verus!
