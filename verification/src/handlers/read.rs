//! `cat`: long files cut to head and tail, very long ones summarised.
use vstd::prelude::*;
use super::util::{joined, line_at, no_lines, output_lines, push_line};
use super::{clone_args, Handler};
use crate::summarizer::{headtail_ranking, omission_marker, summarize, summarize_with, summary_text};
use crate::text::{decimal, join, lines, push_decimal, push_str, views};

verus! {

pub struct ReadHandler;

/// Up to 100 lines unchanged; up to 500 lines the first 60 and last 20 with
/// an omission marker; longer files summarised to 80 lines (by the given
/// ranking, or by position without one).
pub open spec fn read_spec(output: Seq<char>, ranking: Option<Seq<usize>>) -> Seq<char> {
    let ls = lines(output);
    let n = ls.len();
    if n <= 100 {
        output
    } else if n <= 500 {
        join(ls.take(60).push(omission_marker((n - 80) as nat)) + ls.skip(n - 20), seq!['\n'])
    } else {
        match ranking {
            Some(rk) => summary_text(output, 80, Some(rk)),
            None => summary_text(output, 80, Some(headtail_ranking(n, 80))),
        }
    }
}

/// Filter `cat` output given the ranking of its non-blank lines for the
/// summary of very long files (or `None`).
pub fn filter_read_with(output: &str, ranking: Option<&[usize]>) -> (r: String)
    requires
        ranking matches Some(rk) ==> forall|k: int|
            0 <= k < rk@.len() ==> rk@[k] < lines(output@).len(),
    ensures
        r@ == read_spec(
            output@,
            match ranking {
                Some(rk) => Some(rk@),
                None => None,
            },
        ),
{
    let ls = output_lines(output);
    let ghost lv = views(ls@);
    assert(lv.len() == ls@.len());
    let n = ls.len();
    if n <= 100 {
        return output.to_owned();
    }
    if n <= 500 {
        let mut out = no_lines();
        let mut i: usize = 0;
        while i < 60
            invariant
                i <= 60 < n == ls.len(),
                views(out@) == views(ls@).take(i as int),
            decreases 60 - i,
        {
            push_line(&mut out, line_at(&ls, i));
            assert(views(out@) =~= views(ls@).take(i + 1));
            i += 1;
        }
        let mut m: Vec<char> = Vec::new();
        push_str(&mut m, "[... ");
        push_decimal(&mut m, n - 80);
        push_str(&mut m, " lines omitted ...]");
        push_line(&mut out, m);
        let ghost base = views(out@);
        let mut k = n - 20;
        while k < n
            invariant
                n - 20 <= k <= n == ls.len(),
                n > 100,
                views(out@) == base + views(ls@).subrange(n - 20, k as int),
            decreases n - k,
        {
            push_line(&mut out, line_at(&ls, k));
            assert(views(out@) =~= base + views(ls@).subrange(n - 20, k + 1));
            k += 1;
        }
        assert(views(ls@).subrange(n - 20, n as int) =~= views(ls@).skip(n - 20));
        return joined(&out);
    }
    match ranking {
        Some(rk) => summarize_with(output, 80, Some(rk)).output,
        None => summarize(output, 80).output,
    }
}

impl Handler for ReadHandler {
    fn rewrite_args(&self, args: &[String]) -> (r: Vec<String>)
        ensures
            r@ == args@,
    {
        clone_args(args)
    }

    /// Without a line ranking, very long files are summarised by position.
    fn filter(&self, output: &str, args: &[String]) -> (r: String)
        ensures
            r@ == read_spec(output@, None),
    {
        filter_read_with(output, None)
    }
}

} // verus!
