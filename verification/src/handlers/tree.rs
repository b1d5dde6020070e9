//! `tree`: long listings cut to 25 entries plus the summary line.
use vstd::prelude::*;
use super::util::{joined, line_at, no_lines, output_lines, push_line};
use super::{clone_args, Handler};
use crate::text::{contains, contains_lit, decimal, join, lines, push_decimal, push_str, views};

verus! {

pub struct TreeHandler;

pub open spec fn is_summary(l: Seq<char>) -> bool {
    contains(l, "director"@) && contains(l, "file"@)
}

/// The last line that reads as the `N directories, M files` summary.
pub open spec fn last_summary(ls: Seq<Seq<char>>) -> Option<Seq<char>>
    decreases ls.len(),
{
    if ls.len() == 0 {
        None
    } else if is_summary(ls.last()) {
        Some(ls.last())
    } else {
        last_summary(ls.drop_last())
    }
}

/// Short listings unchanged; longer ones cut to 25 lines, a count of the
/// rest, and the summary line.
pub open spec fn tree_spec(output: Seq<char>) -> Seq<char> {
    let ls = lines(output);
    if ls.len() <= 30 {
        output
    } else {
        let summary = last_summary(ls);
        let remaining = ls.len() - 25;
        let extra = if summary is Some {
            remaining - 1
        } else {
            remaining
        };
        let head = ls.take(25).push("[... "@ + decimal(extra as nat) + " more entries]"@);
        join(
            match summary {
                Some(s) => head.push(s),
                None => head,
            },
            seq!['\n'],
        )
    }
}

fn find_summary(ls: &Vec<Vec<char>>) -> (r: Option<Vec<char>>)
    ensures
        match r {
            Some(s) => last_summary(views(ls@)) == Some(s@),
            None => last_summary(views(ls@)) is None,
        },
{
    let ghost lv = views(ls@);
    let mut k = ls.len();
    assert(lv.take(k as int) =~= lv);
    while k > 0
        invariant
            k <= ls.len(),
            lv == views(ls@),
            last_summary(lv) == last_summary(lv.take(k as int)),
        decreases k,
    {
        assert(lv.take(k as int).last() == lv[k - 1]);
        assert(lv.take(k as int).drop_last() =~= lv.take(k - 1));
        if contains_lit(ls[k - 1].as_slice(), "director") && contains_lit(
            ls[k - 1].as_slice(),
            "file",
        ) {
            return Some(line_at(ls, k - 1));
        }
        k -= 1;
    }
    None
}

impl Handler for TreeHandler {
    fn rewrite_args(&self, args: &[String]) -> (r: Vec<String>)
        ensures
            r@ == args@,
    {
        clone_args(args)
    }

    fn filter(&self, output: &str, args: &[String]) -> (r: String)
        ensures
            r@ == tree_spec(output@),
    {
        let ls = output_lines(output);
        let ghost lv = views(ls@);
        assert(lv.len() == ls@.len());
        if ls.len() <= 30 {
            return output.to_owned();
        }
        let summary = find_summary(&ls);
        let mut out = no_lines();
        let mut i: usize = 0;
        while i < 25
            invariant
                i <= 25 < ls.len(),
                views(out@) == views(ls@).take(i as int),
            decreases 25 - i,
        {
            push_line(&mut out, line_at(&ls, i));
            assert(views(out@) =~= views(ls@).take(i + 1));
            i += 1;
        }
        let remaining = ls.len() - 25;
        let extra = if summary.is_some() {
            remaining - 1
        } else {
            remaining
        };
        let mut m: Vec<char> = Vec::new();
        push_str(&mut m, "[... ");
        push_decimal(&mut m, extra);
        push_str(&mut m, " more entries]");
        push_line(&mut out, m);
        match summary {
            Some(s) => push_line(&mut out, s),
            None => {},
        }
        joined(&out)
    }
}

} // verus!
