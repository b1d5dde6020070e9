//! `rake`: Minitest failure blocks and the summary line.
use vstd::prelude::*;
use super::util::{joined_or, line_at, no_lines, or_original, output_lines, push_line};
use super::{clone_args, Handler};
use crate::text::{
    contains, contains_lit, is_ascii_digit, is_digit, lemma_fold_take, lines, starts_lit,
    starts_with, trim, trim_of, views,
};

verus! {

pub struct RakeHandler;

/// Kept lines, whether inside a failure block, and its lines so far.
pub struct MinitestState {
    pub out: Seq<Seq<char>>,
    pub in_failure: bool,
    pub n: nat,
}

pub open spec fn minitest_step(st: MinitestState, line: Seq<char>) -> MinitestState {
    let t = trim(line);
    if t.len() > 0 && is_digit(t[0]) && (contains(t, "Failure:"@) || contains(t, "Error:"@)) {
        MinitestState { out: st.out.push(line), in_failure: true, n: 0 }
    } else if st.in_failure {
        let n = st.n + 1;
        MinitestState {
            out: st.out.push(line),
            in_failure: !((t.len() == 0 && n > 2) || n >= 12),
            n,
        }
    } else {
        let o1 = if contains(t, "runs,"@) && contains(t, "assertions,"@) {
            st.out.push(line)
        } else {
            st.out
        };
        let o2 = if starts_with(t, "rake aborted!"@) || starts_with(t, "Tasks:"@) {
            o1.push(line)
        } else {
            o1
        };
        MinitestState { out: o2, ..st }
    }
}

/// Failure and error blocks (`1) Failure:`, up to 12 lines each), the
/// `N runs, N assertions` summary and rake's abort lines; the output itself
/// when there are none.
pub open spec fn minitest_spec(output: Seq<char>) -> Seq<char> {
    or_original(
        lines(output).fold_left(
            MinitestState { out: seq![], in_failure: false, n: 0 },
            |st: MinitestState, l: Seq<char>| minitest_step(st, l),
        ).out,
        output,
    )
}

/// Filter Minitest output as run by `rake test`.
pub fn filter_minitest(output: &str) -> (r: String)
    ensures
        r@ == minitest_spec(output@),
{
    let ls = output_lines(output);
    let ghost lv = views(ls@);
    let ghost f = |st: MinitestState, l: Seq<char>| minitest_step(st, l);
    let ghost init = MinitestState { out: seq![], in_failure: false, n: 0 };
    let mut out = no_lines();
    let mut in_failure = false;
    let mut n: usize = 0;
    let mut i: usize = 0;
    while i < ls.len()
        invariant
            i <= ls.len(),
            lv == views(ls@),
            f == (|st: MinitestState, l: Seq<char>| minitest_step(st, l)),
            init == (MinitestState { out: seq![], in_failure: false, n: 0 }),
            n <= 12,
            lv.take(i as int).fold_left(init, f) == (MinitestState {
                out: views(out@),
                in_failure,
                n: n as nat,
            }),
        decreases ls.len() - i,
    {
        proof {
            lemma_fold_take(lv, init, f, i as int);
        }
        assert(lv[i as int] == ls@[i as int]@);
        let t = trim_of(ls[i].as_slice());
        let ts = t.as_slice();
        if t.len() > 0 && is_ascii_digit(t[0]) && (contains_lit(ts, "Failure:") || contains_lit(
            ts,
            "Error:",
        )) {
            push_line(&mut out, line_at(&ls, i));
            in_failure = true;
            n = 0;
        } else if in_failure {
            push_line(&mut out, line_at(&ls, i));
            n += 1;
            if (t.len() == 0 && n > 2) || n >= 12 {
                in_failure = false;
            }
        } else {
            if contains_lit(ts, "runs,") && contains_lit(ts, "assertions,") {
                push_line(&mut out, line_at(&ls, i));
            }
            if starts_lit(ts, "rake aborted!") || starts_lit(ts, "Tasks:") {
                push_line(&mut out, line_at(&ls, i));
            }
        }
        i += 1;
    }
    assert(lv.take(ls.len() as int) =~= lv);
    joined_or(&out, output)
}

impl Handler for RakeHandler {
    fn rewrite_args(&self, args: &[String]) -> (r: Vec<String>)
        ensures
            r@ == args@,
    {
        clone_args(args)
    }

    fn filter(&self, output: &str, args: &[String]) -> (r: String)
        ensures
            r@ == minitest_spec(output@),
    {
        filter_minitest(output)
    }
}

} // verus!
