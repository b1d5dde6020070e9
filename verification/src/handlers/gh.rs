//! `gh`: compact pull request, issue, check and run listings.
use vstd::prelude::*;
use super::pip::last_nonblank;
use super::util::{joined, joined_or, line_at, no_lines, or_original, output_lines, push_line};
use super::{arg, arg_chars, clone_args, Handler};
use crate::text::{
    char_index, contains, contains_lit, decimal, eq_lit, index_of, is_blank, join, lemma_fold_take,
    lemma_filter_take, lines, push_all, push_decimal, push_str, slice, starts_lit, starts_with,
    string_of, trim, trim_of, views, words, words_of,
};

verus! {

pub struct GhHandler;

/// `s.splitn(n, c)` for `n >= 1`: at most `n` parts, the last one holding
/// the rest.
pub open spec fn splitn(s: Seq<char>, n: nat, c: char) -> Seq<Seq<char>>
    decreases n,
{
    if n <= 1 {
        seq![s]
    } else {
        let k = index_of(s, c);
        if k >= s.len() {
            seq![s]
        } else {
            seq![s.take(k)] + splitn(s.skip(k + 1), (n - 1) as nat, c)
        }
    }
}

/// The first `max` characters and an ellipsis, when longer than `max`.
pub open spec fn cut(s: Seq<char>, max: nat) -> Seq<char> {
    if s.len() <= max {
        s
    } else {
        s.take(max as int) + "\u{2026}"@
    }
}

/// `#number title [state] @author` for a tab-separated pull request row.
pub open spec fn pr_row(l: Seq<char>) -> Seq<char> {
    let cols = splitn(trim(l), 5, '\t');
    if cols.len() >= 4 {
        "#"@ + cols[0] + " "@ + cut(cols[1], 60) + " ["@ + cols[2] + "] @"@ + cols[3]
    } else {
        l
    }
}

/// `#number title [labels] @assignee` for a tab-separated issue row.
pub open spec fn issue_row(l: Seq<char>) -> Seq<char> {
    let cols = splitn(trim(l), 5, '\t');
    if cols.len() >= 3 {
        "#"@ + cols[0] + " "@ + cut(cols[1], 60) + " ["@ + cols[2] + "] @"@ + (if cols.len()
            >= 4 {
            cols[3]
        } else {
            seq![]
        })
    } else {
        l
    }
}

pub open spec fn filled(l: Seq<char>) -> bool {
    trim(l).len() > 0
}

/// Kept lines, whether the body has started, and body lines kept.
pub struct ViewState {
    pub out: Seq<Seq<char>>,
    pub in_body: bool,
    pub body: nat,
}

pub open spec fn view_step(st: ViewState, line: Seq<char>) -> ViewState {
    let t = trim(line);
    if starts_with(t, "title:"@) || starts_with(t, "state:"@) || starts_with(t, "author:"@) {
        ViewState { out: st.out.push(line), ..st }
    } else if starts_with(t, "--"@) {
        ViewState { in_body: true, ..st }
    } else if st.in_body && st.body < 10 {
        ViewState { out: st.out.push(line), body: st.body + 1, ..st }
    } else if starts_with(t, "checks:"@) || starts_with(t, "review decision:"@) {
        ViewState { out: st.out.push(line), ..st }
    } else {
        st
    }
}

/// Checks passed, and the names of the failed ones.
pub struct ChecksState {
    pub passed: nat,
    pub failed: Seq<Seq<char>>,
}

pub open spec fn checks_step(st: ChecksState, line: Seq<char>) -> ChecksState {
    let t = trim(line);
    if t.len() == 0 {
        st
    } else if starts_with(t, "\u{2713}"@) || contains(t, "pass"@) || contains(t, "success"@) {
        ChecksState { passed: st.passed + 1, ..st }
    } else if starts_with(t, "\u{2717}"@) || starts_with(t, "\u{d7}"@) || contains(t, "fail"@) {
        ChecksState { failed: st.failed.push(words(t)[0]), ..st }
    } else {
        st
    }
}

pub open spec fn run_keep(l: Seq<char>) -> bool {
    let t = trim(l);
    contains(t, "completed"@) || contains(t, "in_progress"@) || contains(t, "queued"@) || contains(
        t,
        "failure"@,
    ) || contains(t, "success"@) || contains(t, "cancelled"@)
}

pub open spec fn checks_spec(output: Seq<char>) -> Seq<char> {
    let st = lines(output).fold_left(
        ChecksState { passed: 0, failed: seq![] },
        |st: ChecksState, l: Seq<char>| checks_step(st, l),
    );
    let head = "\u{2713} "@ + decimal(st.passed) + " passed, \u{2717} "@ + decimal(st.failed.len())
        + " failed"@;
    if st.failed.len() > 0 {
        head + seq!['\n'] + join(st.failed, seq!['\n'])
    } else {
        head
    }
}

pub open spec fn gh_spec(output: Seq<char>, args: Seq<String>) -> Seq<char> {
    let sub = arg(args, 1);
    let act = arg(args, 2);
    if sub == "pr"@ && act == "list"@ {
        join(
            lines(output).filter(|l: Seq<char>| filled(l)).map_values(|l: Seq<char>| pr_row(l)),
            seq!['\n'],
        )
    } else if sub == "pr"@ && act == "view"@ {
        or_original(
            lines(output).fold_left(
                ViewState { out: seq![], in_body: false, body: 0 },
                |st: ViewState, l: Seq<char>| view_step(st, l),
            ).out,
            output,
        )
    } else if sub == "pr"@ && act == "checks"@ {
        checks_spec(output)
    } else if sub == "issue"@ && act == "list"@ {
        join(
            lines(output).filter(|l: Seq<char>| filled(l)).map_values(|l: Seq<char>| issue_row(l)),
            seq!['\n'],
        )
    } else if sub == "run"@ && (act == "list"@ || act == "view"@) {
        or_original(lines(output).filter(|l: Seq<char>| run_keep(l)), output)
    } else if sub == "repo"@ && (act == "clone"@ || act == "fork"@) {
        match last_nonblank(lines(output)) {
            Some(l) => l,
            None => output,
        }
    } else {
        output
    }
}

fn split_at_most(s: &[char], n: usize, c: char) -> (r: Vec<Vec<char>>)
    ensures
        views(r@) == splitn(s@, n as nat, c),
    decreases n,
{
    let mut r = no_lines();
    if n <= 1 {
        push_line(&mut r, slice(s, 0, s.len()));
        assert(s@.subrange(0, s.len() as int) =~= s@);
        assert(views(r@) =~= seq![s@]);
        return r;
    }
    let k = char_index(s, c);
    if k >= s.len() {
        push_line(&mut r, slice(s, 0, s.len()));
        assert(s@.subrange(0, s.len() as int) =~= s@);
        assert(views(r@) =~= seq![s@]);
        return r;
    }
    let first = slice(s, 0, k);
    let rest_chars = slice(s, k + 1, s.len());
    assert(rest_chars@ =~= s@.skip(k + 1));
    let rest = split_at_most(rest_chars.as_slice(), n - 1, c);
    push_line(&mut r, first);
    let ghost rv = views(rest@);
    let mut q: usize = 0;
    while q < rest.len()
        invariant
            q <= rest.len(),
            rv == views(rest@),
            views(r@) == seq![s@.take(k as int)] + rv.take(q as int),
        decreases rest.len() - q,
    {
        push_line(&mut r, line_at(&rest, q));
        assert(views(r@) =~= seq![s@.take(k as int)] + rv.take(q + 1));
        q += 1;
    }
    assert(rv.take(rest.len() as int) =~= rv);
    r
}

fn truncate(s: &[char], max: usize) -> (r: Vec<char>)
    ensures
        r@ == cut(s@, max as nat),
{
    if s.len() <= max {
        slice(s, 0, s.len())
    } else {
        let mut r = slice(s, 0, max);
        push_str(&mut r, "\u{2026}");
        r
    }
}

fn row(l: &[char], issue: bool) -> (r: Vec<char>)
    ensures
        issue ==> r@ == issue_row(l@),
        !issue ==> r@ == pr_row(l@),
{
    let t = trim_of(l);
    let cols = split_at_most(t.as_slice(), 5, '\t');
    let ghost cv = views(cols@);
    assert(cv.len() == cols.len());
    let need: usize = if issue {
        3
    } else {
        4
    };
    if cols.len() < need {
        return slice(l, 0, l.len());
    }
    assert(cv[0] == cols@[0]@ && cv[1] == cols@[1]@ && cv[2] == cols@[2]@);
    let mut r: Vec<char> = Vec::new();
    push_str(&mut r, "#");
    push_all(&mut r, cols[0].as_slice());
    push_str(&mut r, " ");
    let c = truncate(cols[1].as_slice(), 60);
    push_all(&mut r, c.as_slice());
    push_str(&mut r, " [");
    push_all(&mut r, cols[2].as_slice());
    push_str(&mut r, "] @");
    if cols.len() >= 4 {
        assert(cv[3] == cols@[3]@);
        push_all(&mut r, cols[3].as_slice());
    }
    assert(r@ =~= "#"@ + cv[0] + " "@ + cut(cv[1], 60) + " ["@ + cv[2] + "] @"@ + (if cv.len() >= 4 {
        cv[3]
    } else {
        seq![]
    }));
    r
}

fn rows(output: &str, issue: bool) -> (r: String)
    ensures
        issue ==> r@ == join(
            lines(output@).filter(|l: Seq<char>| filled(l)).map_values(|l: Seq<char>| issue_row(l)),
            seq!['\n'],
        ),
        !issue ==> r@ == join(
            lines(output@).filter(|l: Seq<char>| filled(l)).map_values(|l: Seq<char>| pr_row(l)),
            seq!['\n'],
        ),
{
    let ls = output_lines(output);
    let ghost lv = views(ls@);
    let ghost p = |l: Seq<char>| filled(l);
    let ghost m = if issue {
        |l: Seq<char>| issue_row(l)
    } else {
        |l: Seq<char>| pr_row(l)
    };
    let mut out = no_lines();
    let mut i: usize = 0;
    while i < ls.len()
        invariant
            i <= ls.len(),
            lv == views(ls@),
            p == (|l: Seq<char>| filled(l)),
            issue ==> m == (|l: Seq<char>| issue_row(l)),
            !issue ==> m == (|l: Seq<char>| pr_row(l)),
            views(out@) == lv.take(i as int).filter(p).map_values(m),
        decreases ls.len() - i,
    {
        proof {
            lemma_filter_take(lv, p, i as int);
        }
        assert(lv[i as int] == ls@[i as int]@);
        let t = trim_of(ls[i].as_slice());
        if t.len() > 0 {
            let rw = row(ls[i].as_slice(), issue);
            push_line(&mut out, rw);
            assert(views(out@) =~= lv.take(i + 1).filter(p).map_values(m));
        }
        i += 1;
    }
    assert(lv.take(ls.len() as int) =~= lv);
    joined(&out)
}

fn filter_pr_view(output: &str) -> (r: String)
    ensures
        r@ == or_original(
            lines(output@).fold_left(
                ViewState { out: seq![], in_body: false, body: 0 },
                |st: ViewState, l: Seq<char>| view_step(st, l),
            ).out,
            output@,
        ),
{
    let ls = output_lines(output);
    let ghost lv = views(ls@);
    let ghost f = |st: ViewState, l: Seq<char>| view_step(st, l);
    let ghost init = ViewState { out: seq![], in_body: false, body: 0 };
    let mut out = no_lines();
    let mut in_body = false;
    let mut body: usize = 0;
    let mut i: usize = 0;
    while i < ls.len()
        invariant
            i <= ls.len(),
            lv == views(ls@),
            f == (|st: ViewState, l: Seq<char>| view_step(st, l)),
            init == (ViewState { out: seq![], in_body: false, body: 0 }),
            body <= 10,
            lv.take(i as int).fold_left(init, f) == (ViewState {
                out: views(out@),
                in_body,
                body: body as nat,
            }),
        decreases ls.len() - i,
    {
        proof {
            lemma_fold_take(lv, init, f, i as int);
        }
        assert(lv[i as int] == ls@[i as int]@);
        let t = trim_of(ls[i].as_slice());
        let ts = t.as_slice();
        if starts_lit(ts, "title:") || starts_lit(ts, "state:") || starts_lit(ts, "author:") {
            push_line(&mut out, line_at(&ls, i));
        } else if starts_lit(ts, "--") {
            in_body = true;
        } else if in_body && body < 10 {
            push_line(&mut out, line_at(&ls, i));
            body += 1;
        } else if starts_lit(ts, "checks:") || starts_lit(ts, "review decision:") {
            push_line(&mut out, line_at(&ls, i));
        }
        i += 1;
    }
    assert(lv.take(ls.len() as int) =~= lv);
    joined_or(&out, output)
}

fn filter_pr_checks(output: &str) -> (r: String)
    ensures
        r@ == checks_spec(output@),
{
    let ls = output_lines(output);
    let ghost lv = views(ls@);
    let ghost f = |st: ChecksState, l: Seq<char>| checks_step(st, l);
    let ghost init = ChecksState { passed: 0, failed: seq![] };
    let mut passed: usize = 0;
    let mut failed = no_lines();
    let mut i: usize = 0;
    while i < ls.len()
        invariant
            i <= ls.len(),
            lv == views(ls@),
            f == (|st: ChecksState, l: Seq<char>| checks_step(st, l)),
            init == (ChecksState { passed: 0, failed: seq![] }),
            passed <= i,
            lv.take(i as int).fold_left(init, f) == (ChecksState {
                passed: passed as nat,
                failed: views(failed@),
            }),
        decreases ls.len() - i,
    {
        proof {
            lemma_fold_take(lv, init, f, i as int);
        }
        assert(lv[i as int] == ls@[i as int]@);
        let t = trim_of(ls[i].as_slice());
        let ts = t.as_slice();
        if t.len() == 0 {
        } else if starts_lit(ts, "\u{2713}") || contains_lit(ts, "pass") || contains_lit(
            ts,
            "success",
        ) {
            passed += 1;
        } else if starts_lit(ts, "\u{2717}") || starts_lit(ts, "\u{d7}") || contains_lit(ts, "fail") {
            let ws = words_of(ts);
            proof {
                crate::text::lemma_trim_nonempty_words(ls@[i as int]@);
            }
            assert(views(ws@).len() == ws.len());
            assert(views(ws@)[0] == ws@[0]@);
            push_line(&mut failed, line_at(&ws, 0));
        }
        i += 1;
    }
    assert(lv.take(ls.len() as int) =~= lv);
    let mut r: Vec<char> = Vec::new();
    push_str(&mut r, "\u{2713} ");
    push_decimal(&mut r, passed);
    push_str(&mut r, " passed, \u{2717} ");
    push_decimal(&mut r, failed.len());
    push_str(&mut r, " failed");
    assert(views(failed@).len() == failed.len());
    if failed.len() > 0 {
        r.push('\n');
        let j = crate::text::join_lines(&failed);
        push_all(&mut r, j.as_slice());
    }
    string_of(r.as_slice())
}

fn run_line(l: &[char]) -> (b: bool)
    ensures
        b == run_keep(l@),
{
    let t = trim_of(l);
    let ts = t.as_slice();
    contains_lit(ts, "completed") || contains_lit(ts, "in_progress") || contains_lit(ts, "queued")
        || contains_lit(ts, "failure") || contains_lit(ts, "success") || contains_lit(
        ts,
        "cancelled",
    )
}

fn filter_run(output: &str) -> (r: String)
    ensures
        r@ == or_original(lines(output@).filter(|l: Seq<char>| run_keep(l)), output@),
{
    let ls = output_lines(output);
    let ghost lv = views(ls@);
    let ghost p = |l: Seq<char>| run_keep(l);
    let mut out = no_lines();
    let mut i: usize = 0;
    while i < ls.len()
        invariant
            i <= ls.len(),
            lv == views(ls@),
            p == (|l: Seq<char>| run_keep(l)),
            views(out@) == lv.take(i as int).filter(p),
        decreases ls.len() - i,
    {
        proof {
            lemma_filter_take(lv, p, i as int);
        }
        assert(lv[i as int] == ls@[i as int]@);
        if run_line(ls[i].as_slice()) {
            push_line(&mut out, line_at(&ls, i));
        }
        i += 1;
    }
    assert(lv.take(ls.len() as int) =~= lv);
    joined_or(&out, output)
}

/// The last line that is not blank, or the output.
fn last_line(output: &str) -> (r: String)
    ensures
        r@ == match last_nonblank(lines(output@)) {
            Some(l) => l,
            None => output@,
        },
{
    let ls = output_lines(output);
    let ghost lv = views(ls@);
    let mut i = ls.len();
    assert(lv.take(ls.len() as int) =~= lv);
    while i > 0 && is_blank(ls[i - 1].as_slice())
        invariant
            i <= ls.len(),
            lv == views(ls@),
            last_nonblank(lv) == last_nonblank(lv.take(i as int)),
        decreases i,
    {
        assert(lv[i - 1] == ls@[i - 1]@);
        assert(lv.take(i as int).drop_last() =~= lv.take(i - 1));
        i -= 1;
    }
    if i == 0 {
        assert(lv.take(0) =~= Seq::<Seq<char>>::empty());
        return output.to_owned();
    }
    assert(lv[i - 1] == ls@[i - 1]@);
    assert(lv.take(i as int).last() == lv[i - 1]);
    string_of(ls[i - 1].as_slice())
}

impl Handler for GhHandler {
    fn rewrite_args(&self, args: &[String]) -> (r: Vec<String>)
        ensures
            r@ == args@,
    {
        clone_args(args)
    }

    fn filter(&self, output: &str, args: &[String]) -> (r: String)
        ensures
            r@ == gh_spec(output@, args@),
    {
        let sub = arg_chars(args, 1);
        let act = arg_chars(args, 2);
        let s = sub.as_slice();
        let a = act.as_slice();
        if eq_lit(s, "pr") && eq_lit(a, "list") {
            rows(output, false)
        } else if eq_lit(s, "pr") && eq_lit(a, "view") {
            filter_pr_view(output)
        } else if eq_lit(s, "pr") && eq_lit(a, "checks") {
            filter_pr_checks(output)
        } else if eq_lit(s, "issue") && eq_lit(a, "list") {
            rows(output, true)
        } else if eq_lit(s, "run") && (eq_lit(a, "list") || eq_lit(a, "view")) {
            filter_run(output)
        } else if eq_lit(s, "repo") && (eq_lit(a, "clone") || eq_lit(a, "fork")) {
            last_line(output)
        } else {
            output.to_owned()
        }
    }
}

} // verus!
