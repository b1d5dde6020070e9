//! Helpers shared by the handlers: table compaction and test-runner output.
use vstd::prelude::*;
use crate::text::{
    blank, chars_of, contains, contains_lit, ends_lit, ends_with, eq_lit, has_char, is_blank,
    join, join_lines, join_with, lemma_filter_take, lemma_fold_take, lemma_views_push, lines,
    lines_of, push_str, starts_lit, starts_with, string_of, trim, trim_of, views, words, words_of,
};

verus! {

// ───────────────────────────── shared helpers ─────────────────────────────

/// The lines joined with `'\n'`, or the original output when there are none.
pub open spec fn or_original(kept: Seq<Seq<char>>, output: Seq<char>) -> Seq<char> {
    if kept.len() == 0 {
        output
    } else {
        join(kept, seq!['\n'])
    }
}

/// The lines of an output.
pub fn output_lines(output: &str) -> (r: Vec<Vec<char>>)
    ensures
        views(r@) == lines(output@),
{
    let v = chars_of(output);
    lines_of(v.as_slice())
}

/// Lines joined with `'\n'` as a `String`.
pub fn joined(ls: &Vec<Vec<char>>) -> (r: String)
    ensures
        r@ == join(views(ls@), seq!['\n']),
{
    let j = join_lines(ls);
    string_of(j.as_slice())
}

/// Lines joined with `'\n'`, or the original output when there are none.
pub fn joined_or(ls: &Vec<Vec<char>>, output: &str) -> (r: String)
    ensures
        r@ == or_original(views(ls@), output@),
{
    if ls.len() == 0 {
        output.to_owned()
    } else {
        joined(ls)
    }
}

/// An empty list of lines.
pub fn no_lines() -> (r: Vec<Vec<char>>)
    ensures
        views(r@) == Seq::<Seq<char>>::empty(),
        r@.len() == 0,
{
    let r: Vec<Vec<char>> = Vec::new();
    assert(views(r@) =~= Seq::<Seq<char>>::empty());
    r
}

/// Appends a line.
pub fn push_line(out: &mut Vec<Vec<char>>, l: Vec<char>)
    ensures
        views(final(out)@) == views(old(out)@).push(l@),
{
    proof {
        lemma_views_push(out@, l);
    }
    out.push(l);
}

/// Appends a literal line.
pub fn push_lit_line(out: &mut Vec<Vec<char>>, s: &str)
    ensures
        views(final(out)@) == views(old(out)@).push(s@),
{
    let v = chars_of(s);
    push_line(out, v);
}

/// A copy of line `i`.
pub fn line_at(ls: &Vec<Vec<char>>, i: usize) -> (r: Vec<char>)
    requires
        i < ls.len(),
    ensures
        r@ == views(ls@)[i as int],
{
    ls[i].clone()
}

// ───────────────────────────── compact_table ─────────────────────────────

/// The words at the given column indices that exist, in the order given.
pub open spec fn pick(ws: Seq<Seq<char>>, keep: Seq<usize>) -> Seq<Seq<char>>
    decreases keep.len(),
{
    if keep.len() == 0 {
        seq![]
    } else {
        pick(ws, keep.drop_last()) + if keep.last() < ws.len() {
            seq![ws[keep.last() as int]]
        } else {
            seq![]
        }
    }
}

pub open spec fn table_row(l: Seq<char>, keep: Seq<usize>) -> Seq<char> {
    join(pick(words(l), keep), "  "@)
}

/// Non-blank rows of a space-aligned table, each reduced to the kept columns.
pub open spec fn compact_table_spec(output: Seq<char>, keep: Seq<usize>) -> Seq<char> {
    let ls = lines(output);
    if ls.len() == 0 {
        output
    } else {
        join(
            ls.filter(|l: Seq<char>| !blank(l)).map_values(|l: Seq<char>| table_row(l, keep)),
            seq!['\n'],
        )
    }
}

fn row_of(l: &[char], keep_cols: &[usize]) -> (r: Vec<char>)
    ensures
        r@ == table_row(l@, keep_cols@),
{
    let cols = words_of(l);
    let mut sel: Vec<Vec<char>> = Vec::new();
    let mut k: usize = 0;
    while k < keep_cols.len()
        invariant
            k <= keep_cols.len(),
            views(cols@) == words(l@),
            views(sel@) == pick(words(l@), keep_cols@.take(k as int)),
        decreases keep_cols.len() - k,
    {
        assert(keep_cols@.take(k + 1).drop_last() =~= keep_cols@.take(k as int));
        let i = keep_cols[k];
        if i < cols.len() {
            assert(views(cols@)[i as int] == cols@[i as int]@);
            push_line(&mut sel, cols[i].clone());
        }
        assert(views(sel@) =~= pick(words(l@), keep_cols@.take(k + 1)));
        k += 1;
    }
    assert(keep_cols@.take(keep_cols.len() as int) =~= keep_cols@);
    let sep = chars_of("  ");
    join_with(&sel, sep.as_slice())
}

/// Parse a space-aligned table and keep only the given column indices
/// (0-based); blank rows are dropped.
pub fn compact_table(output: &str, keep_cols: &[usize]) -> (r: String)
    ensures
        r@ == compact_table_spec(output@, keep_cols@),
{
    let ls = output_lines(output);
    if ls.len() == 0 {
        return output.to_owned();
    }
    let ghost lv = views(ls@);
    let ghost nb = |l: Seq<char>| !blank(l);
    let ghost row = |l: Seq<char>| table_row(l, keep_cols@);
    let mut out: Vec<Vec<char>> = Vec::new();
    let mut i: usize = 0;
    while i < ls.len()
        invariant
            i <= ls.len(),
            lv == views(ls@),
            nb == (|l: Seq<char>| !blank(l)),
            row == (|l: Seq<char>| table_row(l, keep_cols@)),
            views(out@) == lv.take(i as int).filter(nb).map_values(row),
        decreases ls.len() - i,
    {
        proof {
            lemma_filter_take(lv, nb, i as int);
        }
        assert(lv[i as int] == ls@[i as int]@);
        if !is_blank(ls[i].as_slice()) {
            let r = row_of(ls[i].as_slice(), keep_cols);
            let ghost o0 = views(out@);
            push_line(&mut out, r);
            assert(views(out@) =~= lv.take(i + 1).filter(nb).map_values(row));
        } else {
            assert(views(out@) =~= lv.take(i + 1).filter(nb).map_values(row));
        }
        i += 1;
    }
    assert(lv.take(ls.len() as int) =~= lv);
    joined(&out)
}

// ───────────────────────────── test runners ─────────────────────────────

/// Scanning state of a test-output filter.
pub struct ScanState {
    pub out: Seq<Seq<char>>,
    pub in_failure: bool,
    pub n: nat,
}

pub open spec fn scan_init() -> ScanState {
    ScanState { out: seq![], in_failure: false, n: 0 }
}

/// One line of pytest output.
pub open spec fn pytest_step(st: ScanState, line: Seq<char>) -> ScanState {
    let t = trim(line);
    if starts_with(t, "FAILED "@) || starts_with(t, "ERROR "@) {
        ScanState { out: st.out.push(line), ..st }
    } else if starts_with(t, "____"@) && ends_with(t, "____"@) {
        ScanState { out: st.out.push(line), in_failure: true, n: 0 }
    } else if st.in_failure {
        let (out, n) = if st.n < 10 {
            (st.out.push(line), st.n + 1)
        } else if st.n == 10 {
            (st.out.push("[... truncated ...]"@), st.n + 1)
        } else {
            (st.out, st.n)
        };
        ScanState { out, in_failure: !starts_with(t, "===="@), n }
    } else if (contains(t, " failed"@) || contains(t, " passed"@) || contains(t, " error"@))
        && starts_with(t, "="@) {
        ScanState { out: st.out.push(line), ..st }
    } else {
        st
    }
}

/// One line of jest output.
pub open spec fn jest_step(st: ScanState, line: Seq<char>) -> ScanState {
    let t = trim(line);
    if starts_with(t, "FAIL "@) {
        ScanState { out: st.out.push(line), in_failure: false, ..st }
    } else if t.len() > 0 && t[0] == '\u{25cf}' {
        ScanState { out: st.out.push(line), in_failure: true, n: 0 }
    } else if st.in_failure {
        let (out, n) = if st.n < 15 {
            (st.out.push(line), st.n + 1)
        } else if st.n == 15 {
            (st.out.push("[... truncated ...]"@), st.n + 1)
        } else {
            (st.out, st.n)
        };
        ScanState { out, in_failure: !(t.len() == 0 && n > 2), n }
    } else if starts_with(t, "Tests:"@) || starts_with(t, "Test Suites:"@) || starts_with(
        t,
        "Time:"@,
    ) {
        ScanState { out: st.out.push(line), ..st }
    } else {
        st
    }
}

/// One line of vitest output.
pub open spec fn vitest_step(st: ScanState, line: Seq<char>) -> ScanState {
    let t = trim(line);
    if starts_with(t, "FAIL"@) && t.contains(' ') {
        ScanState { out: st.out.push(line), in_failure: false, ..st }
    } else if starts_with(t, "\u{d7} "@) || starts_with(t, "\u{2717} "@) {
        ScanState { out: st.out.push(line), in_failure: true, n: 0 }
    } else if st.in_failure {
        let (out, n) = if st.n < 5 {
            (st.out.push(line), st.n + 1)
        } else {
            (st.out, st.n)
        };
        ScanState { out, in_failure: !(t.len() == 0 && n > 1), n }
    } else if starts_with(t, "Tests"@) && (contains(t, "failed"@) || contains(t, "passed"@)) {
        ScanState { out: st.out.push(line), ..st }
    } else {
        st
    }
}

/// Failure blocks and summary lines of pytest output.
pub open spec fn pytest_spec(output: Seq<char>) -> Seq<char> {
    or_original(lines(output).fold_left(scan_init(), |st: ScanState, l: Seq<char>| pytest_step(st, l)).out, output)
}

/// Failure blocks and summary lines of jest output.
pub open spec fn jest_spec(output: Seq<char>) -> Seq<char> {
    or_original(lines(output).fold_left(scan_init(), |st: ScanState, l: Seq<char>| jest_step(st, l)).out, output)
}

/// Failure blocks and summary lines of vitest output.
pub open spec fn vitest_spec(output: Seq<char>) -> Seq<char> {
    or_original(lines(output).fold_left(scan_init(), |st: ScanState, l: Seq<char>| vitest_step(st, l)).out, output)
}

/// Extract failure blocks and the summary from test-runner output.
pub open spec fn test_failures_spec(output: Seq<char>, runner: Seq<char>) -> Seq<char> {
    if runner == "pytest"@ {
        pytest_spec(output)
    } else if runner == "jest"@ {
        jest_spec(output)
    } else if runner == "vitest"@ {
        vitest_spec(output)
    } else {
        output
    }
}

fn filter_pytest(output: &str) -> (r: String)
    ensures
        r@ == pytest_spec(output@),
{
    let ls = output_lines(output);
    let ghost lv = views(ls@);
    let ghost f = |st: ScanState, l: Seq<char>| pytest_step(st, l);
    let mut out = no_lines();
    let mut in_failure = false;
    let mut n: usize = 0;
    let mut i: usize = 0;
    while i < ls.len()
        invariant
            i <= ls.len(),
            lv == views(ls@),
            f == (|st: ScanState, l: Seq<char>| pytest_step(st, l)),
            n <= 11,
            lv.take(i as int).fold_left(scan_init(), f) == (ScanState {
                out: views(out@),
                in_failure,
                n: n as nat,
            }),
        decreases ls.len() - i,
    {
        proof {
            lemma_fold_take(lv, scan_init(), f, i as int);
        }
        assert(lv[i as int] == ls@[i as int]@);
        let line = &ls[i];
        let t = trim_of(line.as_slice());
        let ts = t.as_slice();
        if starts_lit(ts, "FAILED ") || starts_lit(ts, "ERROR ") {
            push_line(&mut out, line.clone());
        } else if starts_lit(ts, "____") && ends_lit(ts, "____") {
            in_failure = true;
            n = 0;
            push_line(&mut out, line.clone());
        } else if in_failure {
            if n < 10 {
                push_line(&mut out, line.clone());
                n += 1;
            } else if n == 10 {
                push_lit_line(&mut out, "[... truncated ...]");
                n += 1;
            }
            if starts_lit(ts, "====") {
                in_failure = false;
            }
        } else if (contains_lit(ts, " failed") || contains_lit(ts, " passed") || contains_lit(
            ts,
            " error",
        )) && starts_lit(ts, "=") {
            push_line(&mut out, line.clone());
        }
        i += 1;
    }
    assert(lv.take(ls.len() as int) =~= lv);
    joined_or(&out, output)
}

fn filter_jest(output: &str) -> (r: String)
    ensures
        r@ == jest_spec(output@),
{
    let ls = output_lines(output);
    let ghost lv = views(ls@);
    let ghost f = |st: ScanState, l: Seq<char>| jest_step(st, l);
    let mut out = no_lines();
    let mut in_failure = false;
    let mut n: usize = 0;
    let mut i: usize = 0;
    while i < ls.len()
        invariant
            i <= ls.len(),
            lv == views(ls@),
            f == (|st: ScanState, l: Seq<char>| jest_step(st, l)),
            n <= 16,
            lv.take(i as int).fold_left(scan_init(), f) == (ScanState {
                out: views(out@),
                in_failure,
                n: n as nat,
            }),
        decreases ls.len() - i,
    {
        proof {
            lemma_fold_take(lv, scan_init(), f, i as int);
        }
        assert(lv[i as int] == ls@[i as int]@);
        let line = &ls[i];
        let t = trim_of(line.as_slice());
        let ts = t.as_slice();
        if starts_lit(ts, "FAIL ") {
            push_line(&mut out, line.clone());
            in_failure = false;
        } else if t.len() > 0 && t[0] == '\u{25cf}' {
            in_failure = true;
            n = 0;
            push_line(&mut out, line.clone());
        } else if in_failure {
            if n < 15 {
                push_line(&mut out, line.clone());
                n += 1;
            } else if n == 15 {
                push_lit_line(&mut out, "[... truncated ...]");
                n += 1;
            }
            if t.len() == 0 && n > 2 {
                in_failure = false;
            }
        } else if starts_lit(ts, "Tests:") || starts_lit(ts, "Test Suites:") || starts_lit(
            ts,
            "Time:",
        ) {
            push_line(&mut out, line.clone());
        }
        i += 1;
    }
    assert(lv.take(ls.len() as int) =~= lv);
    joined_or(&out, output)
}

fn filter_vitest(output: &str) -> (r: String)
    ensures
        r@ == vitest_spec(output@),
{
    let ls = output_lines(output);
    let ghost lv = views(ls@);
    let ghost f = |st: ScanState, l: Seq<char>| vitest_step(st, l);
    let mut out = no_lines();
    let mut in_failure = false;
    let mut n: usize = 0;
    let mut i: usize = 0;
    while i < ls.len()
        invariant
            i <= ls.len(),
            lv == views(ls@),
            f == (|st: ScanState, l: Seq<char>| vitest_step(st, l)),
            n <= 5,
            lv.take(i as int).fold_left(scan_init(), f) == (ScanState {
                out: views(out@),
                in_failure,
                n: n as nat,
            }),
        decreases ls.len() - i,
    {
        proof {
            lemma_fold_take(lv, scan_init(), f, i as int);
        }
        assert(lv[i as int] == ls@[i as int]@);
        let line = &ls[i];
        let t = trim_of(line.as_slice());
        let ts = t.as_slice();
        if starts_lit(ts, "FAIL") && has_char(ts, ' ') {
            push_line(&mut out, line.clone());
            in_failure = false;
        } else if starts_lit(ts, "\u{d7} ") || starts_lit(ts, "\u{2717} ") {
            in_failure = true;
            n = 0;
            push_line(&mut out, line.clone());
        } else if in_failure {
            if n < 5 {
                push_line(&mut out, line.clone());
                n += 1;
            }
            if t.len() == 0 && n > 1 {
                in_failure = false;
            }
        } else if starts_lit(ts, "Tests") && (contains_lit(ts, "failed") || contains_lit(
            ts,
            "passed",
        )) {
            push_line(&mut out, line.clone());
        }
        i += 1;
    }
    assert(lv.take(ls.len() as int) =~= lv);
    joined_or(&out, output)
}

/// Extract failure blocks and the summary from test-runner output;
/// `runner` is `"pytest"`, `"jest"` or `"vitest"`; any other runner's output
/// comes back unchanged.
pub fn test_failures(output: &str, runner: &str) -> (r: String)
    ensures
        r@ == test_failures_spec(output@, runner@),
{
    let rv = chars_of(runner);
    if eq_lit(rv.as_slice(), "pytest") {
        filter_pytest(output)
    } else if eq_lit(rv.as_slice(), "jest") {
        filter_jest(output)
    } else if eq_lit(rv.as_slice(), "vitest") {
        filter_vitest(output)
    } else {
        output.to_owned()
    }
}

} // verus!
