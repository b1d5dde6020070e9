//! `cargo`: compiler messages of JSON builds, and the failures and summary
//! of test runs.
use vstd::prelude::*;
use super::pip::{lemma_strip_prefixes_len, strip_prefixes};
use super::util::{joined, joined_or, line_at, no_lines, or_original, output_lines, push_line, push_lit_line};
use super::{
    any_arg_starts, arg, arg_chars, clone_args, has_arg_prefix, lemma_arg_at, lemma_args_extend,
    lemma_same_args, lemma_strs_extend, strs, Handler,
};
use crate::json::{
    Json, array_of, as_array, as_bool, as_str, bool_of, field_str, field_u64, get, get_field,
    json_parse, parse_json, str_of, str_or, u64_or_zero,
};
use crate::text::{
    blank, chars_of, decimal, ends_lit, ends_with, eq_lit, is_blank, join, lemma_filter_take,
    lines, push_all, push_decimal, push_decimal_u64, push_str, slice, starts_lit, starts_with,
    string_of, trim, trim_of, trim_start, trim_start_of, views,
};

verus! {

pub struct CargoHandler;

/// Errors, warnings, and the outcome of the build when reported.
pub struct BuildState {
    pub errors: Seq<Seq<char>>,
    pub warnings: Seq<Seq<char>>,
    pub success: Option<bool>,
}

pub open spec fn build_init() -> BuildState {
    BuildState { errors: seq![], warnings: seq![], success: None }
}

/// ` [file:line]` for the first span of a message, or nothing.
pub open spec fn span_text(msg: Json) -> Seq<char> {
    match as_array(get(msg, "spans"@)) {
        Some(spans) => if spans.len() > 0 {
            " ["@ + str_or(spans[0], "file_name"@, ""@) + ":"@ + decimal(
                u64_or_zero(spans[0], "line_start"@) as nat,
            ) + "]"@
        } else {
            seq![]
        },
        None => seq![],
    }
}

/// One line of build output with what parsing its trimmed text as JSON
/// gave.
pub open spec fn build_step(st: BuildState, line: Seq<char>, parsed: Option<Json>) -> BuildState {
    let t = trim(line);
    if t.len() == 0 {
        st
    } else {
        match parsed {
            Some(v) => {
                let reason = as_str(get(v, "reason"@));
                if reason == Some("compiler-message"@) {
                    match get(v, "message"@) {
                        Some(msg) => {
                            let level = str_or(msg, "level"@, ""@);
                            let text = str_or(msg, "message"@, ""@) + span_text(msg);
                            if level == "error"@ || level == "error[E]"@ {
                                BuildState { errors: st.errors.push("error: "@ + text), ..st }
                            } else if level == "warning"@ {
                                BuildState { warnings: st.warnings.push("warning: "@ + text), ..st }
                            } else {
                                st
                            }
                        },
                        None => st,
                    }
                } else if reason == Some("build-finished"@) {
                    BuildState { success: as_bool(get(v, "success"@)), ..st }
                } else {
                    st
                }
            },
            None => if starts_with(t, "error"@) {
                BuildState { errors: st.errors.push(t), ..st }
            } else if starts_with(t, "warning"@) {
                BuildState { warnings: st.warnings.push(t), ..st }
            } else {
                st
            },
        }
    }
}

/// The state after the first `n` lines.
pub open spec fn build_state(ls: Seq<Seq<char>>, parsed: Seq<Option<Json>>, n: nat) -> BuildState
    decreases n,
{
    if n == 0 {
        build_init()
    } else {
        build_step(build_state(ls, parsed, (n - 1) as nat), ls[n - 1], parsed[n - 1])
    }
}

/// The number of warnings, the first three indented, and a count of the
/// rest; nothing without warnings.
pub open spec fn warning_lines(w: Seq<Seq<char>>) -> Seq<Seq<char>> {
    if w.len() > 0 {
        seq!["["@ + decimal(w.len()) + " warnings]"@] + w.take(if w.len() < 3 {
            w.len() as int
        } else {
            3
        }).map_values(|x: Seq<char>| "  "@ + x) + if w.len() > 3 {
            seq!["  [+"@ + decimal((w.len() - 3) as nat) + " more warnings]"@]
        } else {
            seq![]
        }
    } else {
        seq![]
    }
}

/// The errors, then the number of warnings with the first three, then the
/// outcome when nothing else says it.
pub open spec fn build_report_lines(output: Seq<char>, parsed: Seq<Option<Json>>) -> Seq<Seq<char>> {
    let ls = lines(output);
    let st = build_state(ls, parsed, ls.len());
    let out = st.errors + warning_lines(st.warnings);
    match st.success {
        Some(true) => if out.len() == 0 {
            out.push("Build OK"@)
        } else {
            out
        },
        Some(false) => if st.errors.len() == 0 {
            out.push("Build FAILED"@)
        } else {
            out
        },
        None => out,
    }
}

/// The report lines joined; the output itself when there are none.
pub open spec fn build_report(output: Seq<char>, parsed: Seq<Option<Json>>) -> Seq<char> {
    or_original(build_report_lines(output, parsed), output)
}

/// The error a line of build output reports, if any: a compiler message of
/// level `error`, or a plain line starting with `error`.
pub open spec fn reported_error(line: Seq<char>, parsed: Option<Json>) -> Option<Seq<char>> {
    let t = trim(line);
    if t.len() == 0 {
        None
    } else {
        match parsed {
            Some(v) => if as_str(get(v, "reason"@)) == Some("compiler-message"@) {
                match get(v, "message"@) {
                    Some(msg) => {
                        let level = str_or(msg, "level"@, ""@);
                        let text = str_or(msg, "message"@, ""@) + span_text(msg);
                        if level == "error"@ || level == "error[E]"@ {
                            Some("error: "@ + text)
                        } else {
                            None
                        }
                    },
                    None => None,
                }
            } else {
                None
            },
            None => if starts_with(t, "error"@) {
                Some(t)
            } else {
                None
            },
        }
    }
}

proof fn lemma_errors_collected(ls: Seq<Seq<char>>, parsed: Seq<Option<Json>>, n: nat, i: int)
    requires
        0 <= i < n,
        reported_error(ls[i], parsed[i]) is Some,
    ensures
        build_state(ls, parsed, n).errors.contains(reported_error(ls[i], parsed[i])->0),
    decreases n,
{
    let prev = build_state(ls, parsed, (n - 1) as nat);
    let e = reported_error(ls[i], parsed[i])->0;
    if i < n - 1 {
        lemma_errors_collected(ls, parsed, (n - 1) as nat, i);
        let k = choose|k: int| 0 <= k < prev.errors.len() && prev.errors[k] == e;
        let cur = build_state(ls, parsed, n);
        assert(cur.errors == prev.errors || cur.errors == prev.errors.push(
            cur.errors.last(),
        ));
        assert(cur.errors[k] == e);
    } else {
        let cur = build_state(ls, parsed, n);
        assert(cur.errors == prev.errors.push(e));
        assert(cur.errors[prev.errors.len() as int] == e);
    }
}

/// Every error the build output reports is a line of the build report:
/// errors are never dropped.
pub proof fn lemma_errors_kept(output: Seq<char>, parsed: Seq<Option<Json>>, i: int)
    requires
        0 <= i < lines(output).len(),
        parsed.len() == lines(output).len(),
        reported_error(lines(output)[i], parsed[i]) is Some,
    ensures
        build_report_lines(output, parsed).contains(reported_error(lines(output)[i], parsed[i])->0),
{
    let ls = lines(output);
    let st = build_state(ls, parsed, ls.len());
    let e = reported_error(ls[i], parsed[i])->0;
    lemma_errors_collected(ls, parsed, ls.len(), i);
    let k = choose|k: int| 0 <= k < st.errors.len() && st.errors[k] == e;
    let out = st.errors + warning_lines(st.warnings);
    assert(out[k] == e);
    let r = build_report_lines(output, parsed);
    assert(r[k] == e);
}

/// What parsing each trimmed line as JSON gives.
pub open spec fn parsed_lines(output: Seq<char>) -> Seq<Option<Json>> {
    lines(output).map_values(|l: Seq<char>| json_parse(trim(l)))
}

/// `s` with every trailing repetition of `p` removed (`trim_end_matches`).
pub open spec fn strip_suffixes(s: Seq<char>, p: Seq<char>) -> Seq<char>
    decreases s.len(),
{
    if p.len() > 0 && ends_with(s, p) {
        strip_suffixes(s.take(s.len() - p.len()), p)
    } else {
        s
    }
}

/// The test name of a `test name ... FAILED` line.
pub open spec fn failed_name(line: Seq<char>) -> Seq<char> {
    strip_suffixes(strip_prefixes(trim_start(line), "test "@), " ... FAILED"@)
}

pub open spec fn is_failed_test(line: Seq<char>) -> bool {
    starts_with(trim_start(line), "test "@) && ends_with(line, "FAILED"@)
}

/// Failed test names, the last summary line, whether the failure details
/// have started, and the detail lines.
pub struct TestState {
    pub names: Seq<Seq<char>>,
    pub summary: Option<Seq<char>>,
    pub in_detail: bool,
    pub detail: Seq<Seq<char>>,
}

pub open spec fn test_step(st: TestState, line: Seq<char>) -> TestState {
    let names = if is_failed_test(line) {
        st.names.push(failed_name(line))
    } else {
        st.names
    };
    let summary = if starts_with(line, "test result:"@) {
        Some(line)
    } else {
        st.summary
    };
    let in_detail = st.in_detail || starts_with(line, "failures:"@);
    let detail = if in_detail {
        st.detail.push(line)
    } else {
        st.detail
    };
    TestState { names, summary, in_detail, detail }
}

pub open spec fn detail_keep(l: Seq<char>) -> bool {
    trim(l).len() > 0 && !starts_with(l, "failures:"@) && !starts_with(l, "test result:"@)
}

/// An empty line and the first 20 detail lines that are neither blank
/// nor headers; nothing without details.
pub open spec fn detail_lines(detail: Seq<Seq<char>>) -> Seq<Seq<char>> {
    let kept = detail.filter(|l: Seq<char>| detail_keep(l));
    if detail.len() > 0 {
        seq![seq![]] + kept.take(if kept.len() < 20 {
            kept.len() as int
        } else {
            20
        })
    } else {
        seq![]
    }
}

/// With no failed test, the summary line (or the output); otherwise each
/// failed test, the first 20 detail lines after an empty line, and the
/// summary.
pub open spec fn test_report(output: Seq<char>) -> Seq<char> {
    let st = lines(output).fold_left(
        TestState { names: seq![], summary: None, in_detail: false, detail: seq![] },
        |st: TestState, l: Seq<char>| test_step(st, l),
    );
    if st.names.len() == 0 {
        match st.summary {
            Some(s) => s,
            None => output,
        }
    } else {
        let details = detail_lines(st.detail);
        let tail = match st.summary {
            Some(s) => seq![s],
            None => seq![],
        };
        join(
            st.names.map_values(|n: Seq<char>| "FAILED: "@ + n) + details + tail,
            seq!['\n'],
        )
    }
}

/// The test scan after the given lines.
pub open spec fn test_fold(ls: Seq<Seq<char>>) -> TestState {
    ls.fold_left(
        TestState { names: seq![], summary: None, in_detail: false, detail: seq![] },
        |st: TestState, l: Seq<char>| test_step(st, l),
    )
}

/// What follows the failed tests in a test report: the detail lines and
/// the summary line.
pub open spec fn test_tail(output: Seq<char>) -> Seq<Seq<char>> {
    let st = test_fold(lines(output));
    detail_lines(st.detail) + match st.summary {
        Some(s) => seq![s],
        None => seq![],
    }
}

proof fn lemma_test_fold_names(ls: Seq<Seq<char>>)
    ensures
        test_fold(ls).names == ls.filter(|l: Seq<char>| is_failed_test(l)).map_values(
            |l: Seq<char>| failed_name(l),
        ),
    decreases ls.len(),
{
    let p = |l: Seq<char>| is_failed_test(l);
    let g = |l: Seq<char>| failed_name(l);
    if ls.len() == 0 {
        assert(ls.filter(p) =~= Seq::<Seq<char>>::empty()) by {
            reveal(Seq::filter);
        }
        assert(ls.filter(p).map_values(g) =~= Seq::<Seq<char>>::empty());
    } else {
        let d = ls.drop_last();
        lemma_test_fold_names(d);
        assert(d.push(ls.last()) =~= ls);
        d.lemma_filter_push(ls.last(), p);
        if p(ls.last()) {
            assert(d.filter(p).push(ls.last()).map_values(g) =~= d.filter(p).map_values(g).push(
                g(ls.last()),
            ));
        }
    }
}

/// Every failed test is listed: the report of a run with failed tests
/// starts with one `FAILED: name` line for each `test name ... FAILED` line
/// of the output, in input order, followed by the details and the summary.
pub proof fn lemma_every_failed_test_listed(output: Seq<char>)
    requires
        lines(output).filter(|l: Seq<char>| is_failed_test(l)).len() > 0,
    ensures
        test_report(output) == join(
            lines(output).filter(|l: Seq<char>| is_failed_test(l)).map_values(
                |l: Seq<char>| "FAILED: "@ + failed_name(l),
            ) + test_tail(output),
            seq!['\n'],
        ),
{
    let ls = lines(output);
    let f = ls.filter(|l: Seq<char>| is_failed_test(l));
    lemma_test_fold_names(ls);
    let names = test_fold(ls).names;
    assert(names.len() == f.len());
    let fl = f.map_values(|l: Seq<char>| "FAILED: "@ + failed_name(l));
    assert(names.map_values(|n: Seq<char>| "FAILED: "@ + n) =~= fl);
    let st = test_fold(ls);
    let details = detail_lines(st.detail);
    let tail = match st.summary {
        Some(s) => seq![s],
        None => seq![],
    };
    assert(fl + details + tail =~= fl + (details + tail));
}

/// The last line that starts with `p`.
pub open spec fn last_starting(ls: Seq<Seq<char>>, p: Seq<char>) -> Option<Seq<char>>
    decreases ls.len(),
{
    if ls.len() == 0 {
        None
    } else if starts_with(ls.last(), p) {
        Some(ls.last())
    } else {
        last_starting(ls.drop_last(), p)
    }
}

proof fn lemma_test_fold_summary(ls: Seq<Seq<char>>)
    ensures
        test_fold(ls).summary == last_starting(ls, "test result:"@),
    decreases ls.len(),
{
    if ls.len() > 0 {
        lemma_test_fold_summary(ls.drop_last());
    }
}

/// A run without failed tests is reported by its last `test result:` line,
/// or left as it is when there is none.
pub proof fn lemma_passing_run_summary(output: Seq<char>)
    requires
        lines(output).filter(|l: Seq<char>| is_failed_test(l)).len() == 0,
    ensures
        test_report(output) == match last_starting(lines(output), "test result:"@) {
            Some(s) => s,
            None => output,
        },
{
    lemma_test_fold_names(lines(output));
    lemma_test_fold_summary(lines(output));
}

pub open spec fn cargo_filter_spec(output: Seq<char>, args: Seq<String>) -> Seq<char> {
    let sub = arg(args, 1);
    if sub == "build"@ || sub == "check"@ || sub == "clippy"@ {
        build_report(output, parsed_lines(output))
    } else if sub == "test"@ || sub == "nextest"@ {
        test_report(output)
    } else {
        output
    }
}

fn message_text(msg: &Json) -> (r: Vec<char>)
    ensures
        r@ == str_or(*msg, "message"@, ""@) + span_text(*msg),
{
    let text = field_str(msg, "message", "");
    let mut r: Vec<char> = Vec::new();
    push_str(&mut r, text.as_str());
    match array_of(get_field(msg, "spans")) {
        Some(spans) => {
            if spans.len() > 0 {
                let span = &spans[0];
                let file = field_str(span, "file_name", "");
                let n = field_u64(span, "line_start");
                push_str(&mut r, " [");
                push_str(&mut r, file.as_str());
                push_str(&mut r, ":");
                push_decimal_u64(&mut r, n);
                push_str(&mut r, "]");
            }
        },
        None => {},
    }
    r
}

fn prefixed(p: &str, s: &[char]) -> (r: Vec<char>)
    ensures
        r@ == p@ + s@,
{
    let mut r: Vec<char> = Vec::new();
    push_str(&mut r, p);
    push_all(&mut r, s);
    r
}

/// The build report for an output whose lines' JSON parses are given, one
/// entry per line.
pub fn summarize_build(output: &str, parsed: &Vec<Option<Json>>) -> (r: String)
    requires
        parsed@.len() == lines(output@).len(),
    ensures
        r@ == build_report(output@, parsed@),
{
    let ls = output_lines(output);
    let ghost lv = views(ls@);
    let mut errors = no_lines();
    let mut warnings = no_lines();
    let mut success: Option<bool> = None;
    let mut i: usize = 0;
    while i < ls.len()
        invariant
            i <= ls.len(),
            lv == views(ls@),
            parsed@.len() == lv.len(),
            build_state(lv, parsed@, i as nat) == (BuildState {
                errors: views(errors@),
                warnings: views(warnings@),
                success,
            }),
        decreases ls.len() - i,
    {
        assert(lv[i as int] == ls@[i as int]@);
        let t = trim_of(ls[i].as_slice());
        if t.len() > 0 {
            match &parsed[i] {
                Some(v) => {
                    let reason = str_of(get_field(v, "reason"));
                    let (cm, bf) = match reason {
                        Some(r) => {
                            let rv = chars_of(r);
                            (eq_lit(rv.as_slice(), "compiler-message"), eq_lit(
                                rv.as_slice(),
                                "build-finished",
                            ))
                        },
                        None => (false, false),
                    };
                    if cm {
                        match get_field(v, "message") {
                            Some(msg) => {
                                let level = field_str(msg, "level", "");
                                let lvl = chars_of(level.as_str());
                                let text = message_text(msg);
                                if eq_lit(lvl.as_slice(), "error") || eq_lit(lvl.as_slice(), "error[E]") {
                                    push_line(&mut errors, prefixed("error: ", text.as_slice()));
                                } else if eq_lit(lvl.as_slice(), "warning") {
                                    push_line(&mut warnings, prefixed("warning: ", text.as_slice()));
                                }
                            },
                            None => {},
                        }
                    } else if bf {
                        success = bool_of(get_field(v, "success"));
                    }
                },
                None => {
                    if starts_lit(t.as_slice(), "error") {
                        push_line(&mut errors, t);
                    } else if starts_lit(t.as_slice(), "warning") {
                        push_line(&mut warnings, t);
                    }
                },
            }
        }
        i += 1;
    }
    let ghost w = views(warnings@);
    assert(w.len() == warnings.len());
    assert(lv.len() == ls.len());
    let mut out = no_lines();
    let ghost ev = views(errors@);
    let mut k: usize = 0;
    while k < errors.len()
        invariant
            k <= errors.len(),
            ev == views(errors@),
            views(out@) == ev.take(k as int),
        decreases errors.len() - k,
    {
        push_line(&mut out, line_at(&errors, k));
        assert(views(out@) =~= ev.take(k + 1));
        k += 1;
    }
    assert(ev.take(errors.len() as int) =~= ev);
    if warnings.len() > 0 {
        let mut h: Vec<char> = Vec::new();
        push_str(&mut h, "[");
        push_decimal(&mut h, warnings.len());
        push_str(&mut h, " warnings]");
        push_line(&mut out, h);
        let ghost base = views(out@);
        let ghost ind = |x: Seq<char>| "  "@ + x;
        let n = if warnings.len() < 3 {
            warnings.len()
        } else {
            3
        };
        let mut q: usize = 0;
        while q < n
            invariant
                q <= n <= warnings.len(),
                w == views(warnings@),
                ind == (|x: Seq<char>| "  "@ + x),
                views(out@) == base + w.take(q as int).map_values(ind),
            decreases n - q,
        {
            push_line(&mut out, prefixed("  ", warnings[q].as_slice()));
            assert(w[q as int] == warnings@[q as int]@);
            assert(views(out@) =~= base + w.take(q + 1).map_values(ind));
            q += 1;
        }
        if warnings.len() > 3 {
            let mut m: Vec<char> = Vec::new();
            push_str(&mut m, "  [+");
            push_decimal(&mut m, warnings.len() - 3);
            push_str(&mut m, " more warnings]");
            push_line(&mut out, m);
        }
        assert(views(out@) =~= ev + warning_lines(w));
    } else {
        assert(views(out@) =~= ev + warning_lines(w));
    }
    assert(views(errors@).len() == errors.len());
    match success {
        Some(true) => {
            if out.len() == 0 {
                push_lit_line(&mut out, "Build OK");
            }
        },
        Some(false) => {
            if errors.len() == 0 {
                push_lit_line(&mut out, "Build FAILED");
            }
        },
        None => {},
    }
    joined_or(&out, output)
}

fn parse_lines(output: &str) -> (r: Vec<Option<Json>>)
    ensures
        r@ == parsed_lines(output@),
{
    let ls = output_lines(output);
    let ghost lv = views(ls@);
    let ghost pf = |l: Seq<char>| json_parse(trim(l));
    let mut r: Vec<Option<Json>> = Vec::new();
    let mut i: usize = 0;
    while i < ls.len()
        invariant
            i <= ls.len(),
            lv == views(ls@),
            pf == (|l: Seq<char>| json_parse(trim(l))),
            r@ == lv.take(i as int).map_values(pf),
        decreases ls.len() - i,
    {
        assert(lv[i as int] == ls@[i as int]@);
        let t = trim_of(ls[i].as_slice());
        let ts = string_of(t.as_slice());
        let p = parse_json(ts.as_str());
        r.push(p);
        assert(r@ =~= lv.take(i + 1).map_values(pf));
        i += 1;
    }
    assert(lv.take(ls.len() as int) =~= lv);
    r
}

/// The build report of a `--message-format json` output.
fn filter_build(output: &str) -> (r: String)
    ensures
        r@ == build_report(output@, parsed_lines(output@)),
{
    let parsed = parse_lines(output);
    summarize_build(output, &parsed)
}

fn strip_test_name(line: &[char]) -> (r: Vec<char>)
    ensures
        r@ == failed_name(line@),
{
    let mut cur = trim_start_of(line);
    let p = "test ";
    proof {
        reveal_strlit("test ");
        reveal_strlit(" ... FAILED");
    }
    let pl = chars_of(p).len();
    while starts_lit(cur.as_slice(), p)
        invariant
            pl == p@.len(),
            pl > 0,
            strip_prefixes(cur@, p@) == strip_prefixes(trim_start(line@), p@),
        decreases cur@.len(),
    {
        cur = slice(cur.as_slice(), pl, cur.len());
    }
    let s = " ... FAILED";
    let sl = chars_of(s).len();
    let ghost start = cur@;
    while ends_lit(cur.as_slice(), s)
        invariant
            sl == s@.len(),
            sl > 0,
            strip_suffixes(cur@, s@) == strip_suffixes(start, s@),
        decreases cur@.len(),
    {
        cur = slice(cur.as_slice(), 0, cur.len() - sl);
    }
    cur
}

fn filter_test(output: &str) -> (r: String)
    ensures
        r@ == test_report(output@),
{
    let ls = output_lines(output);
    let ghost lv = views(ls@);
    let ghost f = |st: TestState, l: Seq<char>| test_step(st, l);
    let ghost init = TestState { names: seq![], summary: None, in_detail: false, detail: seq![] };
    let mut names = no_lines();
    let mut summary: Option<Vec<char>> = None;
    let mut in_detail = false;
    let mut detail = no_lines();
    let mut i: usize = 0;
    while i < ls.len()
        invariant
            i <= ls.len(),
            lv == views(ls@),
            f == (|st: TestState, l: Seq<char>| test_step(st, l)),
            init == (TestState { names: seq![], summary: None, in_detail: false, detail: seq![] }),
            lv.take(i as int).fold_left(init, f) == (TestState {
                names: views(names@),
                summary: super::eslint::opt_view(summary),
                in_detail,
                detail: views(detail@),
            }),
        decreases ls.len() - i,
    {
        proof {
            crate::text::lemma_fold_take(lv, init, f, i as int);
        }
        assert(lv[i as int] == ls@[i as int]@);
        let line = ls[i].as_slice();
        let ts = trim_start_of(line);
        if starts_lit(ts.as_slice(), "test ") && ends_lit(line, "FAILED") {
            push_line(&mut names, strip_test_name(line));
        }
        if starts_lit(line, "test result:") {
            summary = Some(line_at(&ls, i));
        }
        if starts_lit(line, "failures:") {
            in_detail = true;
        }
        if in_detail {
            push_line(&mut detail, line_at(&ls, i));
        }
        i += 1;
    }
    assert(lv.take(ls.len() as int) =~= lv);
    assert(views(names@).len() == names.len());
    if names.len() == 0 {
        return match summary {
            Some(s) => string_of(s.as_slice()),
            None => output.to_owned(),
        };
    }
    let ghost nv = views(names@);
    let ghost fm = |n: Seq<char>| "FAILED: "@ + n;
    let mut out = no_lines();
    let mut k: usize = 0;
    while k < names.len()
        invariant
            k <= names.len(),
            nv == views(names@),
            fm == (|n: Seq<char>| "FAILED: "@ + n),
            views(out@) == nv.take(k as int).map_values(fm),
        decreases names.len() - k,
    {
        assert(nv[k as int] == names@[k as int]@);
        push_line(&mut out, prefixed("FAILED: ", names[k].as_slice()));
        assert(views(out@) =~= nv.take(k + 1).map_values(fm));
        k += 1;
    }
    assert(nv.take(names.len() as int) =~= nv);
    let ghost head = views(out@);
    let ghost dv = views(detail@);
    assert(dv.len() == detail.len());
    if detail.len() > 0 {
        let ghost p = |l: Seq<char>| detail_keep(l);
        let mut kept = no_lines();
        let mut j: usize = 0;
        while j < detail.len()
            invariant
                j <= detail.len(),
                dv == views(detail@),
                p == (|l: Seq<char>| detail_keep(l)),
                views(kept@) == dv.take(j as int).filter(p),
            decreases detail.len() - j,
        {
            proof {
                lemma_filter_take(dv, p, j as int);
            }
            assert(dv[j as int] == detail@[j as int]@);
            let l = detail[j].as_slice();
            let t = trim_of(l);
            if t.len() > 0 && !starts_lit(l, "failures:") && !starts_lit(l, "test result:") {
                push_line(&mut kept, line_at(&detail, j));
            }
            j += 1;
        }
        assert(dv.take(detail.len() as int) =~= dv);
        let ghost kv = views(kept@);
        assert(kv.len() == kept.len());
        push_line(&mut out, Vec::new());
        let ghost base = views(out@);
        let n = if kept.len() < 20 {
            kept.len()
        } else {
            20
        };
        let mut q: usize = 0;
        while q < n
            invariant
                q <= n <= kept.len(),
                kv == views(kept@),
                views(out@) == base + kv.take(q as int),
            decreases n - q,
        {
            push_line(&mut out, line_at(&kept, q));
            assert(views(out@) =~= base + kv.take(q + 1));
            q += 1;
        }
        assert(views(out@) =~= head + detail_lines(dv));
    } else {
        assert(views(out@) =~= head + detail_lines(dv));
    }
    let ghost before_tail = views(out@);
    match summary {
        Some(s) => push_line(&mut out, s),
        None => {},
    }
    assert(views(out@) =~= before_tail + match super::eslint::opt_view(summary) {
        Some(s) => seq![s],
        None => Seq::<Seq<char>>::empty(),
    });
    joined(&out)
}

/// `build`, `check` and `clippy` get `--message-format json` unless a
/// message format is given.
pub open spec fn cargo_args(args: Seq<String>) -> Seq<Seq<char>> {
    let sub = arg(args, 1);
    if (sub == "build"@ || sub == "check"@ || sub == "clippy"@) && !has_arg_prefix(
        args,
        "--message-format"@,
    ) {
        strs(args).push("--message-format"@).push("json"@)
    } else {
        strs(args)
    }
}

/// Rewriting the arguments a second time changes nothing.
pub proof fn lemma_cargo_args_once(args: Seq<String>, r: Seq<String>)
    requires
        strs(r) == cargo_args(args),
    ensures
        cargo_args(r) == strs(r),
{
    let sub = arg(args, 1);
    if (sub == "build"@ || sub == "check"@ || sub == "clippy"@) && !has_arg_prefix(
        args,
        "--message-format"@,
    ) {
        assert(cargo_args(args) =~= strs(args) + seq!["--message-format"@, "json"@]);
        lemma_strs_extend(args, r, seq!["--message-format"@, "json"@]);
        assert(r[args.len() as int + 0]@ == "--message-format"@);
        lemma_arg_at(r, args.len() as int);
        assert(starts_with("--message-format"@, "--message-format"@)) by {
            assert("--message-format"@.subrange(0, "--message-format"@.len() as int) =~= "--message-format"@);
        }
    } else {
        lemma_same_args(r, args, "--message-format"@);
        assert(r.len() == strs(r).len() && args.len() == strs(args).len());
        if 1 < args.len() {
            assert(strs(r)[1] == r[1]@ && strs(args)[1] == args[1]@);
        }
    }
}

impl Handler for CargoHandler {
    /// `build`, `check` and `clippy` get `--message-format json` unless a
    /// message format is given.
    fn rewrite_args(&self, args: &[String]) -> (r: Vec<String>)
        ensures
            strs(r@) == cargo_args(args@),
    {
        let sub = arg_chars(args, 1);
        let s = sub.as_slice();
        let mut out = clone_args(args);
        if (eq_lit(s, "build") || eq_lit(s, "check") || eq_lit(s, "clippy")) && !any_arg_starts(
            args,
            "--message-format",
        ) {
            out.push("--message-format".to_owned());
            out.push("json".to_owned());
            assert(strs(out@) =~= strs(args@).push("--message-format"@).push("json"@));
        }
        out
    }

    fn filter(&self, output: &str, args: &[String]) -> (r: String)
        ensures
            r@ == cargo_filter_spec(output@, args@),
    {
        let sub = arg_chars(args, 1);
        let s = sub.as_slice();
        if eq_lit(s, "build") || eq_lit(s, "check") || eq_lit(s, "clippy") {
            filter_build(output)
        } else if eq_lit(s, "test") || eq_lit(s, "nextest") {
            filter_test(output)
        } else {
            output.to_owned()
        }
    }
}

} // verus!
