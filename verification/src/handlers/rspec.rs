//! `rspec`: the JSON report reduced to the failing examples and a summary,
//! or the text report to its failure blocks and summary.
use vstd::prelude::*;
use super::util::{joined, joined_or, line_at, no_lines, or_original, output_lines, push_line, push_lit_line};
use super::{clone_args, has_arg, strs, any_arg_is, lemma_arg_at, lemma_args_extend, lemma_same_args, lemma_strs_extend, Handler};
use super::ls::last_index_of;
use crate::json::{
    Json, as_array, as_str, field_str, field_u64, get, get_field, array_of, json_parse,
    parse_json, str_of, str_or, u64_or_zero,
};
use crate::text::{
    chars_of, contains, contains_lit, decimal, join, lemma_fold_take, lines, lines_of, push_all,
    push_decimal_u64, push_str, slice, starts_lit, starts_with, string_of, trim, trim_of, views,
};

verus! {

pub struct RspecHandler;

/// `--format json` is added when neither `--format` nor `-f` is given.
pub open spec fn format_json_args(args: Seq<String>) -> Seq<Seq<char>> {
    if !has_arg(args, "--format"@) && !has_arg(args, "-f"@) {
        strs(args).push("--format"@).push("json"@)
    } else {
        strs(args)
    }
}

/// What reading a JSON number's text with `serde_json` as a
/// `serde_json::Number`, taking `as_f64` and writing it with `{:.2}` gives:
/// the number rounded to two decimals, `None` when the text is no JSON
/// number.
pub uninterp spec fn two_places(text: Seq<char>) -> Option<Seq<char>>;

/// Reads a JSON number's text with `serde_json::from_str::<Number>`, takes
/// `Number::as_f64` and writes it with two decimals (`format!("{:.2}", ..)`).
/// Claims only that the result is `two_places(text)`.
#[verifier::external_body]
fn format_two_places(text: &str) -> (r: Option<String>)
    ensures
        match r {
            Some(s) => two_places(text@) == Some(s@),
            None => two_places(text@) is None,
        },
{
    serde_json::from_str::<serde_json::Number>(text).ok().and_then(|n| n.as_f64()).map(|x| format!("{:.2}", x))
}

/// The duration written with two decimals, `0.00` when there is none.
pub open spec fn duration_text(summary: Json) -> Seq<char> {
    match get(summary, "duration"@) {
        Some(Json::Number(n)) => match two_places(n.text@) {
            Some(t) => t,
            None => "0.00"@,
        },
        _ => "0.00"@,
    }
}

/// Up to five lines of an exception message, indented, and a truncation
/// note when there are more.
pub open spec fn message_lines(msg: Seq<char>) -> Seq<Seq<char>> {
    let ls = lines(msg);
    let shown = ls.take(if ls.len() < 5 {
        ls.len() as int
    } else {
        5
    }).map_values(|l: Seq<char>| "  "@ + l);
    if ls.len() > 5 {
        shown.push("  [... truncated ...]"@)
    } else {
        shown
    }
}

/// The lines for one example: nothing unless it failed; then its
/// description, its exception message and its location.
pub open spec fn example_lines(ex: Json) -> Seq<Seq<char>> {
    if as_str(get(ex, "status"@)) != Some("failed"@) {
        seq![]
    } else {
        let head = seq!["FAIL: "@ + str_or(ex, "full_description"@, "?"@)];
        let msg = match get(ex, "exception"@) {
            Some(exc) => message_lines(str_or(exc, "message"@, ""@)),
            None => seq![],
        };
        let loc = str_or(ex, "location"@, ""@);
        head + msg + if loc.len() > 0 {
            seq!["  at "@ + loc]
        } else {
            seq![]
        }
    }
}

pub open spec fn failure_lines(exs: Seq<Json>) -> Seq<Seq<char>>
    decreases exs.len(),
{
    if exs.len() == 0 {
        seq![]
    } else {
        failure_lines(exs.drop_last()) + example_lines(exs.last())
    }
}

/// The report for a parsed JSON result: needs a `summary` and an
/// `examples` array.
pub open spec fn rspec_json_spec(v: Json) -> Option<Seq<char>> {
    match (get(v, "summary"@), as_array(get(v, "examples"@))) {
        (Some(summary), Some(exs)) => {
            let total = u64_or_zero(summary, "example_count"@);
            let failed = u64_or_zero(summary, "failure_count"@);
            let pending = u64_or_zero(summary, "pending_count"@);
            let dur = duration_text(summary);
            if failed == 0 {
                Some(
                    "["@ + decimal(total as nat) + " examples, 0 failures ("@ + dur + "s)]"@ + if pending
                        > 0 {
                        ", "@ + decimal(pending as nat) + " pending"@
                    } else {
                        seq![]
                    },
                )
            } else {
                Some(
                    join(
                        failure_lines(exs).push(
                            "["@ + decimal(total as nat) + " examples, "@ + decimal(failed as nat)
                                + " failures ("@ + dur + "s)]"@,
                        ),
                        seq!['\n'],
                    ),
                )
            }
        },
        _ => None,
    }
}

/// Scanning state of the text report.
pub struct RspecText {
    pub out: Seq<Seq<char>>,
    pub in_failure: bool,
    pub n: nat,
}

pub open spec fn rspec_text_step(st: RspecText, line: Seq<char>) -> RspecText {
    let t = trim(line);
    let starts = starts_with(t, "Failure/Error:"@) || (starts_with(t, "rspec "@) && contains(t, ":"@));
    let in_failure = if starts {
        true
    } else {
        st.in_failure
    };
    let n = if starts {
        0
    } else {
        st.n
    };
    if in_failure {
        let n2 = n + 1;
        RspecText {
            out: st.out.push(line),
            in_failure: !((t.len() == 0 && n2 > 2) || n2 >= 10),
            n: n2,
        }
    } else if contains(t, "example"@) && (contains(t, "failure"@) || contains(t, "pending"@)) {
        RspecText { out: st.out.push(line), in_failure, n }
    } else {
        RspecText { out: st.out, in_failure, n }
    }
}

/// Failure blocks and the summary line of the text report.
pub open spec fn rspec_text_spec(output: Seq<char>) -> Seq<char> {
    or_original(
        lines(output).fold_left(
            RspecText { out: seq![], in_failure: false, n: 0 },
            |st: RspecText, l: Seq<char>| rspec_text_step(st, l),
        ).out,
        output,
    )
}

/// The JSON report from the last `{` of the trimmed output when it parses
/// and has the expected shape, the text report otherwise.
pub open spec fn rspec_spec(output: Seq<char>) -> Seq<char> {
    let t = trim(output);
    let k = last_index_of(t, '{');
    if k >= 0 {
        match json_parse(t.skip(k)) {
            Some(v) => match rspec_json_spec(v) {
                Some(r) => r,
                None => rspec_text_spec(output),
            },
            None => rspec_text_spec(output),
        }
    } else {
        rspec_text_spec(output)
    }
}

fn message_part(msg: &str, out: &mut Vec<Vec<char>>)
    ensures
        views(final(out)@) == views(old(out)@) + message_lines(msg@),
{
    let v = chars_of(msg);
    let ls = lines_of(v.as_slice());
    let ghost lv = views(ls@);
    assert(lv.len() == ls.len());
    let n = if ls.len() < 5 {
        ls.len()
    } else {
        5
    };
    let ghost base = views(out@);
    let ghost ind = |l: Seq<char>| "  "@ + l;
    let mut i: usize = 0;
    while i < n
        invariant
            i <= n <= ls.len(),
            lv == views(ls@),
            ind == (|l: Seq<char>| "  "@ + l),
            views(out@) == base + lv.take(i as int).map_values(ind),
        decreases n - i,
    {
        let mut l: Vec<char> = Vec::new();
        push_str(&mut l, "  ");
        push_all(&mut l, ls[i].as_slice());
        assert(lv[i as int] == ls@[i as int]@);
        push_line(out, l);
        assert(views(out@) =~= base + lv.take(i + 1).map_values(ind));
        i += 1;
    }
    if ls.len() > 5 {
        push_lit_line(out, "  [... truncated ...]");
    }
    assert(views(out@) =~= base + message_lines(msg@));
}

fn example_part(ex: &Json, out: &mut Vec<Vec<char>>)
    ensures
        views(final(out)@) == views(old(out)@) + example_lines(*ex),
{
    let ghost base = views(out@);
    let status = str_of(get_field(ex, "status"));
    let failed = match status {
        Some(s) => {
            let sv = chars_of(s);
            crate::text::eq_lit(sv.as_slice(), "failed")
        },
        None => false,
    };
    if !failed {
        assert(views(out@) =~= base + example_lines(*ex));
        return;
    }
    let desc = field_str(ex, "full_description", "?");
    let loc = field_str(ex, "location", "");
    let mut head: Vec<char> = Vec::new();
    push_str(&mut head, "FAIL: ");
    push_str(&mut head, desc.as_str());
    push_line(out, head);
    let ghost after_head = views(out@);
    match get_field(ex, "exception") {
        Some(exc) => {
            let msg = field_str(exc, "message", "");
            message_part(msg.as_str(), out);
        },
        None => {},
    }
    let lv = chars_of(loc.as_str());
    if lv.len() > 0 {
        let mut l: Vec<char> = Vec::new();
        push_str(&mut l, "  at ");
        push_all(&mut l, lv.as_slice());
        push_line(out, l);
    }
    assert(views(out@) =~= base + example_lines(*ex));
}

/// The compact report for a parsed RSpec JSON result, `None` when it lacks
/// a summary or an examples array.
pub fn parse_rspec_json(v: &Json) -> (r: Option<String>)
    ensures
        match r {
            Some(s) => rspec_json_spec(*v) == Some(s@),
            None => rspec_json_spec(*v) is None,
        },
{
    let summary = match get_field(v, "summary") {
        Some(s) => s,
        None => return None,
    };
    let exs = match array_of(get_field(v, "examples")) {
        Some(a) => a,
        None => return None,
    };
    let total = field_u64(summary, "example_count");
    let failed = field_u64(summary, "failure_count");
    let pending = field_u64(summary, "pending_count");
    let dur: String = match get_field(summary, "duration") {
        Some(Json::Number(n)) => match format_two_places(n.text.as_str()) {
            Some(t) => t,
            None => "0.00".to_owned(),
        },
        _ => "0.00".to_owned(),
    };
    if failed == 0 {
        let mut l: Vec<char> = Vec::new();
        push_str(&mut l, "[");
        push_decimal_u64(&mut l, total);
        push_str(&mut l, " examples, 0 failures (");
        push_str(&mut l, dur.as_str());
        push_str(&mut l, "s)]");
        if pending > 0 {
            push_str(&mut l, ", ");
            push_decimal_u64(&mut l, pending);
            push_str(&mut l, " pending");
        }
        return Some(string_of(l.as_slice()));
    }
    let ghost ev = exs@;
    let mut out = no_lines();
    let mut i: usize = 0;
    assert(views(out@) =~= failure_lines(ev.take(0)));
    while i < exs.len()
        invariant
            i <= exs.len(),
            ev == exs@,
            views(out@) == failure_lines(ev.take(i as int)),
        decreases exs.len() - i,
    {
        assert(ev.take(i + 1).drop_last() =~= ev.take(i as int));
        assert(ev.take(i + 1).last() == ev[i as int]);
        example_part(&exs[i], &mut out);
        i += 1;
    }
    assert(ev.take(exs.len() as int) =~= ev);
    let mut l: Vec<char> = Vec::new();
    push_str(&mut l, "[");
    push_decimal_u64(&mut l, total);
    push_str(&mut l, " examples, ");
    push_decimal_u64(&mut l, failed);
    push_str(&mut l, " failures (");
    push_str(&mut l, dur.as_str());
    push_str(&mut l, "s)]");
    push_line(&mut out, l);
    Some(joined(&out))
}

/// Failure blocks and the summary line of the text report.
pub fn filter_rspec_text(output: &str) -> (r: String)
    ensures
        r@ == rspec_text_spec(output@),
{
    let ls = output_lines(output);
    let ghost lv = views(ls@);
    let ghost f = |st: RspecText, l: Seq<char>| rspec_text_step(st, l);
    let ghost init = RspecText { out: seq![], in_failure: false, n: 0 };
    let mut out = no_lines();
    let mut in_failure = false;
    let mut n: usize = 0;
    let mut i: usize = 0;
    while i < ls.len()
        invariant
            i <= ls.len(),
            lv == views(ls@),
            f == (|st: RspecText, l: Seq<char>| rspec_text_step(st, l)),
            init == (RspecText { out: seq![], in_failure: false, n: 0 }),
            n <= 10,
            lv.take(i as int).fold_left(init, f) == (RspecText {
                out: views(out@),
                in_failure,
                n: n as nat,
            }),
        decreases ls.len() - i,
    {
        proof {
            lemma_fold_take(lv, init, f, i as int);
        }
        assert(lv[i as int] == ls@[i as int]@);
        let t = trim_of(ls[i].as_slice());
        let ts = t.as_slice();
        if starts_lit(ts, "Failure/Error:") || (starts_lit(ts, "rspec ") && contains_lit(ts, ":")) {
            in_failure = true;
            n = 0;
        }
        if in_failure {
            push_line(&mut out, line_at(&ls, i));
            n += 1;
            if (t.len() == 0 && n > 2) || n >= 10 {
                in_failure = false;
            }
        } else if contains_lit(ts, "example") && (contains_lit(ts, "failure") || contains_lit(
            ts,
            "pending",
        )) {
            push_line(&mut out, line_at(&ls, i));
        }
        i += 1;
    }
    assert(lv.take(ls.len() as int) =~= lv);
    joined_or(&out, output)
}

/// Rewriting the arguments a second time changes nothing: `--format json`
/// is added at most once.
pub proof fn lemma_format_json_once(args: Seq<String>, r: Seq<String>)
    requires
        strs(r) == format_json_args(args),
    ensures
        format_json_args(r) == strs(r),
{
    if !has_arg(args, "--format"@) && !has_arg(args, "-f"@) {
        assert(strs(args).push("--format"@).push("json"@) == strs(args) + seq!["--format"@, "json"@]);
        lemma_strs_extend(args, r, seq!["--format"@, "json"@]);
        assert(r[args.len() as int + 0]@ == "--format"@);
        lemma_arg_at(r, args.len() as int);
    } else {
        lemma_same_args(r, args, "--format"@);
        lemma_same_args(r, args, "-f"@);
    }
}

/// Adds `--format json` when no format is chosen.
pub fn add_format_json(args: &[String]) -> (r: Vec<String>)
    ensures
        strs(r@) == format_json_args(args@),
{
    let mut out = clone_args(args);
    if !any_arg_is(args, "--format") && !any_arg_is(args, "-f") {
        out.push("--format".to_owned());
        out.push("json".to_owned());
        assert(strs(out@) =~= strs(args@).push("--format"@).push("json"@));
    }
    out
}

impl Handler for RspecHandler {
    fn rewrite_args(&self, args: &[String]) -> (r: Vec<String>)
        ensures
            strs(r@) == format_json_args(args@),
    {
        add_format_json(args)
    }

    fn filter(&self, output: &str, args: &[String]) -> (r: String)
        ensures
            r@ == rspec_spec(output@),
    {
        let ov = chars_of(output);
        let t = trim_of(ov.as_slice());
        let mut k = t.len();
        assert(t@.take(k as int) =~= t@);
        while k > 0 && t[k - 1] != '{'
            invariant
                k <= t.len(),
                last_index_of(t@.take(k as int), '{') == last_index_of(t@, '{'),
            decreases k,
        {
            proof {
                let s = t@.take(k as int);
                assert(s.last() == t@[k - 1]);
                assert(s.drop_last() =~= t@.take(k - 1));
            }
            k -= 1;
        }
        if k == 0 {
            assert(t@.take(0).len() == 0);
            return filter_rspec_text(output);
        }
        proof {
            let s = t@.take(k as int);
            assert(s.last() == t@[k - 1]);
        }
        let cand = slice(t.as_slice(), k - 1, t.len());
        assert(cand@ =~= t@.skip(k - 1));
        let cs = string_of(cand.as_slice());
        match parse_json(cs.as_str()) {
            Some(v) => match parse_rspec_json(&v) {
                Some(r) => r,
                None => filter_rspec_text(output),
            },
            None => filter_rspec_text(output),
        }
    }
}

} // verus!
