//! `rubocop`: the JSON report reduced to its offenses by severity, or the
//! text report to its offense and summary lines.
use vstd::prelude::*;
use super::rspec::{add_format_json, format_json_args};
use super::util::{joined, joined_or, line_at, no_lines, or_original, output_lines, push_line};
use super::{strs, Handler};
use crate::json::{
    Json, array_of, as_array, field_str, field_u64, get, get_field, json_parse, parse_json, str_or,
    u64_or_zero,
};
use crate::text::{
    chars_of, contains, contains_lit, decimal, eq_lit, join, lines, push_decimal, push_decimal_u64,
    push_str, starts_lit, starts_with, string_of, trim, trim_of, views,
};

verus! {

pub struct RubocopHandler;

/// Error and warning lines shown.
pub const MAX_PER_SEVERITY: usize = 10;

/// Convention lines shown.
pub const MAX_CONVENTIONS: usize = 5;

/// Offense lines by severity.
pub struct Offenses {
    pub errors: Seq<Seq<char>>,
    pub warnings: Seq<Seq<char>>,
    pub conventions: Seq<Seq<char>>,
}

pub open spec fn no_offenses() -> Offenses {
    Offenses { errors: seq![], warnings: seq![], conventions: seq![] }
}

/// `path:line: [severity] message (cop)`.
pub open spec fn offense_line(path: Seq<char>, off: Json) -> Seq<char> {
    let line_no: u64 = match get(off, "location"@) {
        Some(loc) => u64_or_zero(loc, "line"@),
        None => 0,
    };
    path + ":"@ + decimal(line_no as nat) + ": ["@ + str_or(off, "severity"@, "convention"@) + "] "@
        + str_or(off, "message"@, ""@) + " ("@ + str_or(off, "cop_name"@, ""@) + ")"@
}

pub open spec fn add_offense(st: Offenses, path: Seq<char>, off: Json) -> Offenses {
    let sev = str_or(off, "severity"@, "convention"@);
    let e = offense_line(path, off);
    if sev == "error"@ || sev == "fatal"@ {
        Offenses { errors: st.errors.push(e), ..st }
    } else if sev == "warning"@ || sev == "refactor"@ {
        Offenses { warnings: st.warnings.push(e), ..st }
    } else {
        Offenses { conventions: st.conventions.push(e), ..st }
    }
}

pub open spec fn add_offenses(st: Offenses, path: Seq<char>, offs: Seq<Json>) -> Offenses
    decreases offs.len(),
{
    if offs.len() == 0 {
        st
    } else {
        add_offense(add_offenses(st, path, offs.drop_last()), path, offs.last())
    }
}

/// The offenses of the files, in order; a file without an `offenses` array
/// adds none.
pub open spec fn file_offenses(files: Seq<Json>) -> Offenses
    decreases files.len(),
{
    if files.len() == 0 {
        no_offenses()
    } else {
        let st = file_offenses(files.drop_last());
        let f = files.last();
        match as_array(get(f, "offenses"@)) {
            Some(offs) => add_offenses(st, str_or(f, "path"@, "?"@), offs),
            None => st,
        }
    }
}

pub open spec fn first_n(s: Seq<Seq<char>>, n: nat) -> Seq<Seq<char>> {
    s.take(if s.len() < n {
        s.len() as int
    } else {
        n as int
    })
}

/// The report for a parsed JSON result: needs a `files` array and a
/// `summary`.
pub open spec fn rubocop_json_spec(v: Json) -> Option<Seq<char>> {
    match (as_array(get(v, "files"@)), get(v, "summary"@)) {
        (Some(files), Some(summary)) => {
            let offense_count = u64_or_zero(summary, "offense_count"@);
            let file_count = u64_or_zero(summary, "inspected_file_count"@);
            if offense_count == 0 {
                Some(
                    "[rubocop: "@ + decimal(file_count as nat) + " file(s) inspected, no offenses]"@,
                )
            } else {
                let o = file_offenses(files);
                let convs = first_n(o.conventions, MAX_CONVENTIONS as nat);
                let more = if o.conventions.len() > MAX_CONVENTIONS {
                    seq![
                        "[+"@ + decimal((o.conventions.len() - MAX_CONVENTIONS) as nat)
                            + " more convention/style offenses]"@,
                    ]
                } else {
                    seq![]
                };
                Some(
                    join(
                        (first_n(o.errors, MAX_PER_SEVERITY as nat) + first_n(
                            o.warnings,
                            MAX_PER_SEVERITY as nat,
                        ) + convs + more).push(
                            "[rubocop: "@ + decimal(file_count as nat) + " file(s) inspected, "@
                                + decimal(offense_count as nat) + " offense(s)]"@,
                        ),
                        seq!['\n'],
                    ),
                )
            }
        },
        _ => None,
    }
}

pub open spec fn offense_text(t: Seq<char>) -> bool {
    contains(t, ": C: "@) || contains(t, ": E: "@) || contains(t, ": W: "@) || contains(t, ": F: "@)
        || contains(t, ": R: "@)
}

pub open spec fn summary_text(t: Seq<char>) -> bool {
    contains(t, "offense"@) && (contains(t, "file"@) || contains(t, "inspected"@))
}

/// Each line once per kind it is (offense, summary).
pub open spec fn rubocop_text_lines(ls: Seq<Seq<char>>) -> Seq<Seq<char>>
    decreases ls.len(),
{
    if ls.len() == 0 {
        seq![]
    } else {
        let l = ls.last();
        let t = trim(l);
        let p = rubocop_text_lines(ls.drop_last());
        let p1 = if offense_text(t) {
            p.push(l)
        } else {
            p
        };
        if summary_text(t) {
            p1.push(l)
        } else {
            p1
        }
    }
}

/// Offense and summary lines of the text report.
pub open spec fn rubocop_text_spec(output: Seq<char>) -> Seq<char> {
    or_original(rubocop_text_lines(lines(output)), output)
}

/// The JSON report when the trimmed output is a JSON object of the
/// expected shape, the text report otherwise.
pub open spec fn rubocop_spec(output: Seq<char>) -> Seq<char> {
    let t = trim(output);
    if starts_with(t, "{"@) {
        match json_parse(t) {
            Some(v) => match rubocop_json_spec(v) {
                Some(r) => r,
                None => rubocop_text_spec(output),
            },
            None => rubocop_text_spec(output),
        }
    } else {
        rubocop_text_spec(output)
    }
}

fn offense_entry(path: &str, off: &Json) -> (r: Vec<char>)
    ensures
        r@ == offense_line(path@, *off),
{
    let line_no: u64 = match get_field(off, "location") {
        Some(loc) => field_u64(loc, "line"),
        None => 0,
    };
    let sev = field_str(off, "severity", "convention");
    let msg = field_str(off, "message", "");
    let cop = field_str(off, "cop_name", "");
    let mut e: Vec<char> = Vec::new();
    push_str(&mut e, path);
    push_str(&mut e, ":");
    push_decimal_u64(&mut e, line_no);
    push_str(&mut e, ": [");
    push_str(&mut e, sev.as_str());
    push_str(&mut e, "] ");
    push_str(&mut e, msg.as_str());
    push_str(&mut e, " (");
    push_str(&mut e, cop.as_str());
    push_str(&mut e, ")");
    e
}

fn collect_offenses(
    files: &Vec<Json>,
    errors: &mut Vec<Vec<char>>,
    warnings: &mut Vec<Vec<char>>,
    conventions: &mut Vec<Vec<char>>,
)
    requires
        old(errors)@.len() == 0,
        old(warnings)@.len() == 0,
        old(conventions)@.len() == 0,
    ensures
        (Offenses {
            errors: views(final(errors)@),
            warnings: views(final(warnings)@),
            conventions: views(final(conventions)@),
        }) == file_offenses(files@),
{
    let ghost fv = files@;
    assert(views(errors@) =~= Seq::<Seq<char>>::empty());
    assert(views(warnings@) =~= Seq::<Seq<char>>::empty());
    assert(views(conventions@) =~= Seq::<Seq<char>>::empty());
    let mut i: usize = 0;
    while i < files.len()
        invariant
            i <= files.len(),
            fv == files@,
            (Offenses {
                errors: views(errors@),
                warnings: views(warnings@),
                conventions: views(conventions@),
            }) == file_offenses(fv.take(i as int)),
        decreases files.len() - i,
    {
        assert(fv.take(i + 1).drop_last() =~= fv.take(i as int));
        assert(fv.take(i + 1).last() == fv[i as int]);
        let f = &files[i];
        match array_of(get_field(f, "offenses")) {
            Some(offs) => {
                let path = field_str(f, "path", "?");
                let ghost st0 = file_offenses(fv.take(i as int));
                let ghost ov = offs@;
                let mut j: usize = 0;
                assert(ov.take(0) =~= Seq::<Json>::empty());
                while j < offs.len()
                    invariant
                        j <= offs.len(),
                        ov == offs@,
                        (Offenses {
                            errors: views(errors@),
                            warnings: views(warnings@),
                            conventions: views(conventions@),
                        }) == add_offenses(st0, path@, ov.take(j as int)),
                    decreases offs.len() - j,
                {
                    assert(ov.take(j + 1).drop_last() =~= ov.take(j as int));
                    assert(ov.take(j + 1).last() == ov[j as int]);
                    let off = &offs[j];
                    let e = offense_entry(path.as_str(), off);
                    let sev = field_str(off, "severity", "convention");
                    let sv = chars_of(sev.as_str());
                    let s = sv.as_slice();
                    if eq_lit(s, "error") || eq_lit(s, "fatal") {
                        push_line(errors, e);
                    } else if eq_lit(s, "warning") || eq_lit(s, "refactor") {
                        push_line(warnings, e);
                    } else {
                        push_line(conventions, e);
                    }
                    j += 1;
                }
                assert(ov.take(offs.len() as int) =~= ov);
            },
            None => {},
        }
        i += 1;
    }
    assert(fv.take(files.len() as int) =~= fv);
}

fn push_first(out: &mut Vec<Vec<char>>, ls: &Vec<Vec<char>>, n: usize)
    ensures
        views(final(out)@) == views(old(out)@) + first_n(views(ls@), n as nat),
{
    let ghost base = views(out@);
    let m = if ls.len() < n {
        ls.len()
    } else {
        n
    };
    let mut k: usize = 0;
    while k < m
        invariant
            k <= m <= ls.len(),
            views(out@) == base + views(ls@).take(k as int),
        decreases m - k,
    {
        push_line(out, line_at(ls, k));
        assert(views(out@) =~= base + views(ls@).take(k + 1));
        k += 1;
    }
}

/// The compact report for a parsed RuboCop JSON result, `None` when it
/// lacks a files array or a summary.
pub fn parse_rubocop_json(v: &Json) -> (r: Option<String>)
    ensures
        match r {
            Some(s) => rubocop_json_spec(*v) == Some(s@),
            None => rubocop_json_spec(*v) is None,
        },
{
    let files = match array_of(get_field(v, "files")) {
        Some(a) => a,
        None => return None,
    };
    let summary = match get_field(v, "summary") {
        Some(s) => s,
        None => return None,
    };
    let offense_count = field_u64(summary, "offense_count");
    let file_count = field_u64(summary, "inspected_file_count");
    if offense_count == 0 {
        let mut l: Vec<char> = Vec::new();
        push_str(&mut l, "[rubocop: ");
        push_decimal_u64(&mut l, file_count);
        push_str(&mut l, " file(s) inspected, no offenses]");
        return Some(string_of(l.as_slice()));
    }
    let mut errors = no_lines();
    let mut warnings = no_lines();
    let mut conventions = no_lines();
    collect_offenses(files, &mut errors, &mut warnings, &mut conventions);
    let ghost o = file_offenses(files@);
    let mut out = no_lines();
    push_first(&mut out, &errors, MAX_PER_SEVERITY);
    push_first(&mut out, &warnings, MAX_PER_SEVERITY);
    push_first(&mut out, &conventions, MAX_CONVENTIONS);
    let ghost head = first_n(o.errors, MAX_PER_SEVERITY as nat) + first_n(o.warnings, MAX_PER_SEVERITY as nat)
        + first_n(o.conventions, MAX_CONVENTIONS as nat);
    assert(views(out@) =~= head);
    assert(views(conventions@).len() == conventions.len());
    if conventions.len() > MAX_CONVENTIONS {
        let mut m: Vec<char> = Vec::new();
        push_str(&mut m, "[+");
        push_decimal(&mut m, conventions.len() - MAX_CONVENTIONS);
        push_str(&mut m, " more convention/style offenses]");
        let ghost mv = m@;
        push_line(&mut out, m);
        assert(views(out@) =~= head + seq![mv]);
    } else {
        assert(views(out@) =~= head + Seq::<Seq<char>>::empty());
    }
    let mut l: Vec<char> = Vec::new();
    push_str(&mut l, "[rubocop: ");
    push_decimal_u64(&mut l, file_count);
    push_str(&mut l, " file(s) inspected, ");
    push_decimal_u64(&mut l, offense_count);
    push_str(&mut l, " offense(s)]");
    push_line(&mut out, l);
    Some(joined(&out))
}

/// Offense and summary lines of the text report.
pub fn filter_rubocop_text(output: &str) -> (r: String)
    ensures
        r@ == rubocop_text_spec(output@),
{
    let ls = output_lines(output);
    let ghost lv = views(ls@);
    let mut out = no_lines();
    let mut i: usize = 0;
    assert(views(out@) =~= rubocop_text_lines(lv.take(0)));
    while i < ls.len()
        invariant
            i <= ls.len(),
            lv == views(ls@),
            views(out@) == rubocop_text_lines(lv.take(i as int)),
        decreases ls.len() - i,
    {
        assert(lv.take(i + 1).drop_last() =~= lv.take(i as int));
        assert(lv.take(i + 1).last() == lv[i as int]);
        assert(lv[i as int] == ls@[i as int]@);
        let t = trim_of(ls[i].as_slice());
        let ts = t.as_slice();
        if contains_lit(ts, ": C: ") || contains_lit(ts, ": E: ") || contains_lit(ts, ": W: ")
            || contains_lit(ts, ": F: ") || contains_lit(ts, ": R: ") {
            push_line(&mut out, line_at(&ls, i));
        }
        if contains_lit(ts, "offense") && (contains_lit(ts, "file") || contains_lit(ts, "inspected")) {
            push_line(&mut out, line_at(&ls, i));
        }
        i += 1;
    }
    assert(lv.take(ls.len() as int) =~= lv);
    joined_or(&out, output)
}

impl Handler for RubocopHandler {
    fn rewrite_args(&self, args: &[String]) -> (r: Vec<String>)
        ensures
            strs(r@) == format_json_args(args@),
    {
        add_format_json(args)
    }

    fn filter(&self, output: &str, args: &[String]) -> (r: String)
        ensures
            r@ == rubocop_spec(output@),
    {
        let ov = chars_of(output);
        let t = trim_of(ov.as_slice());
        if !starts_lit(t.as_slice(), "{") {
            return filter_rubocop_text(output);
        }
        let ts = string_of(t.as_slice());
        match parse_json(ts.as_str()) {
            Some(v) => match parse_rubocop_json(&v) {
                Some(r) => r,
                None => filter_rubocop_text(output),
            },
            None => filter_rubocop_text(output),
        }
    }
}

} // verus!
