//! `eslint`: files with problems, their first 20 problem lines and the total.
use vstd::prelude::*;
use super::util::{joined_or, line_at, no_lines, output_lines, push_line};
use super::{clone_args, Handler};
use crate::text::{
    blank, contains, contains_lit, decimal, ends_lit, ends_with, has_char, is_blank, join,
    lemma_fold_take, lines, push_decimal, push_str, starts_lit, starts_with, trim, trim_of, views,
};

verus! {

pub struct EslintHandler;

/// Scanning state: lines kept so far, the current file header, whether it
/// has problems, its problem lines and the number of problem lines seen.
pub struct EslintState {
    pub out: Seq<Seq<char>>,
    pub file: Option<Seq<char>>,
    pub has: bool,
    pub errs: Seq<Seq<char>>,
    pub total: nat,
}

pub open spec fn eslint_init() -> EslintState {
    EslintState { out: seq![], file: None, has: false, errs: seq![], total: 0 }
}

/// The kept lines after the current file is closed.
pub open spec fn eslint_flush(st: EslintState) -> Seq<Seq<char>> {
    if st.has && st.file is Some {
        st.out.push(st.file->0) + st.errs
    } else {
        st.out
    }
}

pub open spec fn is_file_header(line: Seq<char>, t: Seq<char>) -> bool {
    !starts_with(line, " "@) && (t.contains('/') || t.contains('\\') || ends_with(t, ".js"@)
        || ends_with(t, ".ts"@) || ends_with(t, ".tsx"@) || ends_with(t, ".jsx"@))
}

pub open spec fn eslint_step(st: EslintState, line: Seq<char>) -> EslintState {
    let t = trim(line);
    if t.len() == 0 {
        EslintState { out: eslint_flush(st), file: None, has: false, errs: seq![], total: st.total }
    } else if starts_with(t, "\u{2716}"@) || contains(t, " problems"@) {
        if !contains(t, "  "@) {
            EslintState { out: st.out.push(line), ..st }
        } else {
            st
        }
    } else if is_file_header(line, t) {
        EslintState {
            out: eslint_flush(st),
            file: Some(line),
            has: false,
            errs: seq![],
            total: st.total,
        }
    } else if starts_with(line, " "@) && (contains(t, "error"@) || contains(t, "warning"@)) {
        if st.total + 1 <= 20 {
            EslintState { errs: st.errs.push(line), has: true, total: st.total + 1, ..st }
        } else {
            EslintState { total: st.total + 1, ..st }
        }
    } else {
        st
    }
}

pub open spec fn eslint_clean(output: Seq<char>) -> bool {
    forall|k: int|
        0 <= k < lines(output).len() ==> blank(#[trigger] lines(output)[k]) || contains(
            lines(output)[k],
            "0 problems"@,
        )
}

/// "All files clean" when every line is blank or reports 0 problems;
/// otherwise each file with problems followed by its problem lines (the
/// first 20 problems overall), the global summary line, and a count.
pub open spec fn eslint_spec(output: Seq<char>) -> Seq<char> {
    if eslint_clean(output) {
        "All files clean"@
    } else {
        let st = lines(output).fold_left(eslint_init(), |st: EslintState, l: Seq<char>| eslint_step(st, l));
        let kept = eslint_flush(st);
        let all = if st.total > 20 {
            kept.push("[+"@ + decimal((st.total - 20) as nat) + " more errors]"@)
        } else {
            kept
        };
        if all.len() == 0 {
            output
        } else {
            join(all, seq!['\n'])
        }
    }
}

pub open spec fn opt_view(o: Option<Vec<char>>) -> Option<Seq<char>> {
    match o {
        Some(v) => Some(v@),
        None => None,
    }
}

/// Appends the current file and its problem lines when it has problems.
fn flush(out: &mut Vec<Vec<char>>, file: &Option<Vec<char>>, has: bool, errs: &Vec<Vec<char>>)
    ensures
        views(final(out)@) == eslint_flush(
            EslintState {
                out: views(old(out)@),
                file: opt_view(*file),
                has,
                errs: views(errs@),
                total: 0,
            },
        ),
{
    if has {
        match file {
            Some(f) => {
                push_line(out, f.clone());
                let ghost base = views(out@);
                let mut k: usize = 0;
                while k < errs.len()
                    invariant
                        k <= errs.len(),
                        views(out@) == base + views(errs@).take(k as int),
                    decreases errs.len() - k,
                {
                    push_line(out, line_at(errs, k));
                    assert(views(out@) =~= base + views(errs@).take(k + 1));
                    k += 1;
                }
                assert(views(errs@).take(errs.len() as int) =~= views(errs@));
            },
            None => {},
        }
    }
}

fn file_header(line: &[char], t: &[char]) -> (b: bool)
    ensures
        b == is_file_header(line@, t@),
{
    !starts_lit(line, " ") && (has_char(t, '/') || has_char(t, '\\') || ends_lit(t, ".js")
        || ends_lit(t, ".ts") || ends_lit(t, ".tsx") || ends_lit(t, ".jsx"))
}

fn all_clean(ls: &Vec<Vec<char>>) -> (b: bool)
    ensures
        b == (forall|k: int|
            0 <= k < views(ls@).len() ==> blank(#[trigger] views(ls@)[k]) || contains(
                views(ls@)[k],
                "0 problems"@,
            )),
{
    let mut i: usize = 0;
    while i < ls.len()
        invariant
            i <= ls.len(),
            forall|k: int|
                0 <= k < i ==> blank(#[trigger] views(ls@)[k]) || contains(
                    views(ls@)[k],
                    "0 problems"@,
                ),
        decreases ls.len() - i,
    {
        assert(views(ls@)[i as int] == ls@[i as int]@);
        if !is_blank(ls[i].as_slice()) && !contains_lit(ls[i].as_slice(), "0 problems") {
            return false;
        }
        i += 1;
    }
    true
}

impl Handler for EslintHandler {
    fn rewrite_args(&self, args: &[String]) -> (r: Vec<String>)
        ensures
            r@ == args@,
    {
        clone_args(args)
    }

    fn filter(&self, output: &str, args: &[String]) -> (r: String)
        ensures
            r@ == eslint_spec(output@),
    {
        let ls = output_lines(output);
        let ghost lv = views(ls@);
        if all_clean(&ls) {
            return "All files clean".to_owned();
        }
        let ghost f = |st: EslintState, l: Seq<char>| eslint_step(st, l);
        let mut out = no_lines();
        let mut file: Option<Vec<char>> = None;
        let mut has = false;
        let mut errs = no_lines();
        let mut total: usize = 0;
        let mut i: usize = 0;
        while i < ls.len()
            invariant
                i <= ls.len(),
                lv == views(ls@),
                f == (|st: EslintState, l: Seq<char>| eslint_step(st, l)),
                total <= i,
                lv.take(i as int).fold_left(eslint_init(), f) == (EslintState {
                    out: views(out@),
                    file: opt_view(file),
                    has,
                    errs: views(errs@),
                    total: total as nat,
                }),
            decreases ls.len() - i,
        {
            proof {
                lemma_fold_take(lv, eslint_init(), f, i as int);
            }
            assert(lv[i as int] == ls@[i as int]@);
            let line = ls[i].as_slice();
            let t = trim_of(line);
            let ts = t.as_slice();
            if t.len() == 0 {
                flush(&mut out, &file, has, &errs);
                file = None;
                has = false;
                errs = no_lines();
            } else if starts_lit(ts, "\u{2716}") || contains_lit(ts, " problems") {
                if !contains_lit(ts, "  ") {
                    push_line(&mut out, line_at(&ls, i));
                }
            } else if file_header(line, ts) {
                flush(&mut out, &file, has, &errs);
                file = Some(line_at(&ls, i));
                has = false;
                errs = no_lines();
            } else if starts_lit(line, " ") && (contains_lit(ts, "error") || contains_lit(
                ts,
                "warning",
            )) {
                total += 1;
                if total <= 20 {
                    push_line(&mut errs, line_at(&ls, i));
                    has = true;
                }
            }
            i += 1;
        }
        assert(lv.take(ls.len() as int) =~= lv);
        flush(&mut out, &file, has, &errs);
        if total > 20 {
            let mut m: Vec<char> = Vec::new();
            push_str(&mut m, "[+");
            push_decimal(&mut m, total - 20);
            push_str(&mut m, " more errors]");
            push_line(&mut out, m);
        }
        joined_or(&out, output)
    }
}

} // verus!
