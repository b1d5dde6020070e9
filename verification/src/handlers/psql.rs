//! `psql`: error lines only, or the table without borders, at most 20 rows.
use vstd::prelude::*;
use super::util::{joined, line_at, no_lines, output_lines, push_line};
use super::{clone_args, Handler};
use crate::text::{
    contains, contains_lit, decimal, ends_with, join, lemma_filter_take, lines, push_decimal,
    push_str, slice, starts_lit, starts_with, trim, trim_of, views,
};

verus! {

pub struct PsqlHandler;

pub open spec fn psql_error(l: Seq<char>) -> bool {
    starts_with(trim(l), "ERROR:"@) || starts_with(trim(l), "FATAL:"@)
}

pub open spec fn psql_diag(l: Seq<char>) -> bool {
    let t = trim(l);
    starts_with(t, "ERROR:"@) || starts_with(t, "FATAL:"@) || starts_with(t, "DETAIL:"@)
        || starts_with(t, "HINT:"@)
}

pub open spec fn border_char(c: char) -> bool {
    c == '+' || c == '-' || c == '='
}

/// A line that is neither blank nor a `+----+` border.
pub open spec fn psql_data(l: Seq<char>) -> bool {
    let t = trim(l);
    t.len() > 0 && !(forall|i: int| 0 <= i < t.len() ==> border_char(#[trigger] t[i]))
}

/// The row without its outer `|` characters, trimmed.
pub open spec fn psql_clean(l: Seq<char>) -> Seq<char> {
    let t = trim(l);
    let s = if starts_with(t, "|"@) {
        t.skip(1)
    } else {
        t
    };
    let s2 = if ends_with(s, "|"@) {
        s.drop_last()
    } else {
        s
    };
    trim(s2)
}

/// The `(N rows)` line that closes a table.
pub open spec fn psql_footer(l: Seq<char>) -> bool {
    starts_with(trim(l), "("@) && contains(l, "row"@)
}

/// Only the diagnostics when there is an error; otherwise the table rows
/// without borders: the header and 20 rows at most (the `(N rows)` line is
/// no row), then a count of the rest and the `(N rows)` line.
pub open spec fn psql_spec(output: Seq<char>) -> Seq<char> {
    let ls = lines(output);
    if ls.len() == 0 {
        output
    } else if exists|k: int| 0 <= k < ls.len() && psql_error(#[trigger] ls[k]) {
        join(ls.filter(|l: Seq<char>| psql_diag(l)), seq!['\n'])
    } else {
        let cleaned = ls.filter(|l: Seq<char>| psql_data(l)).map_values(
            |l: Seq<char>| psql_clean(l),
        );
        let footer = cleaned.len() > 0 && psql_footer(cleaned.last());
        let rows = if footer {
            cleaned.len() - 1
        } else {
            cleaned.len() as int
        };
        if cleaned.len() == 0 {
            output
        } else if rows <= 21 {
            join(cleaned, seq!['\n'])
        } else {
            let out = cleaned.take(21).push(
                "[+"@ + decimal((rows - 21) as nat) + " more rows]"@,
            );
            join(
                if footer {
                    out.push(cleaned.last())
                } else {
                    out
                },
                seq!['\n'],
            )
        }
    }
}

fn diag_line(l: &[char]) -> (b: bool)
    ensures
        b == psql_diag(l@),
{
    let t = trim_of(l);
    let ts = t.as_slice();
    starts_lit(ts, "ERROR:") || starts_lit(ts, "FATAL:") || starts_lit(ts, "DETAIL:") || starts_lit(
        ts,
        "HINT:",
    )
}

fn data_line(l: &[char]) -> (b: bool)
    ensures
        b == psql_data(l@),
{
    let t = trim_of(l);
    if t.len() == 0 {
        return false;
    }
    let mut i: usize = 0;
    while i < t.len()
        invariant
            i <= t.len(),
            t@ == trim(l@),
            t.len() > 0,
            forall|k: int| 0 <= k < i ==> border_char(#[trigger] t@[k]),
        decreases t.len() - i,
    {
        if !(t[i] == '+' || t[i] == '-' || t[i] == '=') {
            assert(!border_char(t@[i as int]));
            return true;
        }
        i += 1;
    }
    false
}

fn clean_row(l: &[char]) -> (r: Vec<char>)
    ensures
        r@ == psql_clean(l@),
{
    let t = trim_of(l);
    proof {
        reveal_strlit("|");
    }
    let s = if starts_lit(t.as_slice(), "|") {
        slice(t.as_slice(), 1, t.len())
    } else {
        t
    };
    assert(starts_with(t@, "|"@) ==> s@ =~= t@.skip(1));
    let s2 = if s.len() > 0 && s[s.len() - 1] == '|' {
        slice(s.as_slice(), 0, s.len() - 1)
    } else {
        s
    };
    proof {
        reveal_strlit("|");
        if ends_with(s@, "|"@) {
            assert(s@.subrange(s@.len() - 1, s@.len() as int)[0] == s@[s@.len() - 1]);
        }
        if s@.len() > 0 && s@[s@.len() - 1] == '|' {
            assert(s@.subrange(s@.len() - 1, s@.len() as int) =~= "|"@);
        }
    }
    trim_of(s2.as_slice())
}

fn first_error(ls: &Vec<Vec<char>>) -> (e: usize)
    ensures
        e <= ls.len(),
        e < ls.len() ==> psql_error(views(ls@)[e as int]),
        forall|k: int| 0 <= k < e ==> !psql_error(#[trigger] views(ls@)[k]),
{
    let mut e: usize = 0;
    while e < ls.len()
        invariant
            e <= ls.len(),
            forall|k: int| 0 <= k < e ==> !psql_error(#[trigger] views(ls@)[k]),
        decreases ls.len() - e,
    {
        assert(views(ls@)[e as int] == ls@[e as int]@);
        let t = trim_of(ls[e].as_slice());
        if starts_lit(t.as_slice(), "ERROR:") || starts_lit(t.as_slice(), "FATAL:") {
            return e;
        }
        e += 1;
    }
    e
}

impl Handler for PsqlHandler {
    fn rewrite_args(&self, args: &[String]) -> (r: Vec<String>)
        ensures
            r@ == args@,
    {
        clone_args(args)
    }

    fn filter(&self, output: &str, args: &[String]) -> (r: String)
        ensures
            r@ == psql_spec(output@),
    {
        let ls = output_lines(output);
        let ghost lv = views(ls@);
        assert(lv.len() == ls.len());
        if ls.len() == 0 {
            return output.to_owned();
        }
        let e = first_error(&ls);
        if e < ls.len() {
            assert(psql_error(lv[e as int]));
            let ghost p = |l: Seq<char>| psql_diag(l);
            let mut out = no_lines();
            let mut i: usize = 0;
            while i < ls.len()
                invariant
                    i <= ls.len(),
                    lv == views(ls@),
                    p == (|l: Seq<char>| psql_diag(l)),
                    views(out@) == lv.take(i as int).filter(p),
                decreases ls.len() - i,
            {
                proof {
                    lemma_filter_take(lv, p, i as int);
                }
                assert(lv[i as int] == ls@[i as int]@);
                if diag_line(ls[i].as_slice()) {
                    push_line(&mut out, line_at(&ls, i));
                }
                i += 1;
            }
            assert(lv.take(ls.len() as int) =~= lv);
            return joined(&out);
        }
        let ghost p = |l: Seq<char>| psql_data(l);
        let ghost c = |l: Seq<char>| psql_clean(l);
        let mut cleaned = no_lines();
        let mut i: usize = 0;
        while i < ls.len()
            invariant
                i <= ls.len(),
                lv == views(ls@),
                p == (|l: Seq<char>| psql_data(l)),
                c == (|l: Seq<char>| psql_clean(l)),
                views(cleaned@) == lv.take(i as int).filter(p).map_values(c),
            decreases ls.len() - i,
        {
            proof {
                lemma_filter_take(lv, p, i as int);
            }
            assert(lv[i as int] == ls@[i as int]@);
            if data_line(ls[i].as_slice()) {
                let row = clean_row(ls[i].as_slice());
                push_line(&mut cleaned, row);
                assert(lv.take(i + 1).filter(p) == lv.take(i as int).filter(p).push(lv[i as int]));
                assert(views(cleaned@) =~= lv.take(i + 1).filter(p).map_values(c));
            }
            i += 1;
        }
        assert(lv.take(ls.len() as int) =~= lv);
        let ghost cv = views(cleaned@);
        assert(cv.len() == cleaned.len());
        if cleaned.len() == 0 {
            return output.to_owned();
        }
        let last = line_at(&cleaned, cleaned.len() - 1);
        let lt = trim_of(last.as_slice());
        let footer = starts_lit(lt.as_slice(), "(") && contains_lit(last.as_slice(), "row");
        assert(cv.last() == last@);
        let rows: usize = if footer {
            cleaned.len() - 1
        } else {
            cleaned.len()
        };
        if rows <= 21 {
            return joined(&cleaned);
        }
        let mut out = no_lines();
        let mut k: usize = 0;
        while k < 21
            invariant
                k <= 21 < cleaned.len(),
                cv == views(cleaned@),
                views(out@) == cv.take(k as int),
            decreases 21 - k,
        {
            push_line(&mut out, line_at(&cleaned, k));
            assert(views(out@) =~= cv.take(k + 1));
            k += 1;
        }
        let mut m: Vec<char> = Vec::new();
        push_str(&mut m, "[+");
        push_decimal(&mut m, rows - 21);
        push_str(&mut m, " more rows]");
        push_line(&mut out, m);
        if footer {
            push_line(&mut out, last);
        }
        joined(&out)
    }
}

} // verus!
