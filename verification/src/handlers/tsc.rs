//! `tsc`: diagnostics grouped by file, with the numbers of errors and
//! warnings.
use vstd::prelude::*;
use super::grep::{find_group, group_views, lemma_find_group};
use super::util::{joined, line_at, no_lines, output_lines, push_line};
use super::{clone_args, Handler};
use crate::outside::{regex_capture, regex_captures};
use crate::text::{
    chars_of, contains, contains_lit, decimal, eq_lit, join, lemma_fold_take, lines, push_all,
    push_decimal, push_str, views,
};

verus! {

pub struct TscHandler;

/// The shape of a diagnostic line: `file.ts(line,col): error|warning TSnnnn: message`.
pub open spec fn tsc_pattern() -> Seq<char> {
    "^(.+\\.tsx?)\\((\\d+),\\d+\\):\\s+(error|warning)\\s+(TS\\d+:.+)$"@
}

/// Diagnostics grouped by file, files in the order of their first
/// diagnostic, and the two counts.
pub struct TscState {
    pub groups: Seq<(Seq<char>, Seq<Seq<char>>)>,
    pub errors: nat,
    pub warnings: nat,
}

pub open spec fn tsc_init() -> TscState {
    TscState { groups: seq![], errors: 0, warnings: 0 }
}

/// A diagnostic added to the group of its file, or to a new group at the
/// end.
pub open spec fn tsc_add(gs: Seq<(Seq<char>, Seq<Seq<char>>)>, f: Seq<char>, e: Seq<char>) -> Seq<
    (Seq<char>, Seq<Seq<char>>),
> {
    let j = find_group(gs, f);
    if j < gs.len() {
        gs.update(j, (f, gs[j].1.push(e)))
    } else {
        gs.push((f, seq![e]))
    }
}

/// Adds a diagnostic to the groups.
fn add_diagnostic(gs: &mut Vec<(Vec<char>, Vec<Vec<char>>)>, f: Vec<char>, e: Vec<char>)
    ensures
        group_views(final(gs)@) == tsc_add(group_views(old(gs)@), f@, e@),
{
    let ghost g0 = group_views(gs@);
    let mut j: usize = 0;
    while j < gs.len() && !crate::text::eq_chars(gs[j].0.as_slice(), f.as_slice())
        invariant
            j <= gs.len(),
            g0 == group_views(gs@),
            forall|q: int| 0 <= q < j ==> (#[trigger] g0[q]).0 != f@,
        decreases gs.len() - j,
    {
        assert(g0[j as int].0 == gs@[j as int].0@);
        j += 1;
    }
    proof {
        if j < gs.len() {
            assert(g0[j as int].0 == gs@[j as int].0@);
        }
        lemma_find_group(g0, f@, j as int);
    }
    let ghost ev = e@;
    let ghost fv = f@;
    if j < gs.len() {
        let (key, mut ms) = gs.remove(j);
        assert(views(ms@) == g0[j as int].1);
        push_line(&mut ms, e);
        gs.insert(j, (key, ms));
        assert(group_views(gs@) =~= g0.update(j as int, (fv, g0[j as int].1.push(ev))));
    } else {
        let mut ms = no_lines();
        push_line(&mut ms, e);
        gs.push((f, ms));
        assert(group_views(gs@) =~= g0.push((fv, seq![ev])));
    }
}

/// One line's capture groups (`None` for a line that is no diagnostic):
/// group 1 the file, 2 the line, 3 the kind, 4 the message.
pub open spec fn tsc_step(st: TscState, caps: Option<Seq<Seq<char>>>) -> TscState {
    match caps {
        Some(g) => if g.len() >= 5 {
            let entry = "  L"@ + g[2] + ": "@ + g[3] + " "@ + g[4];
            let (errors, warnings) = if g[3] == "error"@ {
                (st.errors + 1, st.warnings)
            } else {
                (st.errors, st.warnings + 1)
            };
            TscState { groups: tsc_add(st.groups, g[1], entry), errors, warnings }
        } else {
            st
        },
        None => st,
    }
}

/// Each group as its file followed by its diagnostics.
pub open spec fn flatten_groups(gs: Seq<(Seq<char>, Seq<Seq<char>>)>) -> Seq<Seq<char>>
    decreases gs.len(),
{
    if gs.len() == 0 {
        seq![]
    } else {
        flatten_groups(gs.drop_last()).push(gs.last().0) + gs.last().1
    }
}

/// "Build OK" when the output reports no errors; otherwise, with the
/// capture groups of each line, the diagnostics grouped by file and the
/// counts, or the output itself when no line is a diagnostic.
pub open spec fn tsc_report(output: Seq<char>, caps: Seq<Option<Seq<Seq<char>>>>) -> Seq<char> {
    if contains(output, "Found 0 errors"@) {
        "Build OK"@
    } else {
        let st = caps.fold_left(tsc_init(), |st: TscState, c: Option<Seq<Seq<char>>>| tsc_step(st, c));
        if st.groups.len() == 0 {
            output
        } else {
            join(
                flatten_groups(st.groups).push(
                    "["@ + decimal(st.errors) + " errors, "@ + decimal(st.warnings) + " warnings]"@,
                ),
                seq!['\n'],
            )
        }
    }
}

/// The capture groups of a line for the diagnostic pattern.
pub open spec fn line_captures(l: Seq<char>) -> Option<Seq<Seq<char>>> {
    match regex_captures(tsc_pattern(), l) {
        Some(c) => c,
        None => None,
    }
}

pub open spec fn caps_views(v: Seq<Option<Vec<String>>>) -> Seq<Option<Seq<Seq<char>>>> {
    v.map_values(
        |o: Option<Vec<String>>| match o {
            Some(g) => Some(g@.map_values(|s: String| s@)),
            None => None,
        },
    )
}

/// The report for an output whose lines' capture groups are given, one
/// entry per line.
pub fn summarize_tsc(output: &str, caps: &Vec<Option<Vec<String>>>) -> (r: String)
    ensures
        r@ == tsc_report(output@, caps_views(caps@)),
{
    let ov = chars_of(output);
    if contains_lit(ov.as_slice(), "Found 0 errors") {
        return "Build OK".to_owned();
    }
    let ghost cv = caps_views(caps@);
    let ghost f = |st: TscState, c: Option<Seq<Seq<char>>>| tsc_step(st, c);
    let mut groups: Vec<(Vec<char>, Vec<Vec<char>>)> = Vec::new();
    let mut errors: usize = 0;
    let mut warnings: usize = 0;
    let mut i: usize = 0;
    assert(group_views(groups@) =~= Seq::<(Seq<char>, Seq<Seq<char>>)>::empty());
    while i < caps.len()
        invariant
            i <= caps.len(),
            cv == caps_views(caps@),
            f == (|st: TscState, c: Option<Seq<Seq<char>>>| tsc_step(st, c)),
            errors + warnings <= i,
            cv.take(i as int).fold_left(tsc_init(), f) == (TscState {
                groups: group_views(groups@),
                errors: errors as nat,
                warnings: warnings as nat,
            }),
        decreases caps.len() - i,
    {
        proof {
            lemma_fold_take(cv, tsc_init(), f, i as int);
        }
        match &caps[i] {
            Some(g) => {
                let ghost gv = g@.map_values(|s: String| s@);
                assert(cv[i as int] == Some(gv));
                if g.len() >= 5 {
                    assert(gv[1] == g@[1]@ && gv[2] == g@[2]@ && gv[3] == g@[3]@ && gv[4] == g@[4]@);
                    let file = chars_of(g[1].as_str());
                    let kind = chars_of(g[3].as_str());
                    let mut entry: Vec<char> = Vec::new();
                    push_str(&mut entry, "  L");
                    push_str(&mut entry, g[2].as_str());
                    push_str(&mut entry, ": ");
                    push_all(&mut entry, kind.as_slice());
                    push_str(&mut entry, " ");
                    push_str(&mut entry, g[4].as_str());
                    if eq_lit(kind.as_slice(), "error") {
                        errors += 1;
                    } else {
                        warnings += 1;
                    }
                    add_diagnostic(&mut groups, file, entry);
                }
            },
            None => {
                assert(cv[i as int] == None::<Seq<Seq<char>>>);
            },
        }
        i += 1;
    }
    assert(cv.take(caps.len() as int) =~= cv);
    let ghost gv = group_views(groups@);
    assert(gv.len() == groups.len());
    if groups.len() == 0 {
        return output.to_owned();
    }
    let mut out = no_lines();
    let mut k: usize = 0;
    assert(views(out@) =~= flatten_groups(gv.take(0)));
    while k < groups.len()
        invariant
            k <= groups.len(),
            gv == group_views(groups@),
            views(out@) == flatten_groups(gv.take(k as int)),
        decreases groups.len() - k,
    {
        assert(gv.take(k + 1).drop_last() =~= gv.take(k as int));
        assert(gv.take(k + 1).last() == gv[k as int]);
        assert(gv[k as int] == (groups@[k as int].0@, views(groups@[k as int].1@)));
        push_line(&mut out, groups[k].0.clone());
        let ms = &groups[k].1;
        let ghost base = views(out@);
        let mut q: usize = 0;
        while q < ms.len()
            invariant
                q <= ms.len(),
                views(out@) == base + views(ms@).take(q as int),
            decreases ms.len() - q,
        {
            push_line(&mut out, line_at(ms, q));
            assert(views(out@) =~= base + views(ms@).take(q + 1));
            q += 1;
        }
        assert(views(ms@).take(ms.len() as int) =~= views(ms@));
        k += 1;
    }
    assert(gv.take(groups.len() as int) =~= gv);
    let mut m: Vec<char> = Vec::new();
    push_str(&mut m, "[");
    push_decimal(&mut m, errors);
    push_str(&mut m, " errors, ");
    push_decimal(&mut m, warnings);
    push_str(&mut m, " warnings]");
    push_line(&mut out, m);
    joined(&out)
}

/// The captures of each line of the output for the diagnostic pattern.
fn output_captures(output: &str) -> (r: Vec<Option<Vec<String>>>)
    ensures
        caps_views(r@) == lines(output@).map_values(|l: Seq<char>| line_captures(l)),
{
    let ls = output_lines(output);
    let ghost lv = views(ls@);
    let ghost lc = |l: Seq<char>| line_captures(l);
    let mut r: Vec<Option<Vec<String>>> = Vec::new();
    let mut i: usize = 0;
    while i < ls.len()
        invariant
            i <= ls.len(),
            lv == views(ls@),
            lc == (|l: Seq<char>| line_captures(l)),
            caps_views(r@) == lv.take(i as int).map_values(lc),
        decreases ls.len() - i,
    {
        assert(lv[i as int] == ls@[i as int]@);
        let line = crate::text::string_of(ls[i].as_slice());
        let c = match regex_capture(
            "^(.+\\.tsx?)\\((\\d+),\\d+\\):\\s+(error|warning)\\s+(TS\\d+:.+)$",
            line.as_str(),
        ) {
            Some(c) => c,
            None => None,
        };
        let ghost r0 = caps_views(r@);
        r.push(c);
        assert(caps_views(r@) =~= r0.push(lc(lv[i as int])));
        assert(caps_views(r@) =~= lv.take(i + 1).map_values(lc));
        i += 1;
    }
    assert(lv.take(ls.len() as int) =~= lv);
    r
}

impl Handler for TscHandler {
    fn rewrite_args(&self, args: &[String]) -> (r: Vec<String>)
        ensures
            r@ == args@,
    {
        clone_args(args)
    }

    fn filter(&self, output: &str, args: &[String]) -> (r: String)
        ensures
            r@ == tsc_report(output@, lines(output@).map_values(|l: Seq<char>| line_captures(l))),
    {
        let caps = output_captures(output);
        summarize_tsc(output, &caps)
    }
}

} // verus!
