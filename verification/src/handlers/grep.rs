//! `grep` / `rg`: matches grouped by file in file order, at most 25 per file
//! and 50 in all, long
//! lines cut at 120 characters.
use vstd::prelude::*;
use super::util::{joined, line_at, no_lines, output_lines, push_line};
use super::{clone_args, Handler};
use crate::order::{insert_by, lemma_insert_by_at, less, lex_lt};
use crate::text::{
    blank, decimal, eq_chars, has_char, index_of, is_ascii_digit, is_blank, is_digit, join,
    lemma_filter_take, lemma_fold_take, lemma_index_of, lemma_index_of_unique, lines, push_all,
    push_decimal, push_str, slice, views,
};

verus! {

pub struct GrepHandler;

/// The number of matches shown.
pub const LIMIT: usize = 50;

/// The number of matches shown for one file.
pub const PER_FILE: usize = 25;

/// The number of characters a match line is cut to.
pub const MAX_LINE: usize = 120;

/// `file:N:content` or `file:content` split into the file and the content,
/// when the part before the first colon is a non-empty word.
pub open spec fn split_grep(l: Seq<char>) -> Option<(Seq<char>, Seq<char>)> {
    let p1 = index_of(l, ':');
    if p1 >= l.len() {
        None
    } else {
        let file = l.take(p1);
        if file.contains(' ') || file.len() == 0 {
            None
        } else {
            let rest = l.skip(p1 + 1);
            let p2 = index_of(rest, ':');
            if p2 < rest.len() && (forall|i: int| 0 <= i < p2 ==> is_digit(#[trigger] rest[i])) {
                Some((file, rest.skip(p2 + 1)))
            } else {
                Some((file, rest))
            }
        }
    }
}

/// The line, or its first `max - 1` characters and an ellipsis when longer
/// than `max`.
pub open spec fn truncate(l: Seq<char>, max: nat) -> Seq<char> {
    if l.len() <= max {
        l
    } else {
        l.take(max - 1) + "\u{2026}"@
    }
}

pub open spec fn group_lt(a: (Seq<char>, Seq<Seq<char>>), b: (Seq<char>, Seq<Seq<char>>)) -> bool {
    lex_lt(a.0, b.0)
}

/// Index of the group of `f`, or `gs.len()`.
pub open spec fn find_group(gs: Seq<(Seq<char>, Seq<Seq<char>>)>, f: Seq<char>) -> int
    decreases gs.len(),
{
    if gs.len() == 0 {
        0
    } else if gs[0].0 == f {
        0
    } else {
        1 + find_group(gs.drop_first(), f)
    }
}

/// A match added to the group of its file, a new group kept in file order.
pub open spec fn add_match(gs: Seq<(Seq<char>, Seq<Seq<char>>)>, f: Seq<char>, m: Seq<char>) -> Seq<
    (Seq<char>, Seq<Seq<char>>),
> {
    let j = find_group(gs, f);
    if j < gs.len() {
        gs.update(j, (f, gs[j].1.push(m)))
    } else {
        insert_by(gs, (f, seq![m]), |a: (Seq<char>, Seq<Seq<char>>), b: (Seq<char>, Seq<Seq<char>>)| group_lt(a, b))
    }
}

/// The matches of the lines that name a file, grouped by file, files in
/// order.
pub open spec fn grep_groups(ls: Seq<Seq<char>>) -> Seq<(Seq<char>, Seq<Seq<char>>)>
    decreases ls.len(),
{
    if ls.len() == 0 {
        seq![]
    } else {
        let gs = grep_groups(ls.drop_last());
        match split_grep(ls.last()) {
            Some(p) => add_match(gs, p.0, truncate(p.1, MAX_LINE as nat)),
            None => gs,
        }
    }
}

/// Lines written so far, matches shown, and whether the limit stopped it.
pub struct GrepOut {
    pub out: Seq<Seq<char>>,
    pub shown: nat,
    pub stopped: bool,
}

pub open spec fn emit_match(st: GrepOut, m: Seq<char>) -> GrepOut {
    if st.stopped {
        st
    } else if st.shown >= LIMIT {
        GrepOut { stopped: true, ..st }
    } else {
        GrepOut { out: st.out.push("  "@ + m), shown: st.shown + 1, stopped: false }
    }
}

/// A file's header and its first 25 matches (while the overall limit
/// allows), then a count of its other matches.
pub open spec fn emit_group(st: GrepOut, g: (Seq<char>, Seq<Seq<char>>)) -> GrepOut {
    if st.stopped {
        st
    } else {
        let first = g.1.take(
            if g.1.len() < PER_FILE {
                g.1.len() as int
            } else {
                PER_FILE as int
            },
        );
        let s1 = first.fold_left(
            GrepOut { out: st.out.push(g.0 + ":"@), ..st },
            |s: GrepOut, m: Seq<char>| emit_match(s, m),
        );
        if g.1.len() > PER_FILE && !s1.stopped {
            GrepOut {
                out: s1.out.push("  [+"@ + decimal((g.1.len() - PER_FILE) as nat) + " more matches]"@),
                ..s1
            }
        } else {
            s1
        }
    }
}

/// Without any file, the first 50 lines and a count of the rest; otherwise
/// each file followed by its matches, at most 25 per file with a count of
/// the rest and 50 in all, and a count of the lines not shown.
pub open spec fn grep_spec(output: Seq<char>) -> Seq<char> {
    let ls = lines(output).filter(|l: Seq<char>| !blank(l));
    if ls.len() == 0 {
        output
    } else {
        let gs = grep_groups(ls);
        if gs.len() == 0 {
            let un = ls.map_values(|l: Seq<char>| truncate(l, MAX_LINE as nat));
            let shown = un.take(if un.len() < LIMIT {
                un.len() as int
            } else {
                LIMIT as int
            });
            join(
                if un.len() > LIMIT {
                    shown.push("[+"@ + decimal((un.len() - LIMIT) as nat) + " more matches]"@)
                } else {
                    shown
                },
                seq!['\n'],
            )
        } else {
            let st = gs.fold_left(
                GrepOut { out: seq![], shown: 0, stopped: false },
                |st: GrepOut, g: (Seq<char>, Seq<Seq<char>>)| emit_group(st, g),
            );
            join(
                if ls.len() > LIMIT {
                    st.out.push(
                        "[+"@ + decimal((ls.len() - st.shown) as nat) + " more in "@ + decimal(
                            gs.len(),
                        ) + " files]"@,
                    )
                } else {
                    st.out
                },
                seq!['\n'],
            )
        }
    }
}

pub open spec fn group_views(v: Seq<(Vec<char>, Vec<Vec<char>>)>) -> Seq<(Seq<char>, Seq<Seq<char>>)> {
    v.map_values(|g: (Vec<char>, Vec<Vec<char>>)| (g.0@, views(g.1@)))
}

pub open spec fn split_view(o: Option<(Vec<char>, Vec<char>)>) -> Option<(Seq<char>, Seq<char>)> {
    match o {
        Some(p) => Some((p.0@, p.1@)),
        None => None,
    }
}

fn first_colon(s: &[char]) -> (k: usize)
    ensures
        k as int == index_of(s@, ':'),
{
    let mut k: usize = 0;
    while k < s.len() && s[k] != ':'
        invariant
            k <= s.len(),
            forall|q: int| 0 <= q < k ==> s@[q] != ':',
        decreases s.len() - k,
    {
        k += 1;
    }
    proof {
        lemma_index_of_unique(s@, ':', k as int);
    }
    k
}

fn split_grep_line(l: &[char]) -> (r: Option<(Vec<char>, Vec<char>)>)
    ensures
        split_view(r) == split_grep(l@),
{
    let p1 = first_colon(l);
    if p1 >= l.len() {
        return None;
    }
    let file = slice(l, 0, p1);
    assert(file@ =~= l@.take(p1 as int));
    if has_char(file.as_slice(), ' ') || file.len() == 0 {
        return None;
    }
    let rest = slice(l, p1 + 1, l.len());
    assert(rest@ =~= l@.skip(p1 + 1));
    let p2 = first_colon(rest.as_slice());
    if p2 < rest.len() {
        let mut q: usize = 0;
        while q < p2 && is_ascii_digit(rest[q])
            invariant
                q <= p2 < rest.len(),
                forall|i: int| 0 <= i < q ==> is_digit(#[trigger] rest@[i]),
            decreases p2 - q,
        {
            q += 1;
        }
        if q == p2 {
            let content = slice(rest.as_slice(), p2 + 1, rest.len());
            assert(content@ =~= rest@.skip(p2 + 1));
            return Some((file, content));
        }
        assert(!is_digit(rest@[q as int]));
    }
    Some((file, rest))
}

fn truncate_line(l: &[char]) -> (r: Vec<char>)
    ensures
        r@ == truncate(l@, MAX_LINE as nat),
{
    if l.len() <= MAX_LINE {
        slice(l, 0, l.len())
    } else {
        let mut r = slice(l, 0, MAX_LINE - 1);
        push_str(&mut r, "\u{2026}");
        r
    }
}

/// `find_group` is `k` when `k` is the first index of a group of `f`, or the
/// length when there is none.
pub proof fn lemma_find_group(gs: Seq<(Seq<char>, Seq<Seq<char>>)>, f: Seq<char>, k: int)
    requires
        0 <= k <= gs.len(),
        forall|j: int| 0 <= j < k ==> (#[trigger] gs[j]).0 != f,
        k < gs.len() ==> gs[k].0 == f,
    ensures
        find_group(gs, f) == k,
    decreases k,
{
    if k > 0 {
        let d = gs.drop_first();
        assert forall|j: int| 0 <= j < k - 1 implies (#[trigger] d[j]).0 != f by {
            assert(d[j] == gs[j + 1]);
        }
        if k - 1 < d.len() {
            assert(d[k - 1] == gs[k]);
        }
        lemma_find_group(d, f, k - 1);
        assert(gs[0].0 != f);
    }
}

/// Adds a match to the groups.
fn add_to_groups(gs: &mut Vec<(Vec<char>, Vec<Vec<char>>)>, f: Vec<char>, m: Vec<char>)
    ensures
        group_views(final(gs)@) == add_match(group_views(old(gs)@), f@, m@),
{
    let ghost g0 = group_views(gs@);
    let mut j: usize = 0;
    while j < gs.len() && !eq_chars(gs[j].0.as_slice(), f.as_slice())
        invariant
            j <= gs.len(),
            g0 == group_views(gs@),
            forall|q: int| 0 <= q < j ==> (#[trigger] g0[q]).0 != f@,
        decreases gs.len() - j,
    {
        assert(g0[j as int].0 == gs@[j as int].0@);
        j += 1;
    }
    proof {
        if j < gs.len() {
            assert(g0[j as int].0 == gs@[j as int].0@);
        }
        lemma_find_group(g0, f@, j as int);
    }
    if j < gs.len() {
        let (key, mut ms) = gs.remove(j);
        let ghost mv = m@;
        assert(views(ms@) == g0[j as int].1);
        push_line(&mut ms, m);
        gs.insert(j, (key, ms));
        assert(group_views(gs@) =~= g0.update(j as int, (f@, g0[j as int].1.push(mv))));
    } else {
        let ghost lt = |a: (Seq<char>, Seq<Seq<char>>), b: (Seq<char>, Seq<Seq<char>>)| group_lt(a, b);
        let ghost x = (f@, seq![m@]);
        let mut k = gs.len();
        while k > 0 && less(f.as_slice(), gs[k - 1].0.as_slice())
            invariant
                k <= gs.len(),
                g0 == group_views(gs@),
                x == (f@, seq![m@]),
                lt == (|a: (Seq<char>, Seq<Seq<char>>), b: (Seq<char>, Seq<Seq<char>>)| group_lt(a, b)),
                forall|q: int| k <= q < g0.len() ==> lt(x, #[trigger] g0[q]),
            decreases k,
        {
            assert(g0[k - 1].0 == gs@[k - 1].0@);
            k -= 1;
        }
        proof {
            if k > 0 {
                assert(g0[k - 1].0 == gs@[k - 1].0@);
            }
            lemma_insert_by_at(g0, x, lt, k as int);
        }
        let mut ms = no_lines();
        push_line(&mut ms, m);
        gs.insert(k, (f, ms));
        assert(group_views(gs@) =~= g0.insert(k as int, x));
    }
}

impl Handler for GrepHandler {
    fn rewrite_args(&self, args: &[String]) -> (r: Vec<String>)
        ensures
            r@ == args@,
    {
        clone_args(args)
    }

    fn filter(&self, output: &str, args: &[String]) -> (r: String)
        ensures
            r@ == grep_spec(output@),
    {
        let all_lines = output_lines(output);
        let ghost av = views(all_lines@);
        let ghost nb = |l: Seq<char>| !blank(l);
        let mut ls = no_lines();
        let mut i: usize = 0;
        while i < all_lines.len()
            invariant
                i <= all_lines.len(),
                av == views(all_lines@),
                nb == (|l: Seq<char>| !blank(l)),
                views(ls@) == av.take(i as int).filter(nb),
            decreases all_lines.len() - i,
        {
            proof {
                lemma_filter_take(av, nb, i as int);
            }
            assert(av[i as int] == all_lines@[i as int]@);
            if !is_blank(all_lines[i].as_slice()) {
                push_line(&mut ls, line_at(&all_lines, i));
            }
            i += 1;
        }
        assert(av.take(all_lines.len() as int) =~= av);
        let ghost lv = views(ls@);
        assert(lv.len() == ls.len());
        if ls.len() == 0 {
            return output.to_owned();
        }
        let mut gs: Vec<(Vec<char>, Vec<Vec<char>>)> = Vec::new();
        let mut un = no_lines();
        let ghost tr = |l: Seq<char>| truncate(l, MAX_LINE as nat);
        let mut i: usize = 0;
        assert(group_views(gs@) =~= grep_groups(lv.take(0)));
        while i < ls.len()
            invariant
                i <= ls.len(),
                lv == views(ls@),
                tr == (|l: Seq<char>| truncate(l, MAX_LINE as nat)),
                group_views(gs@) == grep_groups(lv.take(i as int)),
                views(un@) == lv.take(i as int).map_values(tr),
            decreases ls.len() - i,
        {
            assert(lv[i as int] == ls@[i as int]@);
            assert(lv.take(i + 1).drop_last() =~= lv.take(i as int));
            assert(lv.take(i + 1).last() == lv[i as int]);
            let line = ls[i].as_slice();
            match split_grep_line(line) {
                Some(p) => {
                    let t = truncate_line(p.1.as_slice());
                    add_to_groups(&mut gs, p.0, t);
                },
                None => {},
            }
            push_line(&mut un, truncate_line(line));
            assert(views(un@) =~= lv.take(i + 1).map_values(tr));
            i += 1;
        }
        assert(lv.take(ls.len() as int) =~= lv);
        let ghost gv = group_views(gs@);
        assert(gv.len() == gs.len());
        if gs.len() == 0 {
            let ghost uv = views(un@);
            assert(uv.len() == un.len());
            let n = if un.len() < LIMIT {
                un.len()
            } else {
                LIMIT
            };
            let mut out = no_lines();
            let mut k: usize = 0;
            while k < n
                invariant
                    k <= n <= un.len(),
                    uv == views(un@),
                    views(out@) == uv.take(k as int),
                decreases n - k,
            {
                push_line(&mut out, line_at(&un, k));
                assert(views(out@) =~= uv.take(k + 1));
                k += 1;
            }
            if un.len() > LIMIT {
                let mut m: Vec<char> = Vec::new();
                push_str(&mut m, "[+");
                push_decimal(&mut m, un.len() - LIMIT);
                push_str(&mut m, " more matches]");
                push_line(&mut out, m);
            }
            return joined(&out);
        }
        let ghost fg = |st: GrepOut, g: (Seq<char>, Seq<Seq<char>>)| emit_group(st, g);
        let ghost fm = |s: GrepOut, m: Seq<char>| emit_match(s, m);
        let ghost init = GrepOut { out: seq![], shown: 0, stopped: false };
        let mut out = no_lines();
        let mut shown: usize = 0;
        let mut stopped = false;
        let mut k: usize = 0;
        while k < gs.len()
            invariant
                k <= gs.len(),
                gv == group_views(gs@),
                fg == (|st: GrepOut, g: (Seq<char>, Seq<Seq<char>>)| emit_group(st, g)),
                fm == (|s: GrepOut, m: Seq<char>| emit_match(s, m)),
                init == (GrepOut { out: seq![], shown: 0, stopped: false }),
                shown <= LIMIT,
                gv.take(k as int).fold_left(init, fg) == (GrepOut {
                    out: views(out@),
                    shown: shown as nat,
                    stopped,
                }),
            decreases gs.len() - k,
        {
            proof {
                lemma_fold_take(gv, init, fg, k as int);
            }
            assert(gv[k as int] == (gs@[k as int].0@, views(gs@[k as int].1@)));
            if !stopped {
                let mut h = line_at_key(&gs, k);
                push_str(&mut h, ":");
                push_line(&mut out, h);
                let ms = &gs[k].1;
                let ghost mv = views(ms@);
                assert(mv.len() == ms.len());
                let cap = if ms.len() < PER_FILE {
                    ms.len()
                } else {
                    PER_FILE
                };
                let ghost mt = mv.take(cap as int);
                let ghost start = GrepOut { out: views(out@), shown: shown as nat, stopped: false };
                let mut q: usize = 0;
                while q < cap
                    invariant
                        q <= cap <= ms.len(),
                        mv == views(ms@),
                        mt == mv.take(cap as int),
                        fm == (|s: GrepOut, m: Seq<char>| emit_match(s, m)),
                        shown <= LIMIT,
                        mt.take(q as int).fold_left(start, fm) == (GrepOut {
                            out: views(out@),
                            shown: shown as nat,
                            stopped,
                        }),
                    decreases cap - q,
                {
                    proof {
                        lemma_fold_take(mt, start, fm, q as int);
                    }
                    assert(mt[q as int] == ms@[q as int]@);
                    if !stopped {
                        if shown >= LIMIT {
                            stopped = true;
                        } else {
                            let mut l: Vec<char> = Vec::new();
                            push_str(&mut l, "  ");
                            push_all(&mut l, ms[q].as_slice());
                            push_line(&mut out, l);
                            shown += 1;
                        }
                    }
                    q += 1;
                }
                assert(mt.take(cap as int) =~= mt);
                if ms.len() > PER_FILE && !stopped {
                    let mut m: Vec<char> = Vec::new();
                    push_str(&mut m, "  [+");
                    push_decimal(&mut m, ms.len() - PER_FILE);
                    push_str(&mut m, " more matches]");
                    push_line(&mut out, m);
                }
            }
            k += 1;
        }
        assert(gv.take(gs.len() as int) =~= gv);
        if ls.len() > LIMIT {
            let mut m: Vec<char> = Vec::new();
            push_str(&mut m, "[+");
            push_decimal(&mut m, ls.len() - shown);
            push_str(&mut m, " more in ");
            push_decimal(&mut m, gs.len());
            push_str(&mut m, " files]");
            push_line(&mut out, m);
        }
        joined(&out)
    }
}

/// A copy of the file name of group `k`.
fn line_at_key(gs: &Vec<(Vec<char>, Vec<Vec<char>>)>, k: usize) -> (r: Vec<char>)
    requires
        k < gs.len(),
    ensures
        r@ == gs@[k as int].0@,
{
    gs[k].0.clone()
}

} // verus!
