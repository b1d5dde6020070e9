//! `diff`: at most five hunks with two context lines each, without index and
//! "no newline" noise.
use vstd::prelude::*;
use super::util::{joined_or, line_at, no_lines, or_original, output_lines, push_line};
use super::{clone_args, Handler};
use crate::text::{decimal, lemma_fold_take, lines, push_decimal, push_str, starts_lit, starts_with, views};

verus! {

pub struct DiffHandler;

/// The number of hunks shown.
pub const MAX_HUNKS: usize = 5;

/// The number of context lines shown per hunk.
pub const MAX_CONTEXT_PER_HUNK: usize = 2;

/// Scanning state: kept lines, hunks shown, whether inside a hunk, context
/// lines kept in it, and hunks dropped.
pub struct DiffState {
    pub out: Seq<Seq<char>>,
    pub hunks: nat,
    pub in_hunk: bool,
    pub ctx: nat,
    pub dropped: nat,
}

pub open spec fn diff_init() -> DiffState {
    DiffState { out: seq![], hunks: 0, in_hunk: false, ctx: 0, dropped: 0 }
}

pub open spec fn diff_step(st: DiffState, line: Seq<char>) -> DiffState {
    if starts_with(line, "index "@) || starts_with(line, "\\ No newline"@) {
        st
    } else if starts_with(line, "@@"@) {
        if st.hunks >= MAX_HUNKS {
            DiffState { dropped: st.dropped + 1, ..st }
        } else {
            DiffState {
                out: st.out.push(line),
                hunks: st.hunks + 1,
                in_hunk: true,
                ctx: 0,
                dropped: st.dropped,
            }
        }
    } else if st.hunks >= MAX_HUNKS {
        st
    } else if starts_with(line, "+++"@) || starts_with(line, "---"@) || starts_with(line, "diff "@) {
        DiffState { out: st.out.push(line), in_hunk: false, ctx: 0, ..st }
    } else if st.in_hunk {
        if starts_with(line, "+"@) || starts_with(line, "-"@) {
            DiffState { out: st.out.push(line), ..st }
        } else if st.ctx < MAX_CONTEXT_PER_HUNK {
            DiffState { out: st.out.push(line), ctx: st.ctx + 1, ..st }
        } else {
            st
        }
    } else {
        DiffState { out: st.out.push(line), ..st }
    }
}

/// The scanning state after the given lines.
pub open spec fn diff_fold(ls: Seq<Seq<char>>) -> DiffState {
    ls.fold_left(diff_init(), |st: DiffState, l: Seq<char>| diff_step(st, l))
}

/// The kept lines, then a count of the hunks dropped.
pub open spec fn diff_lines(output: Seq<char>) -> Seq<Seq<char>> {
    let st = diff_fold(lines(output));
    if st.dropped > 0 {
        st.out.push("[+"@ + decimal(st.dropped) + " more hunks]"@)
    } else {
        st.out
    }
}

/// The kept lines and the count of hunks dropped; the output itself when
/// nothing is kept.
pub open spec fn diff_spec(output: Seq<char>) -> Seq<char> {
    or_original(diff_lines(output), output)
}

/// The number of hunk headers among the lines.
pub open spec fn hunk_headers(s: Seq<Seq<char>>) -> nat
    decreases s.len(),
{
    if s.len() == 0 {
        0
    } else {
        hunk_headers(s.drop_last()) + if starts_with(s.last(), "@@"@) {
            1nat
        } else {
            0
        }
    }
}

proof fn lemma_diff_state(ls: Seq<Seq<char>>, n: int)
    requires
        0 <= n <= ls.len(),
    ensures
        ({
            let st = ls.take(n).fold_left(diff_init(), |st: DiffState, l: Seq<char>| diff_step(st, l));
            hunk_headers(st.out) == st.hunks && st.hunks <= MAX_HUNKS
        }),
    decreases n,
{
    let f = |st: DiffState, l: Seq<char>| diff_step(st, l);
    if n == 0 {
        assert(ls.take(0) =~= Seq::<Seq<char>>::empty());
    } else {
        lemma_diff_state(ls, n - 1);
        lemma_fold_take(ls, diff_init(), f, n - 1);
        let st = ls.take(n - 1).fold_left(diff_init(), f);
        let l = ls[n - 1];
        let st2 = diff_step(st, l);
        assert(st2.out == st.out || st2.out == st.out.push(l));
        if st2.out == st.out.push(l) {
            assert(st.out.push(l).drop_last() =~= st.out);
        }
    }
}

/// At most five hunk headers are shown, whatever the diff.
pub proof fn lemma_at_most_five_hunks(output: Seq<char>)
    ensures
        hunk_headers(diff_lines(output)) <= MAX_HUNKS,
{
    let ls = lines(output);
    lemma_diff_state(ls, ls.len() as int);
    assert(ls.take(ls.len() as int) =~= ls);
    let st = ls.fold_left(diff_init(), |st: DiffState, l: Seq<char>| diff_step(st, l));
    if st.dropped > 0 {
        let m = "[+"@ + decimal(st.dropped) + " more hunks]"@;
        reveal_strlit("[+");
        reveal_strlit("@@");
        assert(m[0] == '[');
        assert(!starts_with(m, "@@"@)) by {
            if starts_with(m, "@@"@) {
                assert(m.subrange(0, 2)[0] == "@@"@[0]);
            }
        }
        assert(st.out.push(m).drop_last() =~= st.out);
    }
}

proof fn lemma_diff_fold_hunks(ls: Seq<Seq<char>>)
    ensures
        diff_fold(ls).hunks == if hunk_headers(ls) < MAX_HUNKS {
            hunk_headers(ls)
        } else {
            MAX_HUNKS as nat
        },
    decreases ls.len(),
{
    if ls.len() > 0 {
        lemma_diff_fold_hunks(ls.drop_last());
        let l = ls.last();
        reveal_strlit("@@");
        reveal_strlit("index ");
        reveal_strlit("\\ No newline");
        if starts_with(l, "@@"@) {
            assert(l[0] == l.subrange(0, 2)[0]);
            assert(!starts_with(l, "index "@)) by {
                if starts_with(l, "index "@) {
                    assert(l[0] == l.subrange(0, 6)[0]);
                }
            }
            assert(!starts_with(l, "\\ No newline"@)) by {
                if starts_with(l, "\\ No newline"@) {
                    assert(l[0] == l.subrange(0, 12)[0]);
                }
            }
        }
    }
}

/// A line that starts with a space is a context line: no header, no change.
proof fn lemma_space_line(c: Seq<char>)
    requires
        starts_with(c, " "@),
    ensures
        !starts_with(c, "index "@),
        !starts_with(c, "\\ No newline"@),
        !starts_with(c, "@@"@),
        !starts_with(c, "+++"@),
        !starts_with(c, "---"@),
        !starts_with(c, "diff "@),
        !starts_with(c, "+"@),
        !starts_with(c, "-"@),
{
    reveal_strlit(" ");
    reveal_strlit("index ");
    reveal_strlit("\\ No newline");
    reveal_strlit("@@");
    reveal_strlit("+++");
    reveal_strlit("---");
    reveal_strlit("diff ");
    reveal_strlit("+");
    reveal_strlit("-");
    assert(c[0] == c.subrange(0, 1)[0]);
    assert(c.subrange(0, 1)[0] == ' ');
}

/// Inside a kept hunk, context lines are kept until the hunk has two.
proof fn lemma_context_run(st: DiffState, cs: Seq<Seq<char>>)
    requires
        st.in_hunk,
        st.hunks < MAX_HUNKS,
        st.ctx <= MAX_CONTEXT_PER_HUNK,
        forall|k: int| 0 <= k < cs.len() ==> starts_with(#[trigger] cs[k], " "@),
    ensures
        cs.fold_left(st, |st: DiffState, l: Seq<char>| diff_step(st, l)).out == st.out + cs.take(
            if cs.len() < MAX_CONTEXT_PER_HUNK - st.ctx {
                cs.len() as int
            } else {
                MAX_CONTEXT_PER_HUNK - st.ctx
            },
        ),
        cs.fold_left(st, |st: DiffState, l: Seq<char>| diff_step(st, l)).hunks == st.hunks,
        cs.fold_left(st, |st: DiffState, l: Seq<char>| diff_step(st, l)).in_hunk,
        cs.fold_left(st, |st: DiffState, l: Seq<char>| diff_step(st, l)).ctx == if cs.len()
            < MAX_CONTEXT_PER_HUNK - st.ctx {
            st.ctx + cs.len()
        } else {
            MAX_CONTEXT_PER_HUNK as nat
        },
    decreases cs.len(),
{
    if cs.len() > 0 {
        let d = cs.drop_last();
        assert forall|k: int| 0 <= k < d.len() implies starts_with(#[trigger] d[k], " "@) by {
            assert(d[k] == cs[k]);
        }
        lemma_context_run(st, d);
        assert(starts_with(cs[cs.len() - 1], " "@));
        lemma_space_line(cs.last());
        let prev = d.fold_left(st, |st: DiffState, l: Seq<char>| diff_step(st, l));
        if d.len() < MAX_CONTEXT_PER_HUNK - st.ctx {
            assert(cs.take(d.len() as int + 1) =~= d.take(d.len() as int).push(cs.last()));
            assert(d.take(d.len() as int) =~= d);
        } else {
            assert(cs.take(MAX_CONTEXT_PER_HUNK - st.ctx) =~= d.take(MAX_CONTEXT_PER_HUNK - st.ctx));
        }
    } else {
        assert(cs.take(0) =~= Seq::<Seq<char>>::empty());
    }
}

/// Every hunk has its own allowance of two context lines: after any diff
/// with fewer than four hunk headers so far, a new hunk header followed by
/// context lines is kept with the first two of them (all of them when
/// fewer), whatever context the earlier hunks kept.
pub proof fn lemma_context_per_hunk(ls: Seq<Seq<char>>, h: Seq<char>, cs: Seq<Seq<char>>)
    requires
        hunk_headers(ls) + 1 < MAX_HUNKS,
        starts_with(h, "@@"@),
        forall|k: int| 0 <= k < cs.len() ==> starts_with(#[trigger] cs[k], " "@),
    ensures
        diff_fold(ls + seq![h] + cs).out == diff_fold(ls).out + seq![h] + cs.take(
            if cs.len() < MAX_CONTEXT_PER_HUNK {
                cs.len() as int
            } else {
                MAX_CONTEXT_PER_HUNK as int
            },
        ),
{
    let f = |st: DiffState, l: Seq<char>| diff_step(st, l);
    let all = ls + seq![h] + cs;
    let k: int = ls.len() as int + 1;
    all.lemma_fold_left_split(diff_init(), f, k);
    assert(all.subrange(0, k) =~= ls.push(h));
    assert(all.subrange(k, all.len() as int) =~= cs);
    assert(ls.push(h).drop_last() =~= ls);
    lemma_diff_fold_hunks(ls);
    reveal_strlit("@@");
    reveal_strlit("index ");
    reveal_strlit("\\ No newline");
    assert(h.subrange(0, 2) == "@@"@);
    assert(h[0] == '@') by {
        assert(h[0] == h.subrange(0, 2)[0]);
    }
    assert(!starts_with(h, "index "@)) by {
        if starts_with(h, "index "@) {
            assert(h[0] == h.subrange(0, 6)[0]);
        }
    }
    assert(!starts_with(h, "\\ No newline"@)) by {
        if starts_with(h, "\\ No newline"@) {
            assert(h[0] == h.subrange(0, 12)[0]);
        }
    }
    let st1 = diff_step(diff_fold(ls), h);
    assert(ls.push(h).fold_left(diff_init(), f) == st1);
    lemma_context_run(st1, cs);
}

proof fn lemma_diff_fold_dropped(ls: Seq<Seq<char>>)
    ensures
        diff_fold(ls).dropped + diff_fold(ls).hunks == hunk_headers(ls),
    decreases ls.len(),
{
    if ls.len() > 0 {
        lemma_diff_fold_dropped(ls.drop_last());
        let l = ls.last();
        reveal_strlit("@@");
        reveal_strlit("index ");
        reveal_strlit("\\ No newline");
        if starts_with(l, "@@"@) {
            assert(l[0] == l.subrange(0, 2)[0]);
            assert(!starts_with(l, "index "@)) by {
                if starts_with(l, "index "@) {
                    assert(l[0] == l.subrange(0, 6)[0]);
                }
            }
            assert(!starts_with(l, "\\ No newline"@)) by {
                if starts_with(l, "\\ No newline"@) {
                    assert(l[0] == l.subrange(0, 12)[0]);
                }
            }
        }
    }
}

/// Hunks beyond the fifth are counted, not shown: with more than five hunk
/// headers the kept lines end with `[+N more hunks]`, N the number of the
/// others; with five or fewer there is no such line.
pub proof fn lemma_more_hunks_counted(output: Seq<char>)
    ensures
        hunk_headers(lines(output)) > MAX_HUNKS ==> diff_lines(output) == diff_fold(lines(output)).out.push(
            "[+"@ + decimal((hunk_headers(lines(output)) - MAX_HUNKS) as nat) + " more hunks]"@,
        ),
        hunk_headers(lines(output)) <= MAX_HUNKS ==> diff_lines(output) == diff_fold(lines(output)).out,
{
    lemma_diff_fold_dropped(lines(output));
    lemma_diff_fold_hunks(lines(output));
}

/// Noise never shows: every kept line is a line of the input that starts
/// neither with `index ` nor with `\\ No newline`.
pub proof fn lemma_diff_drops_noise(ls: Seq<Seq<char>>)
    ensures
        forall|k: int|
            0 <= k < diff_fold(ls).out.len() ==> ls.contains(#[trigger] diff_fold(ls).out[k])
                && !starts_with(diff_fold(ls).out[k], "index "@) && !starts_with(
                diff_fold(ls).out[k],
                "\\ No newline"@,
            ),
    decreases ls.len(),
{
    if ls.len() > 0 {
        let d = ls.drop_last();
        lemma_diff_drops_noise(d);
        let prev = diff_fold(d);
        let out = diff_fold(ls).out;
        assert forall|k: int| 0 <= k < out.len() implies ls.contains(#[trigger] out[k])
            && !starts_with(out[k], "index "@) && !starts_with(out[k], "\\ No newline"@) by {
            if k < prev.out.len() {
                assert(out[k] == prev.out[k]);
                let j = choose|j: int| 0 <= j < d.len() && d[j] == prev.out[k];
                assert(ls[j] == d[j]);
            } else {
                assert(out[k] == ls.last());
                assert(ls[ls.len() - 1] == ls.last());
            }
        }
    }
}

/// Changed lines and file headers are never dropped while fewer than five
/// hunks were seen: a line starting with `+`, `-` or `diff ` after any such
/// diff is kept.
pub proof fn lemma_changes_shown(ls: Seq<Seq<char>>, x: Seq<char>)
    requires
        hunk_headers(ls) < MAX_HUNKS,
        starts_with(x, "+"@) || starts_with(x, "-"@) || starts_with(x, "diff "@),
    ensures
        diff_fold(ls.push(x)).out == diff_fold(ls).out.push(x),
{
    assert(ls.push(x).drop_last() =~= ls);
    lemma_diff_fold_hunks(ls);
    reveal_strlit("+");
    reveal_strlit("-");
    reveal_strlit("diff ");
    reveal_strlit("@@");
    reveal_strlit("index ");
    reveal_strlit("\\ No newline");
    assert(x[0] == x.subrange(0, 1)[0]);
    assert(!starts_with(x, "@@"@)) by {
        if starts_with(x, "@@"@) {
            assert(x[0] == x.subrange(0, 2)[0]);
        }
    }
    assert(!starts_with(x, "index "@)) by {
        if starts_with(x, "index "@) {
            assert(x[0] == x.subrange(0, 6)[0]);
        }
    }
    assert(!starts_with(x, "\\ No newline"@)) by {
        if starts_with(x, "\\ No newline"@) {
            assert(x[0] == x.subrange(0, 12)[0]);
        }
    }
}

/// The compacted diff. (Whether a git merge or rebase is in progress, in
/// which case the caller shows the output unchanged, is read from the
/// repository on disk by the caller.)
pub fn compact_diff(output: &str) -> (r: String)
    ensures
        r@ == diff_spec(output@),
{
    let ls = output_lines(output);
    let ghost lv = views(ls@);
    let ghost f = |st: DiffState, l: Seq<char>| diff_step(st, l);
    let mut out = no_lines();
    let mut hunks: usize = 0;
    let mut in_hunk = false;
    let mut ctx: usize = 0;
    let mut dropped: usize = 0;
    let mut i: usize = 0;
    while i < ls.len()
        invariant
            i <= ls.len(),
            lv == views(ls@),
            f == (|st: DiffState, l: Seq<char>| diff_step(st, l)),
            hunks <= MAX_HUNKS,
            ctx <= MAX_CONTEXT_PER_HUNK,
            dropped <= i,
            lv.take(i as int).fold_left(diff_init(), f) == (DiffState {
                out: views(out@),
                hunks: hunks as nat,
                in_hunk,
                ctx: ctx as nat,
                dropped: dropped as nat,
            }),
        decreases ls.len() - i,
    {
        proof {
            lemma_fold_take(lv, diff_init(), f, i as int);
        }
        assert(lv[i as int] == ls@[i as int]@);
        let line = ls[i].as_slice();
        if starts_lit(line, "index ") || starts_lit(line, "\\ No newline") {
        } else if starts_lit(line, "@@") {
            if hunks >= MAX_HUNKS {
                dropped += 1;
            } else {
                hunks += 1;
                in_hunk = true;
                ctx = 0;
                push_line(&mut out, line_at(&ls, i));
            }
        } else if hunks >= MAX_HUNKS {
        } else if starts_lit(line, "+++") || starts_lit(line, "---") || starts_lit(line, "diff ") {
            in_hunk = false;
            ctx = 0;
            push_line(&mut out, line_at(&ls, i));
        } else if in_hunk {
            if starts_lit(line, "+") || starts_lit(line, "-") {
                push_line(&mut out, line_at(&ls, i));
            } else if ctx < MAX_CONTEXT_PER_HUNK {
                push_line(&mut out, line_at(&ls, i));
                ctx += 1;
            }
        } else {
            push_line(&mut out, line_at(&ls, i));
        }
        i += 1;
    }
    assert(lv.take(ls.len() as int) =~= lv);
    if dropped > 0 {
        let mut m: Vec<char> = Vec::new();
        push_str(&mut m, "[+");
        push_decimal(&mut m, dropped);
        push_str(&mut m, " more hunks]");
        push_line(&mut out, m);
    }
    joined_or(&out, output)
}

impl Handler for DiffHandler {
    fn rewrite_args(&self, args: &[String]) -> (r: Vec<String>)
        ensures
            r@ == args@,
    {
        clone_args(args)
    }

    /// The compacted diff; see `compact_diff` for the case of a git
    /// operation in progress.
    fn filter(&self, output: &str, args: &[String]) -> (r: String)
        ensures
            r@ == diff_spec(output@),
    {
        compact_diff(output)
    }
}

} // verus!
