//! `docker`: log deduplication and compact `ps` / `images` tables.
//!
//! Log lines are deduplicated by embedding similarity; computing the
//! similarities is floating-point work done outside this library and arrives
//! as a matrix of "too similar" flags. Errors, stack traces and the first
//! and last five non-blank lines are always kept. Without the flags, exact
//! duplicates are dropped instead.
use vstd::prelude::*;
use super::util::{joined, line_at, no_lines, output_lines, push_line, push_lit_line};
use super::{any_arg_is, arg, arg_chars, clone_args, has_arg, lemma_arg_at, lemma_same_args, strs, Handler};
use crate::outside::{lowercase, to_lowercase};
use crate::text::{
    blank, chars_of, contains, contains_lit, decimal, eq_chars, eq_lit, is_blank, join,
    lemma_views_push, lines, push_all, push_decimal, push_str, slice, string_of, trim, trim_of,
    views, words, words_of, matches_at, occurs_at,
};

verus! {

pub struct DockerHandler;

// ───────────────────────────── log deduplication ─────────────────────────────

/// Log lines that are always kept: errors, and with `docker` (the rules of
/// `docker logs`) stack traces too.
pub open spec fn log_hard_keep(line: Seq<char>, docker: bool) -> bool {
    let l = lowercase(line);
    ||| contains(l, "error"@)
    ||| contains(l, "panic"@)
    ||| contains(l, "fatal"@)
    ||| contains(l, "exception"@)
    ||| contains(l, "failed"@)
    ||| (docker && (contains(l, "stack trace"@) || contains(l, "caused by"@) || contains(
        l,
        "at "@,
    )))
}

/// The number of non-blank lines before line `i`.
pub open spec fn nonblank_before(ls: Seq<Seq<char>>, i: int) -> nat {
    ls.take(i).filter(|l: Seq<char>| !blank(l)).len()
}

/// Line `i` is among the first five or the last five non-blank lines.
pub open spec fn edge_line(ls: Seq<Seq<char>>, i: int) -> bool {
    nonblank_before(ls, i) < 5 || nonblank_before(ls, i) + 5 >= nonblank_before(ls, ls.len() as int)
}

/// A log line that similarity never drops: a hard-kept line, and with
/// `docker` one of the first five and last five non-blank lines.
pub open spec fn kept_always(ls: Seq<Seq<char>>, i: int, docker: bool) -> bool {
    log_hard_keep(ls[i], docker) || (docker && edge_line(ls, i))
}

/// Which of the first `n` lines are kept: non-blank lines that are always
/// kept or not too similar to an earlier kept line.
pub open spec fn sim_kept(
    ls: Seq<Seq<char>>,
    sim: Seq<Seq<bool>>,
    docker: bool,
    n: nat,
) -> Seq<bool>
    decreases n,
{
    if n == 0 {
        seq![]
    } else {
        let k = sim_kept(ls, sim, docker, (n - 1) as nat);
        let i = n - 1;
        k.push(
            !blank(ls[i]) && (kept_always(ls, i, docker) || !exists|j: int|
                0 <= j < i && k[j] && #[trigger] sim[i][j]),
        )
    }
}

/// Which lines are kept when only exact duplicates are dropped.
pub open spec fn first_occurrence(ls: Seq<Seq<char>>, i: int) -> bool {
    !exists|j: int| 0 <= j < i && ls[j] == ls[i]
}

pub open spec fn select_flags(ls: Seq<Seq<char>>, flags: Seq<bool>) -> Seq<Seq<char>>
    decreases ls.len(),
{
    if ls.len() == 0 {
        seq![]
    } else {
        let p = select_flags(ls.drop_last(), flags);
        if flags[ls.len() - 1] {
            p.push(ls.last())
        } else {
            p
        }
    }
}

/// The deduplicated log lines: unchanged when all are blank; with the
/// similarity flags, the lines `sim_kept` keeps; without them, the first
/// occurrence of each line.
pub open spec fn dedup_logs_spec(
    ls: Seq<Seq<char>>,
    sim: Option<Seq<Seq<bool>>>,
    docker: bool,
) -> Seq<Seq<char>> {
    if forall|i: int| 0 <= i < ls.len() ==> blank(#[trigger] ls[i]) {
        ls
    } else {
        match sim {
            Some(m) => select_flags(ls, sim_kept(ls, m, docker, ls.len())),
            None => select_flags(ls, Seq::new(ls.len(), |i: int| first_occurrence(ls, i))),
        }
    }
}

proof fn lemma_sim_kept_len(ls: Seq<Seq<char>>, sim: Seq<Seq<bool>>, st: bool, n: nat)
    ensures
        sim_kept(ls, sim, st, n).len() == n,
    decreases n,
{
    if n > 0 {
        lemma_sim_kept_len(ls, sim, st, (n - 1) as nat);
    }
}

proof fn lemma_sim_kept_prefix(ls: Seq<Seq<char>>, sim: Seq<Seq<bool>>, st: bool, m: nat, n: nat)
    requires
        m <= n,
    ensures
        sim_kept(ls, sim, st, n).take(m as int) == sim_kept(ls, sim, st, m),
    decreases n,
{
    lemma_sim_kept_len(ls, sim, st, n);
    lemma_sim_kept_len(ls, sim, st, m);
    if m < n {
        lemma_sim_kept_prefix(ls, sim, st, m, (n - 1) as nat);
        lemma_sim_kept_len(ls, sim, st, (n - 1) as nat);
        assert(sim_kept(ls, sim, st, n).take(m as int) =~= sim_kept(ls, sim, st, (n - 1) as nat).take(
            m as int,
        ));
    } else {
        assert(sim_kept(ls, sim, st, n).take(m as int) =~= sim_kept(ls, sim, st, n));
    }
}

proof fn lemma_select_flags_step(ls: Seq<Seq<char>>, flags: Seq<bool>, i: int)
    requires
        0 <= i < ls.len(),
    ensures
        select_flags(ls.take(i + 1), flags) == if flags[i] {
            select_flags(ls.take(i), flags).push(ls[i])
        } else {
            select_flags(ls.take(i), flags)
        },
{
    assert(ls.take(i + 1).drop_last() =~= ls.take(i));
}

proof fn lemma_select_contains(ls: Seq<Seq<char>>, flags: Seq<bool>, i: int)
    requires
        0 <= i < ls.len(),
        flags[i],
    ensures
        select_flags(ls, flags).contains(ls[i]),
    decreases ls.len(),
{
    let p = select_flags(ls.drop_last(), flags);
    if i == ls.len() - 1 {
        assert(select_flags(ls, flags) == p.push(ls.last()));
        assert(p.push(ls.last())[p.len() as int] == ls[i]);
    } else {
        lemma_select_contains(ls.drop_last(), flags, i);
        assert(ls.drop_last()[i] == ls[i]);
        let k = choose|k: int| 0 <= k < p.len() && p[k] == ls[i];
        if flags[ls.len() - 1] {
            assert(p.push(ls.last())[k] == ls[i]);
        }
    }
}

proof fn lemma_first_occurrence_exists(ls: Seq<Seq<char>>, i: int)
    requires
        0 <= i < ls.len(),
    ensures
        exists|j: int| 0 <= j <= i && first_occurrence(ls, j) && ls[j] == ls[i],
    decreases i,
{
    if !first_occurrence(ls, i) {
        let j = choose|j: int| 0 <= j < i && ls[j] == ls[i];
        lemma_first_occurrence_exists(ls, j);
    }
}

/// Errors, panics, failures and (with `docker`) stack-trace lines and the
/// first and last five non-blank lines are never lost: whatever the
/// similarity flags, such a line appears in the deduplicated lines.
pub proof fn lemma_hard_kept_lines_survive(
    ls: Seq<Seq<char>>,
    sim: Option<Seq<Seq<bool>>>,
    docker: bool,
    i: int,
)
    requires
        0 <= i < ls.len(),
        !blank(ls[i]),
        kept_always(ls, i, docker),
    ensures
        dedup_logs_spec(ls, sim, docker).contains(ls[i]),
{
    assert(!blank(ls[i]));
    match sim {
        Some(m) => {
            let n = ls.len();
            lemma_sim_kept_len(ls, m, docker, n as nat);
            lemma_sim_kept_prefix(ls, m, docker, (i + 1) as nat, n as nat);
            lemma_sim_kept_len(ls, m, docker, (i + 1) as nat);
            assert(sim_kept(ls, m, docker, n as nat)[i] == sim_kept(ls, m, docker, (i + 1) as nat)[i]);
            lemma_select_contains(ls, sim_kept(ls, m, docker, n as nat), i);
        },
        None => {
            lemma_first_occurrence_exists(ls, i);
            let j = choose|j: int| 0 <= j <= i && first_occurrence(ls, j) && ls[j] == ls[i];
            let fl = Seq::new(ls.len(), |k: int| first_occurrence(ls, k));
            assert(fl[j]);
            lemma_select_contains(ls, fl, j);
        },
    }
}

fn hard_keep_log(line: &[char], docker: bool) -> (b: bool)
    ensures
        b == log_hard_keep(line@, docker),
{
    let s = string_of(line);
    let low = to_lowercase(s.as_str());
    let lv = chars_of(low.as_str());
    let l = lv.as_slice();
    contains_lit(l, "error") || contains_lit(l, "panic") || contains_lit(l, "fatal")
        || contains_lit(l, "exception") || contains_lit(l, "failed") || (docker && (
    contains_lit(l, "stack trace") || contains_lit(l, "caused by") || contains_lit(l, "at ")))
}

/// Deduplicate log lines: with `similar` (where `similar[i][j]` says line
/// `i` is too similar to line `j`), drop non-critical lines too similar to
/// an earlier kept one; without it, drop exact repeats. Lines come back in
/// their original order; when every line is blank all are kept.
pub fn dedup_log_lines(
    ls: &Vec<Vec<char>>,
    similar: Option<&Vec<Vec<bool>>>,
    docker: bool,
) -> (out: Vec<Vec<char>>)
    requires
        similar matches Some(m) ==> (m@.len() == ls@.len() && forall|i: int|
            0 <= i < m@.len() ==> #[trigger] m@[i]@.len() == ls@.len()),
    ensures
        views(out@) == dedup_logs_spec(
            views(ls@),
            match similar {
                Some(m) => Some(m@.map_values(|row: Vec<bool>| row@)),
                None => None,
            },
            docker,
        ),
{
    let ghost lv = views(ls@);
    let ghost nb = |l: Seq<char>| !blank(l);
    let n = ls.len();
    let mut i: usize = 0;
    let mut any = false;
    let mut total: usize = 0;
    while i < n
        invariant
            i <= n == ls.len(),
            lv == views(ls@),
            nb == (|l: Seq<char>| !blank(l)),
            total == lv.take(i as int).filter(nb).len(),
            total <= i,
            !any ==> forall|j: int| 0 <= j < i ==> blank(#[trigger] lv[j]),
            any ==> !(forall|j: int| 0 <= j < lv.len() ==> blank(#[trigger] lv[j])),
        decreases n - i,
    {
        assert(lv[i as int] == ls@[i as int]@);
        proof {
            crate::text::lemma_filter_take(lv, nb, i as int);
        }
        if !is_blank(ls[i].as_slice()) {
            any = true;
            total += 1;
        }
        i += 1;
    }
    assert(lv.take(n as int) =~= lv);
    assert(total == nonblank_before(lv, n as int));
    if !any {
        let mut out = no_lines();
        let mut k: usize = 0;
        while k < n
            invariant
                k <= n == ls.len(),
                views(out@) == views(ls@).take(k as int),
            decreases n - k,
        {
            push_line(&mut out, line_at(ls, k));
            assert(views(out@) =~= views(ls@).take(k + 1));
            k += 1;
        }
        assert(views(ls@).take(n as int) =~= views(ls@));
        return out;
    }
    match similar {
        Some(m) => {
            let ghost sv = m@.map_values(|row: Vec<bool>| row@);
            let ghost kf = sim_kept(lv, sv, docker, n as nat);
            proof {
                lemma_sim_kept_len(lv, sv, docker, n as nat);
            }
            let mut kept: Vec<bool> = Vec::new();
            let mut out = no_lines();
            let mut rank: usize = 0;
            let mut i: usize = 0;
            while i < n
                invariant
                    i <= n == ls.len(),
                    lv == views(ls@),
                    nb == (|l: Seq<char>| !blank(l)),
                    total == nonblank_before(lv, n as int),
                    rank == nonblank_before(lv, i as int),
                    rank <= i,
                    m@.len() == n,
                    forall|q: int| 0 <= q < m@.len() ==> #[trigger] m@[q]@.len() == n,
                    sv == m@.map_values(|row: Vec<bool>| row@),
                    kf == sim_kept(lv, sv, docker, n as nat),
                    kf.len() == n,
                    kept@ == kf.take(i as int),
                    views(out@) == select_flags(lv.take(i as int), kf),
                decreases n - i,
            {
                proof {
                    lemma_sim_kept_prefix(lv, sv, docker, (i + 1) as nat, n as nat);
                    lemma_sim_kept_prefix(lv, sv, docker, i as nat, n as nat);
                    lemma_select_flags_step(lv, kf, i as int);
                    crate::text::lemma_filter_take(lv, nb, i as int);
                }
                assert(lv[i as int] == ls@[i as int]@);
                let line = ls[i].as_slice();
                let edge = rank < 5 || total < 5 || rank >= total - 5;
                assert(edge == edge_line(lv, i as int));
                let mut keep = false;
                if !is_blank(line) {
                    if hard_keep_log(line, docker) || (docker && edge) {
                        keep = true;
                    } else {
                        let mut dup = false;
                        let mut j: usize = 0;
                        while j < i
                            invariant
                                j <= i < n,
                                m@.len() == n,
                                forall|q: int| 0 <= q < m@.len() ==> #[trigger] m@[q]@.len() == n,
                                sv == m@.map_values(|row: Vec<bool>| row@),
                                kept@ == kf.take(i as int),
                                kf.len() == n,
                                dup == exists|q: int| 0 <= q < j && kf.take(i as int)[q] && #[trigger] sv[i as int][q],
                            decreases i - j,
                        {
                            assert(sv[i as int] == m@[i as int]@);
                            if kept[j] && m[i][j] {
                                dup = true;
                            }
                            j += 1;
                        }
                        keep = !dup;
                    }
                }
                assert(kf[i as int] == kf.take(i + 1)[i as int]);
                assert(kf.take(i + 1)[i as int] == (!blank(lv[i as int]) && (kept_always(
                    lv,
                    i as int,
                    docker,
                ) || !exists|j: int| 0 <= j < i && kf.take(i as int)[j] && #[trigger] sv[i as int][j])));
                assert(kf[i as int] == keep);
                kept.push(keep);
                assert(kept@ =~= kf.take(i + 1));
                if keep {
                    push_line(&mut out, line_at(ls, i));
                }
                if !is_blank(line) {
                    rank += 1;
                }
                i += 1;
            }
            assert(lv.take(n as int) =~= lv);
            out
        },
        None => {
            let ghost fl = Seq::new(n as nat, |i: int| first_occurrence(lv, i));
            let mut out = no_lines();
            let mut i: usize = 0;
            while i < n
                invariant
                    i <= n == ls.len(),
                    lv == views(ls@),
                    fl == Seq::new(n as nat, |i: int| first_occurrence(lv, i)),
                    views(out@) == select_flags(lv.take(i as int), fl),
                decreases n - i,
            {
                proof {
                    lemma_select_flags_step(lv, fl, i as int);
                }
                let mut seen = false;
                let mut j: usize = 0;
                while j < i
                    invariant
                        j <= i < n == ls.len(),
                        lv == views(ls@),
                        seen == exists|q: int| 0 <= q < j && #[trigger] lv[q] == lv[i as int],
                    decreases i - j,
                {
                    assert(lv[j as int] == ls@[j as int]@);
                    assert(lv[i as int] == ls@[i as int]@);
                    if eq_chars(ls[j].as_slice(), ls[i].as_slice()) {
                        seen = true;
                    }
                    j += 1;
                }
                if !seen {
                    push_line(&mut out, line_at(ls, i));
                }
                i += 1;
            }
            assert(lv.take(n as int) =~= lv);
            out
        },
    }
}

/// `"\n[N duplicate lines collapsed by semantic dedup]"` after the lines when
/// any were dropped.
pub open spec fn logs_spec(output: Seq<char>, sim: Option<Seq<Seq<bool>>>) -> Seq<char> {
    let ls = lines(output);
    let d = dedup_logs_spec(ls, sim, true);
    let body = join(d, seq!['\n']);
    if d.len() < ls.len() {
        body + seq!['\n'] + "["@ + decimal((ls.len() - d.len()) as nat)
            + " duplicate lines collapsed by semantic dedup]"@
    } else {
        body
    }
}

pub proof fn lemma_select_flags_len(ls: Seq<Seq<char>>, flags: Seq<bool>)
    ensures
        select_flags(ls, flags).len() <= ls.len(),
    decreases ls.len(),
{
    if ls.len() > 0 {
        lemma_select_flags_len(ls.drop_last(), flags);
    }
}

/// Deduplicate `docker logs` output given the similarity flags of its
/// lines (or `None`), noting how many lines were dropped.
pub fn filter_logs_with(output: &str, similar: Option<&Vec<Vec<bool>>>) -> (r: String)
    requires
        similar matches Some(m) ==> (m@.len() == lines(output@).len() && forall|i: int|
            0 <= i < m@.len() ==> #[trigger] m@[i]@.len() == lines(output@).len()),
    ensures
        r@ == logs_spec(
            output@,
            match similar {
                Some(m) => Some(m@.map_values(|row: Vec<bool>| row@)),
                None => None,
            },
        ),
{
    let ls = output_lines(output);
    assert(views(ls@).len() == ls@.len());
    let d = dedup_log_lines(&ls, similar, true);
    assert(views(d@).len() == d@.len());
    proof {
        lemma_select_flags_len(views(ls@), Seq::new(ls@.len(), |i: int| first_occurrence(views(ls@), i)));
        match similar {
            Some(m) => {
                lemma_select_flags_len(views(ls@), sim_kept(views(ls@), m@.map_values(|row: Vec<bool>| row@), true, ls@.len()));
            },
            None => {},
        }
    }
    let mut text = crate::text::join_lines(&d);
    if d.len() < ls.len() {
        text.push('\n');
        push_str(&mut text, "[");
        push_decimal(&mut text, ls.len() - d.len());
        push_str(&mut text, " duplicate lines collapsed by semantic dedup]");
    }
    string_of(text.as_slice())
}

// ───────────────────────────── ps / images ─────────────────────────────

/// Start of the last `"  "` in `s`, or 0.
pub open spec fn rfind_two_spaces(s: Seq<char>) -> int
    decreases s.len(),
{
    if s.len() < 2 {
        0
    } else if s[s.len() - 2] == ' ' && s[s.len() - 1] == ' ' {
        s.len() - 2
    } else {
        rfind_two_spaces(s.drop_last())
    }
}

/// A `docker ps` data row: `name [status] ports`.
pub open spec fn ps_row(line: Seq<char>) -> Seq<char> {
    let parts = words(line);
    if parts.len() >= 5 {
        parts.last() + " ["@ + parts[4] + "] "@ + trim(line.skip(rfind_two_spaces(line)))
    } else {
        line
    }
}

/// `docker ps` output: the header, then each non-blank row compacted.
pub open spec fn ps_spec(output: Seq<char>) -> Seq<char> {
    table_spec(output, false)
}

/// The header (fixed for `images`, the first line for `ps`), then each
/// non-blank row compacted.
pub open spec fn table_spec(output: Seq<char>, images: bool) -> Seq<char> {
    let ls = lines(output);
    if ls.len() == 0 {
        output
    } else {
        join(
            seq![
                if images {
                    "REPOSITORY           TAG       SIZE"@
                } else {
                    ls[0]
                },
            ] + ls.skip(1).filter(|l: Seq<char>| !blank(l)).map_values(
                |l: Seq<char>|
                    if images {
                        image_row(l)
                    } else {
                        ps_row(l)
                    },
            ),
            seq!['\n'],
        )
    }
}

pub open spec fn spaces(n: nat) -> Seq<char> {
    Seq::new(n, |i: int| ' ')
}

/// Left-aligned in a field of `w` characters.
pub open spec fn pad(s: Seq<char>, w: nat) -> Seq<char> {
    if s.len() >= w {
        s
    } else {
        s + spaces((w - s.len()) as nat)
    }
}

/// A `docker images` data row: repository, tag and size.
pub open spec fn image_row(line: Seq<char>) -> Seq<char> {
    let parts = words(line);
    if parts.len() >= 7 {
        pad(parts[0], 20) + " "@ + pad(parts[1], 9) + " "@ + parts.last()
    } else {
        line
    }
}

/// `docker images` output: a fixed header, then each non-blank row reduced
/// to repository, tag and size.
pub open spec fn images_spec(output: Seq<char>) -> Seq<char> {
    table_spec(output, true)
}

fn rfind_two(s: &[char]) -> (r: usize)
    ensures
        r == rfind_two_spaces(s@),
{
    let mut k: usize = s.len();
    assert(s@.take(k as int) =~= s@);
    while k >= 2
        invariant
            k <= s.len(),
            rfind_two_spaces(s@) == rfind_two_spaces(s@.take(k as int)),
        decreases k,
    {
        let ghost t = s@.take(k as int);
        if s[k - 2] == ' ' && s[k - 1] == ' ' {
            assert(t[t.len() - 2] == s@[k - 2]);
            return k - 2;
        }
        assert(t.drop_last() =~= s@.take(k - 1));
        k -= 1;
    }
    0
}

fn ps_line(line: &[char]) -> (r: Vec<char>)
    ensures
        r@ == ps_row(line@),
{
    let parts = words_of(line);
    assert(views(parts@).len() == parts@.len());
    if parts.len() >= 5 {
        assert(views(parts@)[4] == parts@[4]@);
        assert(views(parts@).last() == parts@[parts.len() - 1]@);
        let mut out: Vec<char> = Vec::new();
        push_all(&mut out, parts[parts.len() - 1].as_slice());
        push_str(&mut out, " [");
        push_all(&mut out, parts[4].as_slice());
        push_str(&mut out, "] ");
        let start = rfind_two(line);
        proof {
            if line@.len() >= 2 {
            }
        }
        assert(start <= line.len()) by {
            lemma_rfind_two_bound(line@);
        }
        let rest = slice(line, start, line.len());
        assert(rest@ =~= line@.skip(start as int));
        let t = trim_of(rest.as_slice());
        push_all(&mut out, t.as_slice());
        out
    } else {
        crate::text::slice(line, 0, line.len())
    }
}

proof fn lemma_rfind_two_bound(s: Seq<char>)
    ensures
        0 <= rfind_two_spaces(s) <= s.len(),
    decreases s.len(),
{
    if s.len() >= 2 && !(s[s.len() - 2] == ' ' && s[s.len() - 1] == ' ') {
        lemma_rfind_two_bound(s.drop_last());
    }
}

fn push_padded(out: &mut Vec<char>, s: &[char], w: usize)
    ensures
        final(out)@ == old(out)@ + pad(s@, w as nat),
{
    push_all(out, s);
    if s.len() < w {
        let mut k = s.len();
        while k < w
            invariant
                s.len() <= k <= w,
                out@ == old(out)@ + s@ + spaces((k - s.len()) as nat),
            decreases w - k,
        {
            out.push(' ');
            assert(spaces((k - s.len()) as nat).push(' ') =~= spaces((k + 1 - s.len()) as nat));
            k += 1;
        }
        assert(old(out)@ + s@ + spaces((w - s.len()) as nat) =~= old(out)@ + (s@ + spaces(
            (w - s.len()) as nat,
        )));
    } else {
        assert(old(out)@ + s@ =~= old(out)@ + pad(s@, w as nat));
    }
}

fn image_line(line: &[char]) -> (r: Vec<char>)
    ensures
        r@ == image_row(line@),
{
    let parts = words_of(line);
    assert(views(parts@).len() == parts@.len());
    if parts.len() >= 7 {
        assert(views(parts@)[0] == parts@[0]@);
        assert(views(parts@)[1] == parts@[1]@);
        assert(views(parts@).last() == parts@[parts.len() - 1]@);
        let mut out: Vec<char> = Vec::new();
        push_padded(&mut out, parts[0].as_slice(), 20);
        push_str(&mut out, " ");
        push_padded(&mut out, parts[1].as_slice(), 9);
        push_str(&mut out, " ");
        push_all(&mut out, parts[parts.len() - 1].as_slice());
        out
    } else {
        crate::text::slice(line, 0, line.len())
    }
}

/// Header handling and per-row compaction shared by `ps` and `images`.
fn table_rows(output: &str, images: bool) -> (r: String)
    ensures
        r@ == table_spec(output@, images),
{
    let ls = output_lines(output);
    let ghost lv = views(ls@);
    assert(lv.len() == ls@.len());
    if ls.len() == 0 {
        return output.to_owned();
    }
    let ghost rest = lv.skip(1);
    let ghost nb = |l: Seq<char>| !blank(l);
    let ghost row = |l: Seq<char>| if images {
        image_row(l)
    } else {
        ps_row(l)
    };
    let mut out = no_lines();
    if images {
        push_lit_line(&mut out, "REPOSITORY           TAG       SIZE");
    } else {
        push_line(&mut out, line_at(&ls, 0));
    }
    let ghost first = views(out@);
    let mut i: usize = 1;
    while i < ls.len()
        invariant
            1 <= i <= ls.len(),
            lv == views(ls@),
            rest == lv.skip(1),
            nb == (|l: Seq<char>| !blank(l)),
            row == (|l: Seq<char>| if images {
                image_row(l)
            } else {
                ps_row(l)
            }),
            views(out@) == first + rest.take(i - 1).filter(nb).map_values(row),
        decreases ls.len() - i,
    {
        proof {
            crate::text::lemma_filter_take(rest, nb, i - 1);
        }
        assert(rest[i - 1] == ls@[i as int]@);
        if !is_blank(ls[i].as_slice()) {
            let r = if images {
                image_line(ls[i].as_slice())
            } else {
                ps_line(ls[i].as_slice())
            };
            push_line(&mut out, r);
        }
        assert(views(out@) =~= first + rest.take(i as int).filter(nb).map_values(row));
        i += 1;
    }
    assert(rest.take(ls.len() - 1) =~= rest);
    assert(views(out@) =~= first + rest.filter(nb).map_values(row));
    joined(&out)
}

/// The `docker` output after dispatch on the subcommand (looking through
/// `compose` and `stack`), given the log similarity flags (or `None`).
pub open spec fn docker_filter_spec(
    output: Seq<char>,
    args: Seq<String>,
    sim: Option<Seq<Seq<bool>>>,
) -> Seq<char> {
    let sub = arg(args, 1);
    let eff = if sub == "compose"@ || sub == "stack"@ {
        arg(args, 2)
    } else {
        sub
    };
    if eff == "logs"@ {
        logs_spec(output, sim)
    } else if eff == "ps"@ {
        ps_spec(output)
    } else if eff == "images"@ {
        images_spec(output)
    } else {
        output
    }
}

/// Filter `docker` output given the log similarity flags (or `None`).
pub fn filter_docker_with(output: &str, args: &[String], similar: Option<&Vec<Vec<bool>>>) -> (r:
    String)
    requires
        similar matches Some(m) ==> (m@.len() == lines(output@).len() && forall|i: int|
            0 <= i < m@.len() ==> #[trigger] m@[i]@.len() == lines(output@).len()),
    ensures
        r@ == docker_filter_spec(
            output@,
            args@,
            match similar {
                Some(m) => Some(m@.map_values(|row: Vec<bool>| row@)),
                None => None,
            },
        ),
{
    let sub = arg_chars(args, 1);
    let eff = if eq_lit(sub.as_slice(), "compose") || eq_lit(sub.as_slice(), "stack") {
        arg_chars(args, 2)
    } else {
        sub
    };
    let e = eff.as_slice();
    if eq_lit(e, "logs") {
        filter_logs_with(output, similar)
    } else if eq_lit(e, "ps") {
        table_rows(output, false)
    } else if eq_lit(e, "images") {
        table_rows(output, true)
    } else {
        output.to_owned()
    }
}

/// `docker logs` gets `--tail 200` after the subcommand unless `--tail` is
/// given.
pub open spec fn docker_args(args: Seq<String>) -> Seq<Seq<char>> {
    if arg(args, 1) == "logs"@ && !has_arg(args, "--tail"@) {
        strs(args).insert(2, "200"@).insert(2, "--tail"@)
    } else {
        strs(args)
    }
}

/// Rewriting the arguments a second time changes nothing.
pub proof fn lemma_docker_args_once(args: Seq<String>, r: Seq<String>)
    requires
        strs(r) == docker_args(args),
    ensures
        docker_args(r) == strs(r),
{
    assert(r.len() == strs(r).len() && args.len() == strs(args).len());
    if arg(args, 1) == "logs"@ && !has_arg(args, "--tail"@) {
        reveal_strlit("logs");
        assert("logs"@.len() == 4);
        assert(args.len() >= 2);
        assert(strs(r)[1] == r[1]@ && strs(args)[1] == args[1]@);
        assert(strs(r)[2] == r[2]@);
        lemma_arg_at(r, 2);
    } else {
        lemma_same_args(r, args, "--tail"@);
        if 1 < args.len() {
            assert(strs(r)[1] == r[1]@ && strs(args)[1] == args[1]@);
        }
    }
}

impl Handler for DockerHandler {
    /// `docker logs` gets `--tail 200` unless `--tail` is given.
    fn rewrite_args(&self, args: &[String]) -> (r: Vec<String>)
        ensures
            strs(r@) == docker_args(args@),
    {
        let sub = arg_chars(args, 1);
        proof {
            reveal_strlit("logs");
        }
        if eq_lit(sub.as_slice(), "logs") && !any_arg_is(args, "--tail") {
            assert(sub@.len() == 4);
            assert(args@.len() >= 2);
            let mut out = clone_args(args);
            out.insert(2, "200".to_owned());
            out.insert(2, "--tail".to_owned());
            assert(strs(out@) =~= strs(args@).insert(2, "200"@).insert(2, "--tail"@));
            return out;
        }
        clone_args(args)
    }

    /// Without similarity flags, log deduplication drops exact repeats.
    fn filter(&self, output: &str, args: &[String]) -> (r: String)
        ensures
            r@ == docker_filter_spec(output@, args@, None),
    {
        filter_docker_with(output, args, None)
    }
}

} // verus!
