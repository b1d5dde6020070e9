//! Line-level and sentence-level summarisation.
//!
//! Scoring lines or sentences by their distance from the centroid of their
//! embeddings is floating-point work done outside this library; it arrives
//! here as a ranking: the indices whose outlier score reaches 40% of the
//! best, best first. Everything that follows the ranking — hard-keeps,
//! budget filling, ordering and omission markers — is done and proved here.
use vstd::prelude::*;
use crate::outside::{
    alphabetic, alphanumeric, is_alphabetic, is_alphanumeric, lowercase, regex_is_match,
    regex_match, to_lowercase,
};
use crate::sentence::{sentences, split_sentence_chars};
use crate::text::{
    blank, chars_of, contains, contains_lit, decimal, ends_with, ends_lit, has_char,
    is_ascii_digit, is_blank, is_digit, join, join_lines, join_with, lemma_lines_join_len,
    lemma_lines_no_newline, lemma_views_push, lines,
    lines_of, push_decimal, push_str, string_of, trim, trim_of, views, words, words_of,
};

verus! {

/// Result of summarising command output.
pub struct SummarizeResult {
    pub output: String,
    pub lines_in: usize,
    pub lines_out: usize,
    pub omitted: usize,
}

/// Result of summarising a conversation message.
pub struct MessageSummarizeResult {
    pub output: String,
    pub sentences_in: usize,
    pub sentences_out: usize,
}

// ───────────────────────────── line-level specifications ─────────────────────────────

/// A line that is always kept.
pub open spec fn critical_output_line(line: Seq<char>) -> bool {
    regex_is_match(
        "(?i)(error|warning|warn|failed|failure|fatal|panic|exception|critical|FAILED|ERROR|WARNING)"@,
        line,
    ) == Some(true)
}

/// `[... N lines omitted ...]`
pub open spec fn omission_marker(n: nat) -> Seq<char> {
    "[... "@ + decimal(n) + " lines omitted ...]"@
}

pub open spec fn min(a: int, b: int) -> int {
    if a <= b {
        a
    } else {
        b
    }
}

/// Head half of the budget, an omission marker, then the tail half.
pub open spec fn headtail_lines(ls: Seq<Seq<char>>, budget: nat) -> Seq<Seq<char>> {
    let total = ls.len() as int;
    let head = (budget / 2) as int;
    let tail = budget - head;
    let omitted = if total >= head + tail {
        total - (head + tail)
    } else {
        0
    };
    let h = ls.take(min(head, total));
    let t = if tail > 0 && total > head {
        ls.skip(if total >= tail {
            total - tail
        } else {
            0
        })
    } else {
        seq![]
    };
    h + seq![omission_marker(omitted as nat)] + t
}

/// Number of `true` flags.
pub open spec fn count_true(m: Seq<bool>) -> nat
    decreases m.len(),
{
    if m.len() == 0 {
        0
    } else {
        count_true(m.drop_last()) + if m.last() {
            1nat
        } else {
            0nat
        }
    }
}

/// Selection state while filling the budget from the ranking.
pub struct Selection {
    pub mask: Seq<bool>,
    pub done: bool,
}

/// Take the next ranked index unless the budget is already full.
pub open spec fn select_step(budget: nat, st: Selection, idx: usize) -> Selection {
    if st.done || count_true(st.mask) >= budget {
        Selection { mask: st.mask, done: true }
    } else {
        Selection { mask: st.mask.update(idx as int, true), done: false }
    }
}

/// Hard-kept flags, then the ranking taken in order until the budget is full.
pub open spec fn select_mask(keep: Seq<bool>, budget: nat, ranked: Seq<usize>) -> Seq<bool> {
    ranked.fold_left(
        Selection { mask: keep, done: false },
        |st: Selection, idx: usize| select_step(budget, st, idx),
    ).mask
}

/// The kept lines from index `k` on, in order, with an omission marker for
/// every gap; `prev` is the last kept index so far (or -1).
pub open spec fn render(ls: Seq<Seq<char>>, mask: Seq<bool>, k: int, prev: int) -> Seq<Seq<char>>
    decreases ls.len() - k,
{
    if k < 0 || k >= ls.len() {
        if prev >= 0 && ls.len() - prev - 1 > 0 {
            seq![omission_marker((ls.len() - prev - 1) as nat)]
        } else {
            seq![]
        }
    } else if mask[k] {
        let gap = if prev >= 0 {
            k - prev - 1
        } else {
            k
        };
        (if gap > 0 {
            seq![omission_marker(gap as nat)]
        } else {
            seq![]
        }) + seq![ls[k]] + render(ls, mask, k + 1, k)
    } else {
        render(ls, mask, k + 1, prev)
    }
}

pub open spec fn critical_mask(ls: Seq<Seq<char>>) -> Seq<bool> {
    ls.map_values(|l: Seq<char>| critical_output_line(l))
}

/// Critical lines and the best-ranked lines within the budget, in their
/// original order, with omission markers for the gaps.
pub open spec fn ranked_lines(ls: Seq<Seq<char>>, budget: nat, ranked: Seq<usize>) -> Seq<
    Seq<char>,
> {
    let b = min(budget as int, ls.len() as int) as nat;
    render(ls, select_mask(critical_mask(ls), b, ranked), 0, -1)
}

pub open spec fn all_blank(ls: Seq<Seq<char>>) -> bool {
    forall|i: int| 0 <= i < ls.len() ==> blank(#[trigger] ls[i])
}

/// The summary of the lines: unchanged when every line is blank; otherwise
/// ranked selection when a ranking is at hand, head and tail when not.
pub open spec fn summary_lines(ls: Seq<Seq<char>>, budget: nat, ranking: Option<Seq<usize>>) -> Seq<
    Seq<char>,
> {
    if all_blank(ls) {
        ls
    } else {
        match ranking {
            Some(rk) => ranked_lines(ls, budget, rk),
            None => headtail_lines(ls, budget),
        }
    }
}

pub open spec fn summary_text(text: Seq<char>, budget: nat, ranking: Option<Seq<usize>>) -> Seq<
    char,
> {
    join(summary_lines(lines(text), budget, ranking), seq!['\n'])
}

// ───────────────────────────── lemmas ─────────────────────────────

proof fn lemma_count_true_update(m: Seq<bool>, i: int)
    requires
        0 <= i < m.len(),
        !m[i],
    ensures
        count_true(m.update(i, true)) == count_true(m) + 1,
    decreases m.len(),
{
    if i < m.len() - 1 {
        lemma_count_true_update(m.drop_last(), i);
        assert(m.update(i, true).drop_last() =~= m.drop_last().update(i, true));
    } else {
        assert(m.update(i, true).drop_last() =~= m.drop_last());
    }
}

proof fn lemma_count_true_le(m: Seq<bool>)
    ensures
        count_true(m) <= m.len(),
    decreases m.len(),
{
    if m.len() > 0 {
        lemma_count_true_le(m.drop_last());
    }
}

proof fn lemma_count_true_push(m: Seq<bool>, b: bool)
    ensures
        count_true(m.push(b)) == count_true(m) + if b {
            1nat
        } else {
            0nat
        },
{
    assert(m.push(b).drop_last() =~= m);
}

/// The kept lines always include every critical line.
pub proof fn lemma_select_keeps(keep: Seq<bool>, budget: nat, ranked: Seq<usize>, i: int)
    requires
        0 <= i < keep.len(),
        keep[i],
        forall|k: int| 0 <= k < ranked.len() ==> ranked[k] < keep.len(),
    ensures
        select_mask(keep, budget, ranked)[i],
        select_mask(keep, budget, ranked).len() == keep.len(),
    decreases ranked.len(),
{
    let f = |st: Selection, idx: usize| select_step(budget, st, idx);
    if ranked.len() > 0 {
        lemma_select_keeps(keep, budget, ranked.drop_last(), i);
    }
}

// ───────────────────────────── line-level code ─────────────────────────────

fn is_critical_output(line: &[char]) -> (b: bool)
    ensures
        b == critical_output_line(line@),
{
    let s = string_of(line);
    match regex_match(
        "(?i)(error|warning|warn|failed|failure|fatal|panic|exception|critical|FAILED|ERROR|WARNING)",
        s.as_str(),
    ) {
        Some(m) => m,
        None => false,
    }
}

fn omission(n: usize) -> (m: Vec<char>)
    ensures
        m@ == omission_marker(n as nat),
{
    let mut m: Vec<char> = Vec::new();
    push_str(&mut m, "[... ");
    push_decimal(&mut m, n);
    push_str(&mut m, " lines omitted ...]");
    m
}

fn push_line(out: &mut Vec<Vec<char>>, l: Vec<char>)
    ensures
        views(final(out)@) == views(old(out)@).push(l@),
{
    proof {
        lemma_views_push(out@, l);
    }
    out.push(l);
}

/// Head half of the budget, an omission marker, then the tail half.
pub fn summarize_headtail(ls: &Vec<Vec<char>>, budget: usize) -> (out: Vec<Vec<char>>)
    ensures
        views(out@) == headtail_lines(views(ls@), budget as nat),
{
    let total = ls.len();
    let head = budget / 2;
    let tail = budget - head;
    let omitted = total.saturating_sub(head + tail);
    let mut out: Vec<Vec<char>> = Vec::new();
    let hm = if head < total {
        head
    } else {
        total
    };
    let mut i: usize = 0;
    while i < hm
        invariant
            i <= hm <= total == ls.len(),
            views(out@) == views(ls@).take(i as int),
        decreases hm - i,
    {
        assert(views(ls@)[i as int] == ls@[i as int]@);
        push_line(&mut out, ls[i].clone());
        assert(views(ls@).take(i + 1) =~= views(ls@).take(i as int).push(views(ls@)[i as int]));
        i += 1;
    }
    push_line(&mut out, omission(omitted));
    let ghost base = views(out@);
    if tail > 0 && total > head {
        let start = total.saturating_sub(tail);
        let mut k = start;
        while k < total
            invariant
                start <= k <= total == ls.len(),
                views(out@) == base + views(ls@).subrange(start as int, k as int),
            decreases total - k,
        {
            assert(views(ls@)[k as int] == ls@[k as int]@);
            push_line(&mut out, ls[k].clone());
            assert(views(ls@).subrange(start as int, k + 1) =~= views(ls@).subrange(
                start as int,
                k as int,
            ).push(views(ls@)[k as int]));
            k += 1;
        }
        assert(views(ls@).subrange(start as int, total as int) =~= views(ls@).skip(start as int));
    } else {
        assert(views(out@) =~= base + Seq::<Seq<char>>::empty());
    }
    out
}

/// Critical lines and the best-ranked lines within the budget, in their
/// original order, with omission markers for the gaps.
///
/// `ranked` holds indices of non-blank lines whose outlier score reaches 40%
/// of the best score, best first.
pub fn summarize_ranked(ls: &Vec<Vec<char>>, budget: usize, ranked: &[usize]) -> (out: Vec<
    Vec<char>,
>)
    requires
        forall|k: int| 0 <= k < ranked@.len() ==> ranked@[k] < ls.len(),
    ensures
        views(out@) == ranked_lines(views(ls@), budget as nat, ranked@),
{
    let total = ls.len();
    let b = if budget < total {
        budget
    } else {
        total
    };
    let ghost lv = views(ls@);
    let ghost keep = critical_mask(lv);
    let mut mask: Vec<bool> = Vec::new();
    let mut count: usize = 0;
    let mut i: usize = 0;
    while i < total
        invariant
            i <= total == ls.len(),
            lv == views(ls@),
            keep == critical_mask(lv),
            mask@ == keep.take(i as int),
            count == count_true(mask@),
            count <= i,
        decreases total - i,
    {
        assert(lv[i as int] == ls@[i as int]@);
        let c = is_critical_output(ls[i].as_slice());
        proof {
            lemma_count_true_push(mask@, c);
        }
        mask.push(c);
        if c {
            count += 1;
        }
        assert(mask@ =~= keep.take(i + 1));
        i += 1;
    }
    assert(keep.take(total as int) =~= keep);
    let ghost f = |st: Selection, idx: usize| select_step(b as nat, st, idx);
    let ghost init = Selection { mask: keep, done: false };
    let mut done = false;
    let mut k: usize = 0;
    while k < ranked.len()
        invariant
            k <= ranked.len(),
            forall|q: int| 0 <= q < ranked@.len() ==> ranked@[q] < total,
            total == ls.len(),
            keep.len() == total,
            b <= total,
            f == (|st: Selection, idx: usize| select_step(b as nat, st, idx)),
            init == (Selection { mask: keep, done: false }),
            mask@.len() == total,
            count == count_true(mask@),
            count <= total,
            ranked@.take(k as int).fold_left(init, f) == (Selection { mask: mask@, done: done }),
        decreases ranked.len() - k,
    {
        proof {
            lemma_fold_take_sel(ranked@, init, f, k as int);
        }
        if !done && count < b {
            let idx = ranked[k];
            if !mask[idx] {
                proof {
                    lemma_count_true_update(mask@, idx as int);
                }
                mask.set(idx, true);
                count += 1;
            } else {
                assert(mask@.update(idx as int, true) =~= mask@);
            }
        } else {
            done = true;
        }
        k += 1;
    }
    assert(ranked@.take(ranked.len() as int) =~= ranked@);
    let ghost m = mask@;
    assert(m == select_mask(keep, b as nat, ranked@));
    let mut out: Vec<Vec<char>> = Vec::new();
    let mut prev: usize = 0;
    let mut has_prev = false;
    let mut k: usize = 0;
    while k < total
        invariant
            k <= total == ls.len(),
            lv == views(ls@),
            m == mask@,
            mask@.len() == total,
            has_prev ==> prev < k,
            views(out@) + render(lv, m, k as int, if has_prev {
                prev as int
            } else {
                -1
            }) == render(lv, m, 0, -1),
        decreases total - k,
    {
        let ghost pv: int = if has_prev {
            prev as int
        } else {
            -1
        };
        let ghost o0 = views(out@);
        if mask[k] {
            let gap = if has_prev {
                k - prev - 1
            } else {
                k
            };
            if gap > 0 {
                push_line(&mut out, omission(gap));
            }
            assert(lv[k as int] == ls@[k as int]@);
            push_line(&mut out, ls[k].clone());
            prev = k;
            has_prev = true;
            assert(render(lv, m, k as int, pv) == (if gap > 0 {
                seq![omission_marker(gap as nat)]
            } else {
                seq![]
            }) + seq![lv[k as int]] + render(lv, m, k + 1, k as int));
            assert(views(out@) + render(lv, m, k + 1, k as int) =~= o0 + render(
                lv,
                m,
                k as int,
                pv,
            ));
        }
        k += 1;
    }
    let ghost pv: int = if has_prev {
        prev as int
    } else {
        -1
    };
    let ghost o0 = views(out@);
    if has_prev && total - prev - 1 > 0 {
        push_line(&mut out, omission(total - prev - 1));
    }
    assert(views(out@) =~= o0 + render(lv, m, total as int, pv));
    out
}

proof fn lemma_fold_take_sel(
    s: Seq<usize>,
    b: Selection,
    f: spec_fn(Selection, usize) -> Selection,
    i: int,
)
    requires
        0 <= i < s.len(),
    ensures
        s.take(i + 1).fold_left(b, f) == f(s.take(i).fold_left(b, f), s[i]),
{
    assert(s.take(i + 1).drop_last() =~= s.take(i));
}

/// Summarise lines once the ranking is known: lines unchanged when all are
/// blank; ranked selection with a ranking; head and tail without one.
pub fn summarize_lines(ls: &Vec<Vec<char>>, budget: usize, ranking: Option<&[usize]>) -> (out: Vec<
    Vec<char>,
>)
    requires
        ranking matches Some(rk) ==> forall|k: int| 0 <= k < rk@.len() ==> rk@[k] < ls.len(),
    ensures
        views(out@) == summary_lines(
            views(ls@),
            budget as nat,
            match ranking {
                Some(rk) => Some(rk@),
                None => None,
            },
        ),
{
    let mut i: usize = 0;
    let mut any = false;
    while i < ls.len()
        invariant
            i <= ls.len(),
            !any ==> forall|j: int| 0 <= j < i ==> blank(#[trigger] views(ls@)[j]),
            any ==> !all_blank(views(ls@)),
        decreases ls.len() - i,
    {
        assert(views(ls@)[i as int] == ls@[i as int]@);
        if !is_blank(ls[i].as_slice()) {
            any = true;
        }
        i += 1;
    }
    if !any {
        let mut out: Vec<Vec<char>> = Vec::new();
        let mut k: usize = 0;
        while k < ls.len()
            invariant
                k <= ls.len(),
                views(out@) == views(ls@).take(k as int),
            decreases ls.len() - k,
        {
            assert(views(ls@)[k as int] == ls@[k as int]@);
            push_line(&mut out, ls[k].clone());
            assert(views(ls@).take(k + 1) =~= views(ls@).take(k as int).push(views(ls@)[k as int]));
            k += 1;
        }
        assert(views(ls@).take(ls.len() as int) =~= views(ls@));
        return out;
    }
    match ranking {
        Some(rk) => summarize_ranked(ls, budget, rk),
        None => summarize_headtail(ls, budget),
    }
}

/// Summarise command output to about `budget_lines` lines once the ranking
/// of its non-blank lines is known (`None` when no ranking could be made).
pub fn summarize_with(text: &str, budget_lines: usize, ranking: Option<&[usize]>) -> (r:
    SummarizeResult)
    requires
        ranking matches Some(rk) ==> forall|k: int|
            0 <= k < rk@.len() ==> rk@[k] < lines(text@).len(),
    ensures
        r.output@ == summary_text(
            text@,
            budget_lines as nat,
            match ranking {
                Some(rk) => Some(rk@),
                None => None,
            },
        ),
        r.lines_in == lines(text@).len(),
        r.lines_out == lines(r.output@).len(),
        r.omitted == if r.lines_in >= r.lines_out {
            r.lines_in - r.lines_out
        } else {
            0
        },
{
    let v = chars_of(text);
    let ls = lines_of(v.as_slice());
    assert(ls@.len() == views(ls@).len());
    let lines_in = ls.len();
    let out = summarize_lines(&ls, budget_lines, ranking);
    let joined = join_lines(&out);
    let out_lines = lines_of(joined.as_slice());
    assert(out_lines@.len() == views(out_lines@).len());
    let lines_out = out_lines.len();
    let omitted = lines_in.saturating_sub(lines_out);
    SummarizeResult { output: string_of(joined.as_slice()), lines_in, lines_out, omitted }
}

/// A ranking of `n` lines by position: the first half of the budget from
/// the top, then the rest from the bottom up.
pub open spec fn headtail_ranking(n: nat, budget: nat) -> Seq<usize> {
    let h = min((budget / 2) as int, n as int);
    Seq::new(n, |k: int| if k < h { k as usize } else { (n - 1 - (k - h)) as usize })
}

/// Summarise command output to about `budget_lines` lines without a ranking
/// by meaning: critical lines are always kept, the rest of the budget is
/// filled from the head and the tail, the budget is capped at the number of
/// lines, and the gaps get omission markers.
pub fn summarize(text: &str, budget_lines: usize) -> (r: SummarizeResult)
    ensures
        r.output@ == summary_text(
            text@,
            budget_lines as nat,
            Some(headtail_ranking(lines(text@).len(), budget_lines as nat)),
        ),
        r.lines_in == lines(text@).len(),
        r.lines_out == lines(r.output@).len(),
        r.omitted == if r.lines_in >= r.lines_out {
            r.lines_in - r.lines_out
        } else {
            0
        },
{
    let v = chars_of(text);
    let ls = lines_of(v.as_slice());
    assert(ls@.len() == views(ls@).len());
    let n = ls.len();
    let half = budget_lines / 2;
    let h = if half < n {
        half
    } else {
        n
    };
    let ghost rk = headtail_ranking(n as nat, budget_lines as nat);
    let mut ranking: Vec<usize> = Vec::new();
    let mut k: usize = 0;
    while k < n
        invariant
            k <= n,
            h <= n,
            h as int == min((budget_lines / 2) as int, n as int),
            rk == headtail_ranking(n as nat, budget_lines as nat),
            ranking@ == rk.take(k as int),
        decreases n - k,
    {
        if k < h {
            ranking.push(k);
        } else {
            ranking.push(n - 1 - (k - h));
        }
        assert(ranking@ =~= rk.take(k + 1));
        k += 1;
    }
    assert(rk.take(n as int) =~= rk);
    summarize_with(text, budget_lines, Some(ranking.as_slice()))
}

/// Render with every line kept gives the lines back.
proof fn lemma_render_all(ls: Seq<Seq<char>>, mask: Seq<bool>, k: int)
    requires
        0 <= k <= ls.len(),
        mask.len() == ls.len(),
        forall|j: int| 0 <= j < ls.len() ==> mask[j],
    ensures
        render(ls, mask, k, k - 1) == ls.skip(k),
    decreases ls.len() - k,
{
    if k < ls.len() {
        lemma_render_all(ls, mask, k + 1);
        assert(ls.skip(k) =~= seq![ls[k]] + ls.skip(k + 1));
        assert(Seq::<Seq<char>>::empty() + seq![ls[k]] + ls.skip(k + 1) =~= ls.skip(k));
    } else {
        assert(ls.skip(k) =~= Seq::<Seq<char>>::empty());
    }
}

/// A kept line is among the rendered lines.
proof fn lemma_render_contains(ls: Seq<Seq<char>>, mask: Seq<bool>, k: int, prev: int, i: int)
    requires
        0 <= k <= i < ls.len(),
        mask.len() == ls.len(),
        mask[i],
    ensures
        render(ls, mask, k, prev).contains(ls[i]),
    decreases ls.len() - k,
{
    if mask[k] {
        let gap = if prev >= 0 {
            k - prev - 1
        } else {
            k
        };
        let pre = (if gap > 0 {
            seq![omission_marker(gap as nat)]
        } else {
            seq![]
        }) + seq![ls[k]];
        let rest = render(ls, mask, k + 1, k);
        assert(render(ls, mask, k, prev) == pre + rest);
        if k == i {
            assert((pre + rest)[pre.len() - 1] == ls[i]);
        } else {
            lemma_render_contains(ls, mask, k + 1, k, i);
            let j = choose|j: int| 0 <= j < rest.len() && rest[j] == ls[i];
            assert((pre + rest)[pre.len() + j] == ls[i]);
        }
    } else {
        lemma_render_contains(ls, mask, k + 1, prev, i);
    }
}

/// Whatever the ranking, every critical line is a line of the summary.
pub proof fn lemma_summary_keeps_critical(ls: Seq<Seq<char>>, budget: nat, ranked: Seq<usize>, i: int)
    requires
        0 <= i < ls.len(),
        critical_output_line(ls[i]),
        forall|k: int| 0 <= k < ranked.len() ==> ranked[k] < ls.len(),
    ensures
        summary_lines(ls, budget, Some(ranked)).contains(ls[i]),
{
    if all_blank(ls) {
        assert(ls[i] == ls[i]);
        assert(ls.contains(ls[i]));
    } else {
        let b = min(budget as int, ls.len() as int) as nat;
        let keep = critical_mask(ls);
        assert(keep[i]);
        lemma_select_keeps(keep, b, ranked, i);
        lemma_render_contains(ls, select_mask(keep, b, ranked), 0, -1, i);
    }
}

proof fn lemma_headtail_ranking_covers(n: nat, budget: nat, j: int)
    requires
        0 <= j < n,
    ensures
        headtail_ranking(n, budget).contains(j as usize),
{
    let h = min((budget / 2) as int, n as int);
    let rk = headtail_ranking(n, budget);
    if j < h {
        assert(rk[j] == j as usize);
    } else {
        let k = n - 1 - j + h;
        assert(rk[k] == j as usize);
    }
}

/// The selection after the first `k` ranked indices, the budget being every
/// line.
pub open spec fn sel_after(keep: Seq<bool>, ranked: Seq<usize>, k: int) -> Selection {
    ranked.take(k).fold_left(
        Selection { mask: keep, done: false },
        |st: Selection, idx: usize| select_step(keep.len(), st, idx),
    )
}

/// With the whole ranking taken and every line in it, every line is kept
/// when the budget is every line.
proof fn lemma_select_covers(keep: Seq<bool>, ranked: Seq<usize>)
    requires
        keep.len() <= usize::MAX,
        forall|k: int| 0 <= k < ranked.len() ==> ranked[k] < keep.len(),
        forall|j: int| 0 <= j < keep.len() ==> #[trigger] ranked.contains(j as usize),
    ensures
        forall|j: int| 0 <= j < keep.len() ==> #[trigger] select_mask(keep, keep.len(), ranked)[j],
{
    lemma_select_invariant(keep, ranked, ranked.len() as int);
    assert(ranked.take(ranked.len() as int) =~= ranked);
    let m = sel_after(keep, ranked, ranked.len() as int);
    assert(select_mask(keep, keep.len(), ranked) == m.mask);
    assert forall|j: int| 0 <= j < keep.len() implies #[trigger] select_mask(keep, keep.len(), ranked)[j] by {
        assert(ranked.contains(j as usize));
        let q = choose|q: int| 0 <= q < ranked.len() && ranked[q] == j as usize;
        if !m.done {
            assert(m.mask[ranked[q] as int]);
            assert(ranked[q] as int == j);
        } else {
            lemma_all_true(m.mask);
        }
    }
}

/// The selection after `k` ranked indices: its mask has the lines' length,
/// holds every index taken while not done, and once done the budget is met.
proof fn lemma_select_invariant(keep: Seq<bool>, ranked: Seq<usize>, k: int)
    requires
        0 <= k <= ranked.len(),
        forall|q: int| 0 <= q < ranked.len() ==> ranked[q] < keep.len(),
    ensures
        sel_after(keep, ranked, k).mask.len() == keep.len(),
        !sel_after(keep, ranked, k).done ==> forall|q: int|
            0 <= q < k ==> sel_after(keep, ranked, k).mask[#[trigger] ranked[q] as int],
        sel_after(keep, ranked, k).done ==> count_true(sel_after(keep, ranked, k).mask) >= keep.len(),
    decreases k,
{
    let f = |st: Selection, idx: usize| select_step(keep.len(), st, idx);
    let init = Selection { mask: keep, done: false };
    if k == 0 {
        assert(ranked.take(0) =~= Seq::<usize>::empty());
    } else {
        lemma_select_invariant(keep, ranked, k - 1);
        let t = ranked.take(k);
        assert(t.drop_last() =~= ranked.take(k - 1));
        assert(t.last() == ranked[k - 1]);
        let m0 = sel_after(keep, ranked, k - 1);
        assert(t.fold_left(init, f) == f(m0, ranked[k - 1]));
        let m = sel_after(keep, ranked, k);
        if !m.done {
            assert forall|q: int| 0 <= q < k implies m.mask[#[trigger] ranked[q] as int] by {
                if q < k - 1 {
                    assert(m0.mask[ranked[q] as int]);
                }
            }
        }
    }
}

proof fn lemma_all_true(m: Seq<bool>)
    requires
        count_true(m) >= m.len(),
    ensures
        forall|j: int| 0 <= j < m.len() ==> #[trigger] m[j],
    decreases m.len(),
{
    if m.len() > 0 {
        lemma_count_true_le(m.drop_last());
        if !m.last() {
            assert(count_true(m) == count_true(m.drop_last()));
        }
        lemma_all_true(m.drop_last());
        assert forall|j: int| 0 <= j < m.len() implies #[trigger] m[j] by {
            if j < m.len() - 1 {
                assert(m[j] == m.drop_last()[j]);
            }
        }
    }
}

/// When the budget covers every line, the summary without a ranking by
/// meaning keeps every line, with no marker.
pub proof fn lemma_summarize_short(ls: Seq<Seq<char>>, budget: nat)
    requires
        budget >= ls.len(),
        ls.len() <= usize::MAX,
    ensures
        summary_lines(ls, budget, Some(headtail_ranking(ls.len(), budget))) == ls,
{
    if !all_blank(ls) {
        let rk = headtail_ranking(ls.len(), budget);
        let keep = critical_mask(ls);
        assert(min(budget as int, ls.len() as int) == ls.len());
        assert forall|j: int| 0 <= j < keep.len() implies #[trigger] rk.contains(j as usize) by {
            lemma_headtail_ranking_covers(ls.len(), budget, j);
        }
        lemma_select_covers(keep, rk);
        let m = select_mask(keep, ls.len(), rk);
        lemma_select_invariant(keep, rk, rk.len() as int);
        assert(rk.take(rk.len() as int) =~= rk);
        assert(m.len() == ls.len());
        lemma_render_all(ls, m, 0);
        assert(ls.skip(0) =~= ls);
    }
}

/// A text whose lines all fit the budget is not lengthened by `summarize`:
/// its summary has no more lines than the text.
pub proof fn lemma_summarize_short_text(text: Seq<char>, budget: nat)
    requires
        budget >= lines(text).len(),
        lines(text).len() <= usize::MAX,
    ensures
        lines(summary_text(text, budget, Some(headtail_ranking(lines(text).len(), budget)))).len()
            <= lines(text).len(),
{
    lemma_summarize_short(lines(text), budget);
    lemma_lines_no_newline(text);
    lemma_lines_join_len(lines(text));
}

// ───────────────────────────── sentence-level specifications ─────────────────────────────

/// Characters trimmed off a word before looking for an identifier.
pub open spec fn junk(c: char) -> bool {
    !alphanumeric(c) && c != '_'
}

pub open spec fn strip_junk_start(w: Seq<char>) -> Seq<char>
    decreases w.len(),
{
    if w.len() > 0 && junk(w[0]) {
        strip_junk_start(w.drop_first())
    } else {
        w
    }
}

pub open spec fn strip_junk_end(w: Seq<char>) -> Seq<char>
    decreases w.len(),
{
    if w.len() > 0 && junk(w.last()) {
        strip_junk_end(w.drop_last())
    } else {
        w
    }
}

/// A word that reads as a snake_case identifier.
pub open spec fn snake_word(w: Seq<char>) -> bool {
    let x = strip_junk_end(strip_junk_start(w));
    x.contains('_') && x.len() > 0 && alphabetic(x[0])
}

pub open spec fn any_snake_word(ws: Seq<Seq<char>>) -> bool {
    exists|k: int| 0 <= k < ws.len() && snake_word(#[trigger] ws[k])
}

/// Constraint language in a user message.
pub open spec fn user_keyword(lower: Seq<char>) -> bool {
    ||| contains(lower, "must"@)
    ||| contains(lower, "never"@)
    ||| contains(lower, "always"@)
    ||| contains(lower, "ensure"@)
    ||| contains(lower, "make sure"@)
    ||| contains(lower, "do not"@)
    ||| contains(lower, "don't"@)
    ||| contains(lower, "avoid"@)
    ||| contains(lower, "required"@)
    ||| contains(lower, "critical"@)
}

/// Constraint language in an assistant message.
pub open spec fn assistant_keyword(lower: Seq<char>) -> bool {
    ||| contains(lower, "must"@)
    ||| contains(lower, "never"@)
    ||| contains(lower, "always"@)
    ||| contains(lower, "ensure"@)
    ||| contains(lower, "required"@)
    ||| contains(lower, "critical"@)
}

/// A user sentence that is always kept: a question, code, an identifier,
/// or constraint language.
pub open spec fn hard_keep_user(s: Seq<char>) -> bool {
    let t = trim(s);
    ||| ends_with(t, "?"@)
    ||| t.contains('`')
    ||| contains(t, "::"@)
    ||| any_snake_word(words(t))
    ||| user_keyword(lowercase(t))
}

pub open spec fn has_digit(w: Seq<char>) -> bool {
    exists|i: int| 0 <= i < w.len() && is_digit(#[trigger] w[i])
}

/// An assistant sentence that is always kept: code, list items, money or
/// percentages, numbers, or constraint language.
pub open spec fn hard_keep_assistant(s: Seq<char>) -> bool {
    let t = trim(s);
    let first = if t.len() > 0 {
        t[0]
    } else {
        ' '
    };
    ||| t.contains('`')
    ||| contains(t, "::"@)
    ||| first == '-'
    ||| first == '*'
    ||| (is_digit(first) && t.len() > 1 && (t[1] == '.' || t[1] == ')'))
    ||| t.contains('$')
    ||| t.contains('\u{20ac}')
    ||| t.contains('\u{a3}')
    ||| t.contains('%')
    ||| (exists|k: int| 0 <= k < words(t).len() && has_digit(#[trigger] words(t)[k]))
    ||| assistant_keyword(lowercase(t))
}

pub open spec fn hard_keep(s: Seq<char>, assistant: bool) -> bool {
    if assistant {
        hard_keep_assistant(s)
    } else {
        hard_keep_user(s)
    }
}

/// The elements whose flag is set, in order.
pub open spec fn masked(ss: Seq<Seq<char>>, m: Seq<bool>) -> Seq<Seq<char>>
    decreases ss.len(),
{
    if ss.len() == 0 {
        seq![]
    } else {
        let p = masked(ss.drop_last(), m);
        if m[ss.len() - 1] {
            p.push(ss.last())
        } else {
            p
        }
    }
}

/// Head and tail sentences within the budget.
pub open spec fn headtail_sentences(ss: Seq<Seq<char>>, budget: nat) -> Seq<Seq<char>> {
    let total = ss.len() as int;
    let head = (budget / 2) as int;
    let tail = budget - head;
    let tail_start = if total >= tail {
        total - tail
    } else {
        0
    };
    ss.take(min(head, total)) + if total > head && tail_start > head {
        ss.skip(tail_start)
    } else {
        seq![]
    }
}

pub open spec fn keep_mask(ss: Seq<Seq<char>>, assistant: bool) -> Seq<bool> {
    ss.map_values(|s: Seq<char>| hard_keep(s, assistant))
}

/// Hard-kept sentences and the best-ranked ones within the budget, in order,
/// joined with spaces.
pub open spec fn ranked_sentences(
    ss: Seq<Seq<char>>,
    budget: nat,
    ranked: Seq<usize>,
    assistant: bool,
) -> Seq<char> {
    join(masked(ss, select_mask(keep_mask(ss, assistant), budget, ranked)), " "@)
}

/// The compressed message.
pub open spec fn message_output(
    text: Seq<char>,
    budget: nat,
    ranking: Option<Seq<usize>>,
    assistant: bool,
) -> Seq<char> {
    let ss = sentences(text);
    if ss.len() == 0 || ss.len() <= budget {
        text
    } else {
        match ranking {
            Some(rk) => ranked_sentences(ss, budget, rk, assistant),
            None => join(headtail_sentences(ss, budget), " "@),
        }
    }
}

/// A sentence that a compressed message always keeps. Of a user message: a
/// question (its trimmed text ends with `?`), code (a backtick or `::`), or
/// constraint language (its lower-cased text contains `must`, `never`,
/// `always`, `ensure`, `make sure`, `do not`, `don't`, `avoid`, `required`
/// or `critical`). Of an assistant message: code, a list item (starting with
/// `-` or `*`), money or a percentage (`$`, `€`, `£`, `%`), or constraint
/// language (`must`, `never`, `always`, `ensure`, `required`, `critical`).
pub open spec fn always_kept_sentence(s: Seq<char>, assistant: bool) -> bool {
    let t = trim(s);
    let l = lowercase(t);
    if assistant {
        t.contains('`') || contains(t, "::"@) || (t.len() > 0 && (t[0] == '-' || t[0] == '*'))
            || t.contains('$') || t.contains('\u{20ac}') || t.contains('\u{a3}') || t.contains('%')
            || contains(l, "must"@) || contains(l, "never"@) || contains(l, "always"@) || contains(
            l,
            "ensure"@,
        ) || contains(l, "required"@) || contains(l, "critical"@)
    } else {
        ends_with(t, "?"@) || t.contains('`') || contains(t, "::"@) || contains(l, "must"@)
            || contains(l, "never"@) || contains(l, "always"@) || contains(l, "ensure"@) || contains(
            l,
            "make sure"@,
        ) || contains(l, "do not"@) || contains(l, "don't"@) || contains(l, "avoid"@) || contains(
            l,
            "required"@,
        ) || contains(l, "critical"@)
    }
}

proof fn lemma_masked_contains(ss: Seq<Seq<char>>, m: Seq<bool>, i: int)
    requires
        0 <= i < ss.len(),
        m[i],
    ensures
        masked(ss, m).contains(ss[i]),
    decreases ss.len(),
{
    let p = masked(ss.drop_last(), m);
    if i == ss.len() - 1 {
        assert(masked(ss, m) == p.push(ss.last()));
        assert(p.push(ss.last())[p.len() as int] == ss[i]);
    } else {
        lemma_masked_contains(ss.drop_last(), m, i);
        assert(ss.drop_last()[i] == ss[i]);
        let k = choose|k: int| 0 <= k < p.len() && p[k] == ss[i];
        if m[ss.len() - 1] {
            assert(p.push(ss.last())[k] == ss[i]);
        }
    }
}

/// Questions, code and constraint sentences are never dropped: whatever the
/// ranking and the budget, a compressed message keeps every such sentence,
/// and the output is the kept sentences joined with spaces.
pub proof fn lemma_always_kept_sentences(
    text: Seq<char>,
    budget: nat,
    ranked: Seq<usize>,
    assistant: bool,
    i: int,
)
    requires
        sentences(text).len() > budget,
        0 <= i < sentences(text).len(),
        always_kept_sentence(sentences(text)[i], assistant),
        forall|k: int| 0 <= k < ranked.len() ==> ranked[k] < sentences(text).len(),
    ensures
        message_output(text, budget, Some(ranked), assistant) == join(
            masked(
                sentences(text),
                select_mask(keep_mask(sentences(text), assistant), budget, ranked),
            ),
            " "@,
        ),
        masked(
            sentences(text),
            select_mask(keep_mask(sentences(text), assistant), budget, ranked),
        ).contains(sentences(text)[i]),
{
    let ss = sentences(text);
    let keep = keep_mask(ss, assistant);
    assert(keep[i] == hard_keep(ss[i], assistant));
    assert(hard_keep(ss[i], assistant));
    lemma_select_keeps(keep, budget, ranked, i);
    lemma_masked_contains(ss, select_mask(keep, budget, ranked), i);
}

// ───────────────────────────── sentence-level code ─────────────────────────────

fn strip_junk(w: &[char]) -> (r: Vec<char>)
    ensures
        r@ == strip_junk_end(strip_junk_start(w@)),
{
    let mut a: usize = 0;
    assert(w@.skip(0) =~= w@);
    while a < w.len() && !is_alphanumeric(w[a]) && w[a] != '_'
        invariant
            a <= w.len(),
            strip_junk_start(w@) == strip_junk_start(w@.skip(a as int)),
        decreases w.len() - a,
    {
        assert(w@.skip(a as int).drop_first() =~= w@.skip(a + 1));
        a += 1;
    }
    assert(w@.skip(a as int) =~= w@.subrange(a as int, w.len() as int));
    let ghost t = w@.skip(a as int);
    assert(strip_junk_start(t) == t);
    let mut b: usize = w.len();
    while b > a && !is_alphanumeric(w[b - 1]) && w[b - 1] != '_'
        invariant
            a <= b <= w.len(),
            strip_junk_end(t) == strip_junk_end(w@.subrange(a as int, b as int)),
        decreases b - a,
    {
        assert(w@.subrange(a as int, b as int).drop_last() =~= w@.subrange(a as int, b - 1));
        b -= 1;
    }
    let r = crate::text::slice(w, a, b);
    proof {
        if b > a {
            assert(r@.last() == w@[b - 1]);
        }
    }
    r
}

fn snake(w: &[char]) -> (b: bool)
    ensures
        b == snake_word(w@),
{
    let x = strip_junk(w);
    has_char(x.as_slice(), '_') && x.len() > 0 && is_alphabetic(x[0])
}

fn lowered(t: &[char]) -> (r: Vec<char>)
    ensures
        r@ == lowercase(t@),
{
    let s = string_of(t);
    let l = to_lowercase(s.as_str());
    chars_of(l.as_str())
}

/// Whether a user sentence must always be kept.
pub fn is_hard_keep_sentence(s: &str) -> (b: bool)
    ensures
        b == hard_keep_user(s@),
{
    let v = chars_of(s);
    let t = trim_of(v.as_slice());
    if ends_lit(t.as_slice(), "?") {
        return true;
    }
    if has_char(t.as_slice(), '`') || contains_lit(t.as_slice(), "::") {
        return true;
    }
    let ws = words_of(t.as_slice());
    let mut k: usize = 0;
    while k < ws.len()
        invariant
            k <= ws.len(),
            views(ws@) == words(t@),
            t@ == trim(s@),
            forall|j: int| 0 <= j < k ==> !snake_word(#[trigger] words(t@)[j]),
        decreases ws.len() - k,
    {
        assert(views(ws@)[k as int] == ws@[k as int]@);
        if snake(ws[k].as_slice()) {
            assert(snake_word(words(t@)[k as int]));
            return true;
        }
        k += 1;
    }
    let lower = lowered(t.as_slice());
    let l = lower.as_slice();
    contains_lit(l, "must") || contains_lit(l, "never") || contains_lit(l, "always")
        || contains_lit(l, "ensure") || contains_lit(l, "make sure") || contains_lit(l, "do not")
        || contains_lit(l, "don't") || contains_lit(l, "avoid") || contains_lit(l, "required")
        || contains_lit(l, "critical")
}

fn word_has_digit(w: &[char]) -> (b: bool)
    ensures
        b == has_digit(w@),
{
    let mut i: usize = 0;
    while i < w.len()
        invariant
            i <= w.len(),
            forall|j: int| 0 <= j < i ==> !is_digit(#[trigger] w@[j]),
        decreases w.len() - i,
    {
        if is_ascii_digit(w[i]) {
            return true;
        }
        i += 1;
    }
    false
}

/// Whether an assistant sentence must always be kept.
pub fn is_hard_keep_assistant_sentence(s: &str) -> (b: bool)
    ensures
        b == hard_keep_assistant(s@),
{
    let v = chars_of(s);
    let t = trim_of(v.as_slice());
    let ts = t.as_slice();
    if has_char(ts, '`') || contains_lit(ts, "::") {
        return true;
    }
    let first = if t.len() > 0 {
        t[0]
    } else {
        ' '
    };
    if first == '-' || first == '*' {
        return true;
    }
    if is_ascii_digit(first) && t.len() > 1 && (t[1] == '.' || t[1] == ')') {
        return true;
    }
    if has_char(ts, '$') || has_char(ts, '\u{20ac}') || has_char(ts, '\u{a3}') || has_char(ts, '%') {
        return true;
    }
    let ws = words_of(ts);
    let mut k: usize = 0;
    while k < ws.len()
        invariant
            k <= ws.len(),
            views(ws@) == words(t@),
            t@ == trim(s@),
            forall|j: int| 0 <= j < k ==> !has_digit(#[trigger] words(t@)[j]),
        decreases ws.len() - k,
    {
        assert(views(ws@)[k as int] == ws@[k as int]@);
        if word_has_digit(ws[k].as_slice()) {
            assert(has_digit(words(t@)[k as int]));
            return true;
        }
        k += 1;
    }
    let lower = lowered(ts);
    let l = lower.as_slice();
    contains_lit(l, "must") || contains_lit(l, "never") || contains_lit(l, "always")
        || contains_lit(l, "ensure") || contains_lit(l, "required") || contains_lit(l, "critical")
}

/// Head and tail sentences within the budget, joined with spaces.
pub fn summarize_sentences_headtail(ss: &Vec<Vec<char>>, budget: usize) -> (r: Vec<char>)
    ensures
        r@ == join(headtail_sentences(views(ss@), budget as nat), " "@),
{
    let total = ss.len();
    let head = budget / 2;
    let tail = budget - head;
    let mut out: Vec<Vec<char>> = Vec::new();
    let hm = if head < total {
        head
    } else {
        total
    };
    let mut i: usize = 0;
    while i < hm
        invariant
            i <= hm <= total == ss.len(),
            views(out@) == views(ss@).take(i as int),
        decreases hm - i,
    {
        assert(views(ss@)[i as int] == ss@[i as int]@);
        push_line(&mut out, ss[i].clone());
        assert(views(ss@).take(i + 1) =~= views(ss@).take(i as int).push(views(ss@)[i as int]));
        i += 1;
    }
    let ghost base = views(out@);
    let tail_start = total.saturating_sub(tail);
    if total > head && tail_start > head {
        let mut k = tail_start;
        while k < total
            invariant
                tail_start <= k <= total == ss.len(),
                views(out@) == base + views(ss@).subrange(tail_start as int, k as int),
            decreases total - k,
        {
            assert(views(ss@)[k as int] == ss@[k as int]@);
            push_line(&mut out, ss[k].clone());
            assert(views(ss@).subrange(tail_start as int, k + 1) =~= views(ss@).subrange(
                tail_start as int,
                k as int,
            ).push(views(ss@)[k as int]));
            k += 1;
        }
        assert(views(ss@).subrange(tail_start as int, total as int) =~= views(ss@).skip(
            tail_start as int,
        ));
    } else {
        assert(views(out@) =~= base + Seq::<Seq<char>>::empty());
    }
    let sep = chars_of(" ");
    join_with(&out, sep.as_slice())
}

/// Hard-kept sentences and the best-ranked ones within the budget, in their
/// original order, joined with spaces.
pub fn summarize_sentences_ranked(
    ss: &Vec<Vec<char>>,
    budget: usize,
    ranked: &[usize],
    assistant: bool,
) -> (r: Vec<char>)
    requires
        forall|k: int| 0 <= k < ranked@.len() ==> ranked@[k] < ss.len(),
    ensures
        r@ == ranked_sentences(views(ss@), budget as nat, ranked@, assistant),
{
    let total = ss.len();
    let ghost sv = views(ss@);
    let ghost keep = keep_mask(sv, assistant);
    let mut mask: Vec<bool> = Vec::new();
    let mut count: usize = 0;
    let mut i: usize = 0;
    while i < total
        invariant
            i <= total == ss.len(),
            sv == views(ss@),
            keep == keep_mask(sv, assistant),
            mask@ == keep.take(i as int),
            count == count_true(mask@),
            count <= i,
        decreases total - i,
    {
        assert(sv[i as int] == ss@[i as int]@);
        let s = string_of(ss[i].as_slice());
        let c = if assistant {
            is_hard_keep_assistant_sentence(s.as_str())
        } else {
            is_hard_keep_sentence(s.as_str())
        };
        proof {
            lemma_count_true_push(mask@, c);
        }
        mask.push(c);
        if c {
            count += 1;
        }
        assert(mask@ =~= keep.take(i + 1));
        i += 1;
    }
    assert(keep.take(total as int) =~= keep);
    let ghost f = |st: Selection, idx: usize| select_step(budget as nat, st, idx);
    let ghost init = Selection { mask: keep, done: false };
    let mut done = false;
    let mut k: usize = 0;
    while k < ranked.len()
        invariant
            k <= ranked.len(),
            forall|q: int| 0 <= q < ranked@.len() ==> ranked@[q] < total,
            total == ss.len(),
            keep.len() == total,
            f == (|st: Selection, idx: usize| select_step(budget as nat, st, idx)),
            init == (Selection { mask: keep, done: false }),
            mask@.len() == total,
            count == count_true(mask@),
            count <= total,
            ranked@.take(k as int).fold_left(init, f) == (Selection { mask: mask@, done: done }),
        decreases ranked.len() - k,
    {
        proof {
            lemma_fold_take_sel(ranked@, init, f, k as int);
        }
        if !done && count < budget {
            let idx = ranked[k];
            if !mask[idx] {
                proof {
                    lemma_count_true_update(mask@, idx as int);
                    lemma_count_true_le(mask@.update(idx as int, true));
                }
                mask.set(idx, true);
                count += 1;
            } else {
                assert(mask@.update(idx as int, true) =~= mask@);
            }
        } else {
            done = true;
        }
        k += 1;
    }
    assert(ranked@.take(ranked.len() as int) =~= ranked@);
    let ghost m = mask@;
    assert(m == select_mask(keep, budget as nat, ranked@));
    let mut out: Vec<Vec<char>> = Vec::new();
    let mut k: usize = 0;
    while k < total
        invariant
            k <= total == ss.len(),
            sv == views(ss@),
            m == mask@,
            mask@.len() == total,
            views(out@) == masked(sv.take(k as int), m),
        decreases total - k,
    {
        assert(sv.take(k + 1).drop_last() =~= sv.take(k as int));
        assert(sv[k as int] == ss@[k as int]@);
        if mask[k] {
            push_line(&mut out, ss[k].clone());
        }
        k += 1;
    }
    assert(sv.take(total as int) =~= sv);
    let sep = chars_of(" ");
    join_with(&out, sep.as_slice())
}

/// Compress a message to `budget` sentences once the ranking of its
/// sentences is known (`None` when no ranking could be made). Messages
/// without sentences, or already within the budget, come back unchanged.
pub fn summarize_message_with(
    text: &str,
    budget: usize,
    ranking: Option<&[usize]>,
    assistant: bool,
) -> (r: MessageSummarizeResult)
    requires
        ranking matches Some(rk) ==> forall|k: int|
            0 <= k < rk@.len() ==> rk@[k] < sentences(text@).len(),
    ensures
        r.output@ == message_output(
            text@,
            budget as nat,
            match ranking {
                Some(rk) => Some(rk@),
                None => None,
            },
            assistant,
        ),
        r.sentences_in == sentences(text@).len(),
        r.sentences_out == if sentences(text@).len() <= budget {
            sentences(text@).len()
        } else {
            sentences(r.output@).len()
        },
{
    let v = chars_of(text);
    let ss = split_sentence_chars(v.as_slice());
    assert(ss@.len() == views(ss@).len());
    let n = ss.len();
    if n == 0 {
        return MessageSummarizeResult { output: text.to_owned(), sentences_in: 0, sentences_out: 0 };
    }
    if n <= budget {
        return MessageSummarizeResult { output: text.to_owned(), sentences_in: n, sentences_out: n };
    }
    let out = match ranking {
        Some(rk) => summarize_sentences_ranked(&ss, budget, rk, assistant),
        None => summarize_sentences_headtail(&ss, budget),
    };
    let again = split_sentence_chars(out.as_slice());
    assert(again@.len() == views(again@).len());
    MessageSummarizeResult {
        output: string_of(out.as_slice()),
        sentences_in: n,
        sentences_out: again.len(),
    }
}

} // verus!
