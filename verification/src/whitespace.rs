//! Whitespace normalisation of command output.
use vstd::prelude::*;
use crate::text::{
    blank, chars_of, eq_chars, is_blank, join, join_lines, lemma_join_push, lemma_lines_join,
    lemma_lines_no_newline, lemma_trim_end_len, lemma_views_push, lines, lines_of, string_of,
    strip_cr, trim_end, trim_end_of, views, is_ws,
};

verus! {

/// Settings that shape the normalisation.
pub struct GlobalConfig {
    /// Collapse runs of identical consecutive lines into one.
    pub deduplicate_lines: bool,
}

impl Default for GlobalConfig {
    fn default() -> (c: Self)
        ensures
            c.deduplicate_lines,
    {
        GlobalConfig { deduplicate_lines: true }
    }
}

/// Consecutive identical lines kept once.
pub open spec fn dedup_consecutive(ls: Seq<Seq<char>>) -> Seq<Seq<char>>
    decreases ls.len(),
{
    if ls.len() == 0 {
        seq![]
    } else {
        let p = dedup_consecutive(ls.drop_last());
        if p.len() > 0 && p.last() == ls.last() {
            p
        } else {
            p.push(ls.last())
        }
    }
}

/// Runs of blank lines kept as one blank line.
pub open spec fn collapse_blank(ls: Seq<Seq<char>>) -> Seq<Seq<char>>
    decreases ls.len(),
{
    if ls.len() == 0 {
        seq![]
    } else {
        let p = collapse_blank(ls.drop_last());
        if blank(ls.last()) && p.len() > 0 && blank(p.last()) {
            p
        } else {
            p.push(ls.last())
        }
    }
}

/// The lines of the normalised text.
pub open spec fn normalized_lines(input: Seq<char>, dedup: bool) -> Seq<Seq<char>> {
    let t = lines(input).map_values(|l: Seq<char>| trim_end(l));
    let d = if dedup {
        dedup_consecutive(t)
    } else {
        t
    };
    collapse_blank(d)
}

/// Trailing whitespace removed from every line, identical consecutive lines
/// merged (when configured), runs of blank lines collapsed, lines joined
/// with `'\n'`.
pub open spec fn normalize_spec(input: Seq<char>, dedup: bool) -> Seq<char> {
    join(normalized_lines(input, dedup), seq!['\n'])
}

proof fn lemma_dedup_keeps(ls: Seq<Seq<char>>, p: spec_fn(Seq<char>) -> bool)
    requires
        forall|i: int| 0 <= i < ls.len() ==> p(#[trigger] ls[i]),
    ensures
        forall|i: int|
            0 <= i < dedup_consecutive(ls).len() ==> p(#[trigger] dedup_consecutive(ls)[i]),
    decreases ls.len(),
{
    if ls.len() > 0 {
        let q = ls.drop_last();
        assert forall|i: int| 0 <= i < q.len() implies p(#[trigger] q[i]) by {
            assert(q[i] == ls[i]);
        }
        lemma_dedup_keeps(q, p);
        let d = dedup_consecutive(q);
        assert(p(ls[ls.len() - 1]));
        assert forall|i: int| 0 <= i < dedup_consecutive(ls).len() implies p(
            #[trigger] dedup_consecutive(ls)[i],
        ) by {
            if i < d.len() {
                assert(dedup_consecutive(ls)[i] == d[i]);
            }
        }
    }
}

proof fn lemma_collapse_keeps(ls: Seq<Seq<char>>, p: spec_fn(Seq<char>) -> bool)
    requires
        forall|i: int| 0 <= i < ls.len() ==> p(#[trigger] ls[i]),
    ensures
        forall|i: int| 0 <= i < collapse_blank(ls).len() ==> p(#[trigger] collapse_blank(ls)[i]),
    decreases ls.len(),
{
    if ls.len() > 0 {
        let q = ls.drop_last();
        assert forall|i: int| 0 <= i < q.len() implies p(#[trigger] q[i]) by {
            assert(q[i] == ls[i]);
        }
        lemma_collapse_keeps(q, p);
        let d = collapse_blank(q);
        assert(p(ls[ls.len() - 1]));
        assert forall|i: int| 0 <= i < collapse_blank(ls).len() implies p(
            #[trigger] collapse_blank(ls)[i],
        ) by {
            if i < d.len() {
                assert(collapse_blank(ls)[i] == d[i]);
            }
        }
    }
}

proof fn lemma_collapse_no_double_blank(ls: Seq<Seq<char>>)
    ensures
        forall|i: int|
            0 <= i < collapse_blank(ls).len() - 1 ==> !(blank(#[trigger] collapse_blank(ls)[i])
                && blank(collapse_blank(ls)[i + 1])),
    decreases ls.len(),
{
    if ls.len() > 0 {
        let q = ls.drop_last();
        lemma_collapse_no_double_blank(q);
        let d = collapse_blank(q);
        let c = collapse_blank(ls);
        assert forall|i: int| 0 <= i < c.len() - 1 implies !(blank(#[trigger] c[i]) && blank(
            c[i + 1],
        )) by {
            if i + 1 < d.len() {
                assert(c[i] == d[i]);
                assert(c[i + 1] == d[i + 1]);
            } else {
                assert(c[i] == d[i]);
                assert(c == d.push(ls.last()));
            }
        }
    }
}

/// In the normalised text no line ends in whitespace and no two blank lines
/// are adjacent.
pub proof fn lemma_normalize_shape(input: Seq<char>, dedup: bool)
    ensures
        forall|i: int|
            0 <= i < normalized_lines(input, dedup).len() ==> {
                let l = #[trigger] normalized_lines(input, dedup)[i];
                l.len() == 0 || !is_ws(l.last())
            },
        forall|i: int|
            0 <= i < normalized_lines(input, dedup).len() - 1 ==> !(blank(
                #[trigger] normalized_lines(input, dedup)[i],
            ) && blank(normalized_lines(input, dedup)[i + 1])),
{
    let t = lines(input).map_values(|l: Seq<char>| trim_end(l));
    let p = |l: Seq<char>| l.len() == 0 || !is_ws(l.last());
    assert forall|i: int| 0 <= i < t.len() implies p(#[trigger] t[i]) by {
        lemma_trim_end_len(lines(input)[i]);
    }
    let d = if dedup {
        dedup_consecutive(t)
    } else {
        t
    };
    if dedup {
        lemma_dedup_keeps(t, p);
    }
    lemma_collapse_keeps(d, p);
    lemma_collapse_no_double_blank(d);
}

/// A line as normalisation leaves it: no line break, no trailing whitespace.
pub open spec fn clean_line(l: Seq<char>) -> bool {
    !l.contains('\n') && (l.len() == 0 || !is_ws(l.last()))
}

proof fn lemma_dedup_no_repeat(u: Seq<Seq<char>>)
    ensures
        forall|i: int|
            0 <= i < dedup_consecutive(u).len() - 1 ==> #[trigger] dedup_consecutive(u)[i]
                != dedup_consecutive(u)[i + 1],
    decreases u.len(),
{
    if u.len() > 0 {
        lemma_dedup_no_repeat(u.drop_last());
        let p = dedup_consecutive(u.drop_last());
        let d = dedup_consecutive(u);
        assert forall|i: int| 0 <= i < d.len() - 1 implies #[trigger] d[i] != d[i + 1] by {
            if i + 1 < p.len() {
                assert(d[i] == p[i] && d[i + 1] == p[i + 1]);
            } else {
                assert(d == p.push(u.last()));
                assert(d[i] == p[i]);
            }
        }
    }
}

proof fn lemma_dedup_identity(u: Seq<Seq<char>>)
    requires
        forall|i: int| 0 <= i < u.len() - 1 ==> #[trigger] u[i] != u[i + 1],
    ensures
        dedup_consecutive(u) == u,
    decreases u.len(),
{
    if u.len() > 0 {
        let q = u.drop_last();
        assert forall|i: int| 0 <= i < q.len() - 1 implies #[trigger] q[i] != q[i + 1] by {
            assert(q[i] == u[i] && q[i + 1] == u[i + 1]);
        }
        lemma_dedup_identity(q);
        if q.len() > 0 {
            assert(q.last() == u[u.len() - 2]);
        }
        assert(q.push(u.last()) =~= u);
    }
}

proof fn lemma_collapse_identity(u: Seq<Seq<char>>)
    requires
        forall|i: int| 0 <= i < u.len() - 1 ==> !(blank(#[trigger] u[i]) && blank(u[i + 1])),
    ensures
        collapse_blank(u) == u,
    decreases u.len(),
{
    if u.len() > 0 {
        let q = u.drop_last();
        assert forall|i: int| 0 <= i < q.len() - 1 implies !(blank(#[trigger] q[i]) && blank(q[i + 1])) by {
            assert(q[i] == u[i] && q[i + 1] == u[i + 1]);
        }
        lemma_collapse_identity(q);
        if q.len() > 0 {
            assert(q.last() == u[u.len() - 2]);
        }
        assert(q.push(u.last()) =~= u);
    }
}

proof fn lemma_clean_blank_empty(l: Seq<char>)
    requires
        clean_line(l),
        blank(l),
    ensures
        l.len() == 0,
{
    if l.len() > 0 {
        assert(is_ws(l[l.len() - 1]));
    }
}

/// Normalising a normalised text changes nothing, unless it ends in a line
/// break (a blank last line, which `lines` does not give back).
pub proof fn lemma_normalize_idempotent(input: Seq<char>, dedup: bool)
    requires
        !(normalize_spec(input, dedup).len() > 0 && normalize_spec(input, dedup).last() == '\n'),
    ensures
        normalize_spec(normalize_spec(input, dedup), dedup) == normalize_spec(input, dedup),
{
    let ls = normalized_lines(input, dedup);
    let r = normalize_spec(input, dedup);
    let t = lines(input).map_values(|l: Seq<char>| trim_end(l));
    let p = |l: Seq<char>| clean_line(l);
    lemma_lines_no_newline(input);
    assert forall|i: int| 0 <= i < t.len() implies p(#[trigger] t[i]) by {
        let l = lines(input)[i];
        lemma_trim_end_len(l);
        if trim_end(l).contains('\n') {
            let j = choose|j: int| 0 <= j < trim_end(l).len() && trim_end(l)[j] == '\n';
            assert(l[j] == '\n');
            assert(l.contains('\n'));
        }
    }
    let d = if dedup {
        dedup_consecutive(t)
    } else {
        t
    };
    if dedup {
        lemma_dedup_keeps(t, p);
    }
    lemma_collapse_keeps(d, p);
    assert(ls == collapse_blank(d));
    if ls.len() == 0 || (ls.len() == 1 && ls[0].len() == 0) {
        assert(r.len() == 0);
        assert(lines(r) =~= Seq::<Seq<char>>::empty());
        let t2 = lines(r).map_values(|l: Seq<char>| trim_end(l));
        assert(t2 =~= Seq::<Seq<char>>::empty());
        assert(normalized_lines(r, dedup) =~= Seq::<Seq<char>>::empty());
        assert(normalize_spec(r, dedup) =~= r);
    } else {
        if ls.last().len() == 0 {
            lemma_join_push(ls.drop_last(), ls.last(), seq!['\n']);
            assert(ls.drop_last().push(ls.last()) =~= ls);
            assert(r.last() == '\n');
        }
        assert forall|i: int| 0 <= i < ls.len() implies !(#[trigger] ls[i]).contains('\n') && strip_cr(ls[i]) == ls[i] by {
            assert(p(ls[i]));
            if ls[i].len() > 0 {
                assert(!is_ws(ls[i].last()));
            }
        }
        lemma_lines_join(ls);
        let t2 = lines(r).map_values(|l: Seq<char>| trim_end(l));
        assert(t2 =~= ls) by {
            assert forall|i: int| 0 <= i < ls.len() implies #[trigger] trim_end(ls[i]) == ls[i] by {
                assert(p(ls[i]));
            }
        }
        lemma_collapse_no_double_blank(d);
        if dedup {
            lemma_dedup_no_repeat(t);
            assert forall|i: int| 0 <= i < d.len() - 1 implies !(blank(#[trigger] d[i]) && blank(d[i + 1])) by {
                if blank(d[i]) && blank(d[i + 1]) {
                    assert(p(d[i]) && p(d[i + 1]));
                    lemma_clean_blank_empty(d[i]);
                    lemma_clean_blank_empty(d[i + 1]);
                    assert(d[i] =~= d[i + 1]);
                }
            }
            lemma_collapse_identity(d);
            assert(ls == d);
            lemma_dedup_identity(ls);
            lemma_collapse_identity(ls);
            assert(normalized_lines(r, dedup) == ls);
        } else {
            lemma_collapse_identity(ls);
            assert(normalized_lines(r, dedup) == ls);
        }
    }
}

/// Normalise whitespace: trim trailing spaces per line, merge identical
/// consecutive lines when `config.deduplicate_lines`, collapse runs of blank
/// lines into one.
pub fn normalize(input: &str, config: &GlobalConfig) -> (r: String)
    ensures
        r@ == normalize_spec(input@, config.deduplicate_lines),
{
    let v = chars_of(input);
    let ls = lines_of(v.as_slice());
    let ghost t = lines(input@).map_values(|l: Seq<char>| trim_end(l));
    let mut trimmed: Vec<Vec<char>> = Vec::new();
    let mut i: usize = 0;
    while i < ls.len()
        invariant
            i <= ls.len(),
            views(ls@) == lines(input@),
            t == lines(input@).map_values(|l: Seq<char>| trim_end(l)),
            views(trimmed@) == t.take(i as int),
        decreases ls.len() - i,
    {
        let l = trim_end_of(ls[i].as_slice());
        assert(views(ls@)[i as int] == ls@[i as int]@);
        proof {
            lemma_views_push(trimmed@, l);
        }
        trimmed.push(l);
        assert(views(trimmed@) =~= t.take(i + 1));
        i += 1;
    }
    assert(t.take(ls.len() as int) =~= t);
    let ghost d = if config.deduplicate_lines {
        dedup_consecutive(t)
    } else {
        t
    };
    let deduped: Vec<Vec<char>> = if config.deduplicate_lines {
        let mut out: Vec<Vec<char>> = Vec::new();
        let mut k: usize = 0;
        while k < trimmed.len()
            invariant
                k <= trimmed.len(),
                views(trimmed@) == t,
                views(out@) == dedup_consecutive(t.take(k as int)),
            decreases trimmed.len() - k,
        {
            assert(t.take(k + 1).drop_last() =~= t.take(k as int));
            assert(views(trimmed@)[k as int] == trimmed@[k as int]@);
            let same = out.len() > 0 && eq_chars(out[out.len() - 1].as_slice(), trimmed[k].as_slice());
            assert(out.len() > 0 ==> views(out@).last() == out@[out.len() - 1]@);
            if !same {
                let l = trimmed[k].clone();
                proof {
                    lemma_views_push(out@, l);
                }
                out.push(l);
            }
            k += 1;
        }
        out
    } else {
        trimmed
    };
    assert(views(deduped@) == d);
    let mut result: Vec<Vec<char>> = Vec::new();
    let mut prev_blank = false;
    let mut k: usize = 0;
    while k < deduped.len()
        invariant
            k <= deduped.len(),
            views(deduped@) == d,
            views(result@) == collapse_blank(d.take(k as int)),
            prev_blank == (result@.len() > 0 && blank(views(result@).last())),
        decreases deduped.len() - k,
    {
        assert(d.take(k + 1).drop_last() =~= d.take(k as int));
        assert(views(deduped@)[k as int] == deduped@[k as int]@);
        let b = is_blank(deduped[k].as_slice());
        if !(b && prev_blank) {
            let l = deduped[k].clone();
            proof {
                lemma_views_push(result@, l);
            }
            result.push(l);
            prev_blank = b;
        }
        k += 1;
    }
    assert(d.take(deduped.len() as int) =~= d);
    let j = join_lines(&result);
    string_of(j.as_slice())
}

} // verus!
