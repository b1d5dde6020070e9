//! Orders on text and insertion into sorted sequences.
use vstd::prelude::*;
use crate::text::views;

verus! {

/// Lexicographic order of character sequences (the order of `String`).
pub open spec fn lex_lt(a: Seq<char>, b: Seq<char>) -> bool
    decreases a.len(),
{
    if a.len() == 0 {
        b.len() > 0
    } else if b.len() == 0 {
        false
    } else if a[0] != b[0] {
        (a[0] as u32) < (b[0] as u32)
    } else {
        lex_lt(a.drop_first(), b.drop_first())
    }
}

/// No sequence comes before itself.
pub proof fn lemma_lex_irreflexive(a: Seq<char>)
    ensures
        !lex_lt(a, a),
    decreases a.len(),
{
    if a.len() > 0 {
        lemma_lex_irreflexive(a.drop_first());
    }
}

/// The order is transitive.
pub proof fn lemma_lex_transitive(a: Seq<char>, b: Seq<char>, c: Seq<char>)
    requires
        lex_lt(a, b),
        lex_lt(b, c),
    ensures
        lex_lt(a, c),
    decreases a.len(),
{
    if a.len() > 0 && b.len() > 0 && c.len() > 0 && a[0] == b[0] && b[0] == c[0] {
        lemma_lex_transitive(a.drop_first(), b.drop_first(), c.drop_first());
    }
}

/// Of two different sequences, one comes before the other.
pub proof fn lemma_lex_total(a: Seq<char>, b: Seq<char>)
    requires
        a != b,
    ensures
        lex_lt(a, b) || lex_lt(b, a),
    decreases a.len(),
{
    if a.len() == 0 {
        assert(b.len() > 0) by {
            if b.len() == 0 {
                assert(a =~= b);
            }
        }
    } else if b.len() > 0 {
        if a[0] == b[0] {
            if a.drop_first() == b.drop_first() {
                assert(a =~= b) by {
                    assert(a.len() == a.drop_first().len() + 1);
                    assert(b.len() == b.drop_first().len() + 1);
                    assert forall|i: int| 0 <= i < a.len() implies a[i] == b[i] by {
                        if i > 0 {
                            assert(a[i] == a.drop_first()[i - 1]);
                            assert(b[i] == b.drop_first()[i - 1]);
                        }
                    }
                }
            }
            lemma_lex_total(a.drop_first(), b.drop_first());
        } else {
            vstd::utf8::char_u32_cast(a[0], a[0] as u32);
            vstd::utf8::char_u32_cast(b[0], b[0] as u32);
        }
    }
}

/// Elements in strictly increasing order of their keys (so no key occurs
/// twice).
pub open spec fn strictly_sorted<A>(s: Seq<A>, key: spec_fn(A) -> Seq<char>) -> bool {
    forall|i: int, j: int| 0 <= i < j < s.len() ==> lex_lt(key(#[trigger] s[i]), key(#[trigger] s[j]))
}

/// Inserting an element whose key is new keeps a strictly sorted sequence
/// strictly sorted, where `lt` compares keys.
pub proof fn lemma_insert_by_sorted<A>(s: Seq<A>, x: A, lt: spec_fn(A, A) -> bool, key: spec_fn(A) -> Seq<char>)
    requires
        strictly_sorted(s, key),
        forall|a: A, b: A| #[trigger] lt(a, b) == lex_lt(key(a), key(b)),
        forall|i: int| 0 <= i < s.len() ==> key(#[trigger] s[i]) != key(x),
    ensures
        strictly_sorted(insert_by(s, x, lt), key),
    decreases s.len(),
{
    if s.len() > 0 {
        let l = s.last();
        if lt(x, l) {
            let d = s.drop_last();
            assert forall|i: int, j: int| 0 <= i < j < d.len() implies lex_lt(key(#[trigger] d[i]), key(#[trigger] d[j])) by {
                assert(d[i] == s[i] && d[j] == s[j]);
            }
            assert forall|i: int| 0 <= i < d.len() implies key(#[trigger] d[i]) != key(x) by {
                assert(d[i] == s[i]);
            }
            lemma_insert_by_sorted(d, x, lt, key);
            let r = insert_by(d, x, lt);
            lemma_insert_by_len(d, x, lt);
            assert forall|i: int| 0 <= i < r.len() implies lex_lt(key(#[trigger] r[i]), key(l)) by {
                assert(r.contains(r[i]));
                lemma_insert_by_members(d, x, lt, r[i]);
                if r[i] != x {
                    let q = choose|q: int| 0 <= q < d.len() && d[q] == r[i];
                    assert(s[q] == r[i]);
                    assert(s[s.len() - 1] == l);
                }
            }
            let out = r.push(l);
            assert forall|i: int, j: int| 0 <= i < j < out.len() implies lex_lt(key(#[trigger] out[i]), key(#[trigger] out[j])) by {
                if j == r.len() {
                    assert(out[i] == r[i]);
                    assert(out[j] == l);
                } else {
                    assert(out[i] == r[i] && out[j] == r[j]);
                }
            }
        } else {
            assert(s[s.len() - 1] == l);
            lemma_lex_total(key(x), key(l));
            let out = s.push(x);
            assert forall|i: int, j: int| 0 <= i < j < out.len() implies lex_lt(key(#[trigger] out[i]), key(#[trigger] out[j])) by {
                if j == s.len() {
                    assert(out[i] == s[i]);
                    if i < s.len() - 1 {
                        lemma_lex_transitive(key(s[i]), key(l), key(x));
                    }
                } else {
                    assert(out[i] == s[i] && out[j] == s[j]);
                }
            }
        }
    }
}

/// `x` inserted into `s` after every element that `lt` does not put after it:
/// one step of a stable insertion sort.
pub open spec fn insert_by<A>(s: Seq<A>, x: A, lt: spec_fn(A, A) -> bool) -> Seq<A>
    decreases s.len(),
{
    if s.len() == 0 {
        seq![x]
    } else if lt(x, s.last()) {
        insert_by(s.drop_last(), x, lt).push(s.last())
    } else {
        s.push(x)
    }
}

/// `s` sorted by `lt`, equal elements in their original order.
pub open spec fn sort_by<A>(s: Seq<A>, lt: spec_fn(A, A) -> bool) -> Seq<A>
    decreases s.len(),
{
    if s.len() == 0 {
        seq![]
    } else {
        insert_by(sort_by(s.drop_last(), lt), s.last(), lt)
    }
}

pub proof fn lemma_insert_by_len<A>(s: Seq<A>, x: A, lt: spec_fn(A, A) -> bool)
    ensures
        insert_by(s, x, lt).len() == s.len() + 1,
    decreases s.len(),
{
    if s.len() > 0 && lt(x, s.last()) {
        lemma_insert_by_len(s.drop_last(), x, lt);
    }
}

/// Sorting keeps the length.
pub proof fn lemma_sort_by_len<A>(s: Seq<A>, lt: spec_fn(A, A) -> bool)
    ensures
        sort_by(s, lt).len() == s.len(),
    decreases s.len(),
{
    if s.len() > 0 {
        lemma_sort_by_len(s.drop_last(), lt);
        lemma_insert_by_len(sort_by(s.drop_last(), lt), s.last(), lt);
    }
}

/// Every element of `insert_by(s, x, lt)` is `x` or an element of `s`.
pub proof fn lemma_insert_by_members<A>(s: Seq<A>, x: A, lt: spec_fn(A, A) -> bool, y: A)
    requires
        insert_by(s, x, lt).contains(y),
    ensures
        y == x || s.contains(y),
    decreases s.len(),
{
    if s.len() > 0 {
        let r = insert_by(s, x, lt);
        let k = choose|k: int| 0 <= k < r.len() && r[k] == y;
        if lt(x, s.last()) {
            let d = insert_by(s.drop_last(), x, lt);
            lemma_insert_by_len(s.drop_last(), x, lt);
            if k < d.len() {
                assert(d[k] == y);
                lemma_insert_by_members(s.drop_last(), x, lt, y);
                if y != x {
                    let q = choose|q: int| 0 <= q < s.drop_last().len() && s.drop_last()[q] == y;
                    assert(s[q] == y);
                }
            } else {
                assert(s[s.len() - 1] == y);
            }
        } else {
            if k < s.len() {
                assert(s[k] == y);
            }
        }
    }
}

/// Sorting adds no element.
pub proof fn lemma_sort_by_members<A>(s: Seq<A>, lt: spec_fn(A, A) -> bool, y: A)
    requires
        sort_by(s, lt).contains(y),
    ensures
        s.contains(y),
    decreases s.len(),
{
    if s.len() > 0 {
        lemma_insert_by_members(sort_by(s.drop_last(), lt), s.last(), lt, y);
        if y != s.last() {
            lemma_sort_by_members(s.drop_last(), lt, y);
            let q = choose|q: int| 0 <= q < s.drop_last().len() && s.drop_last()[q] == y;
            assert(s[q] == y);
        } else {
            assert(s[s.len() - 1] == y);
        }
    }
}

/// Inserting at `j` is `insert_by` when everything from `j` on comes after
/// `x` and the element before `j` does not.
pub proof fn lemma_insert_by_at<A>(s: Seq<A>, x: A, lt: spec_fn(A, A) -> bool, j: int)
    requires
        0 <= j <= s.len(),
        forall|k: int| j <= k < s.len() ==> lt(x, #[trigger] s[k]),
        j > 0 ==> !lt(x, s[j - 1]),
    ensures
        insert_by(s, x, lt) == s.insert(j, x),
    decreases s.len(),
{
    if s.len() == 0 {
        assert(s.insert(j, x) =~= seq![x]);
    } else if j == s.len() {
        assert(s.insert(j, x) =~= s.push(x));
    } else {
        let d = s.drop_last();
        assert(lt(x, s[s.len() - 1]));
        assert forall|k: int| j <= k < d.len() implies lt(x, #[trigger] d[k]) by {
            assert(d[k] == s[k]);
        }
        lemma_insert_by_at(d, x, lt, j);
        assert(d.insert(j, x).push(s.last()) =~= s.insert(j, x));
    }
}

/// Whether `a` comes before `b` in the order of `String`.
pub fn less(a: &[char], b: &[char]) -> (r: bool)
    ensures
        r == lex_lt(a@, b@),
{
    let mut i: usize = 0;
    assert(a@.skip(0) =~= a@);
    assert(b@.skip(0) =~= b@);
    while i < a.len() && i < b.len()
        invariant
            i <= a.len(),
            i <= b.len(),
            lex_lt(a@, b@) == lex_lt(a@.skip(i as int), b@.skip(i as int)),
        decreases a.len() - i,
    {
        let ghost x = a@.skip(i as int);
        let ghost y = b@.skip(i as int);
        assert(x[0] == a@[i as int]);
        assert(y[0] == b@[i as int]);
        if a[i] != b[i] {
            return (a[i] as u32) < (b[i] as u32);
        }
        assert(x.drop_first() =~= a@.skip(i + 1));
        assert(y.drop_first() =~= b@.skip(i + 1));
        i += 1;
    }
    let ghost x = a@.skip(i as int);
    let ghost y = b@.skip(i as int);
    i == a.len() && i < b.len()
}

/// Inserts `x` into a list sorted by `lex_lt`, after the elements that are
/// not greater.
pub fn insert_name(v: &mut Vec<Vec<char>>, x: Vec<char>)
    ensures
        views(final(v)@) == insert_by(views(old(v)@), x@, |a: Seq<char>, b: Seq<char>| lex_lt(a, b)),
{
    let ghost lt = |a: Seq<char>, b: Seq<char>| lex_lt(a, b);
    let ghost s0 = views(v@);
    let mut j = v.len();
    while j > 0 && less(x.as_slice(), v[j - 1].as_slice())
        invariant
            j <= v.len(),
            s0 == views(v@),
            lt == (|a: Seq<char>, b: Seq<char>| lex_lt(a, b)),
            forall|k: int| j <= k < s0.len() ==> lt(x@, #[trigger] s0[k]),
        decreases j,
    {
        assert(s0[j - 1] == v@[j - 1]@);
        j -= 1;
    }
    proof {
        if j > 0 {
            assert(s0[j - 1] == v@[j - 1]@);
        }
        lemma_insert_by_at(s0, x@, lt, j as int);
    }
    let ghost xv = x@;
    v.insert(j, x);
    assert(views(v@) =~= s0.insert(j as int, xv));
}

} // verus!
