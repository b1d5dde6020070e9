//! SimHash-based near-duplicate line deduplication.
//!
//! A 64-bit locality-sensitive hash (SimHash over FNV-1a token hashes) groups
//! lines that differ only in metadata such as timestamps or sequence numbers.
//! Critical lines (error/warning/fatal/...) are never grouped.
use vstd::prelude::*;
use vstd::utf8::encode_utf8;
use crate::outside::{regex_is_match, regex_match};
use crate::text::{
    chars_of, decimal, join, join_lines, lemma_fold_take, lemma_views_push, lines, lines_of,
    push_decimal, push_str, string_of, views, words, words_of,
};

verus! {

/// Minimum line count at which SimHash deduplication is worth running.
pub const MIN_LINES: usize = 50;

/// Maximum Hamming distance for two SimHashes to count as near-duplicates.
pub const HAMMING_THRESHOLD: u32 = 10;

pub const FNV_OFFSET: u64 = 0xcbf2_9ce4_8422_2325;

pub const FNV_PRIME: u64 = 0x0000_0100_0000_01b3;

// ───────────────────────────── specifications ─────────────────────────────

pub open spec fn fnv_step(h: u64, b: u8) -> u64 {
    vstd::wrapping::u64_specs::wrapping_mul(h ^ (b as u64), FNV_PRIME)
}

/// 64-bit FNV-1a of a byte string.
pub open spec fn fnv1a_spec(bytes: Seq<u8>) -> u64 {
    bytes.fold_left(FNV_OFFSET, |h: u64, b: u8| fnv_step(h, b))
}

/// Bit `i` of `x`.
pub open spec fn bit(x: u64, i: u64) -> bool {
    (x >> i) & 1 == 1
}

/// How many of the hashes have bit `i` set.
pub open spec fn ones(hs: Seq<u64>, i: u64) -> nat
    decreases hs.len(),
{
    if hs.len() == 0 {
        0
    } else {
        ones(hs.drop_last(), i) + if bit(hs.last(), i) {
            1nat
        } else {
            0nat
        }
    }
}

/// The number whose bit `k` is `bs[k]`, for the first `bs.len()` bits.
pub open spec fn from_bits(bs: Seq<bool>) -> u64
    decreases bs.len(),
{
    if bs.len() == 0 {
        0
    } else {
        from_bits(bs.drop_last()) | if bs.last() {
            1u64 << ((bs.len() - 1) as u64)
        } else {
            0u64
        }
    }
}

/// FNV-1a hash of each whitespace-separated token of a line.
pub open spec fn token_hashes(line: Seq<char>) -> Seq<u64> {
    words(line).map_values(|w: Seq<char>| fnv1a_spec(encode_utf8(w)))
}

/// The SimHash of a line: bit `i` is set when more tokens have bit `i` set
/// in their hash than not; a line without tokens hashes to 0.
pub open spec fn simhash_spec(line: Seq<char>) -> u64 {
    let hs = token_hashes(line);
    if hs.len() == 0 {
        0
    } else {
        from_bits(Seq::new(64, |i: int| 2 * ones(hs, i as u64) > hs.len()))
    }
}

/// Number of the first `n` bit positions where `a` and `b` differ.
pub open spec fn diff_bits(a: u64, b: u64, n: nat) -> nat
    decreases n,
{
    if n == 0 {
        0
    } else {
        diff_bits(a, b, (n - 1) as nat) + if bit(a, (n - 1) as u64) != bit(b, (n - 1) as u64) {
            1nat
        } else {
            0nat
        }
    }
}

/// Hamming distance of two 64-bit hashes.
pub open spec fn hamming_spec(a: u64, b: u64) -> nat {
    diff_bits(a, b, 64)
}

/// A line matches the critical pattern.
pub open spec fn critical_line(line: Seq<char>) -> bool {
    regex_is_match(
        "(?i)(error|warning|warn|failed|failure|fatal|panic|exception|critical)"@,
        line,
    ) == Some(true)
}

/// Line `i` is a representative that may absorb line `j`.
pub open spec fn absorbs(
    c: Seq<bool>,
    h: Seq<u64>,
    t: u32,
    r: Seq<bool>,
    i: int,
    j: int,
) -> bool {
    r[i] && !c[i] && !c[j] && hamming_spec(h[i], h[j]) <= t
}

/// Which of the first `n` lines stay as representatives: a line is absorbed
/// when an earlier representative may absorb it.
pub open spec fn reps(c: Seq<bool>, h: Seq<u64>, t: u32, n: nat) -> Seq<bool>
    decreases n,
{
    if n == 0 {
        seq![]
    } else {
        let r = reps(c, h, t, (n - 1) as nat);
        r.push(!exists|i: int| 0 <= i < n - 1 && #[trigger] absorbs(c, h, t, r, i, n - 1))
    }
}

/// The first representative at or after `k` that absorbs line `j`, or `j`.
pub open spec fn first_absorber(
    c: Seq<bool>,
    h: Seq<u64>,
    t: u32,
    r: Seq<bool>,
    j: int,
    k: int,
) -> int
    decreases j - k,
{
    if k >= j {
        j
    } else if absorbs(c, h, t, r, k, j) {
        k
    } else {
        first_absorber(c, h, t, r, j, k + 1)
    }
}

/// How many of the lines `i+1 .. m` representative `i` absorbs.
pub open spec fn dup_count(c: Seq<bool>, h: Seq<u64>, t: u32, r: Seq<bool>, i: int, m: int) -> nat
    decreases m - i,
{
    if m <= i + 1 {
        0
    } else {
        dup_count(c, h, t, r, i, m - 1) + if first_absorber(c, h, t, r, m - 1, 0) == i {
            1nat
        } else {
            0nat
        }
    }
}

/// The marker line `[N similar lines omitted]`.
pub open spec fn omitted_marker(n: nat) -> Seq<char> {
    "["@ + decimal(n) + " similar lines omitted]"@
}

/// The output contributed by line `i`.
pub open spec fn block(
    lines: Seq<Seq<char>>,
    c: Seq<bool>,
    h: Seq<u64>,
    t: u32,
    r: Seq<bool>,
    i: int,
) -> Seq<Seq<char>> {
    if r[i] {
        let d = dup_count(c, h, t, r, i, lines.len() as int);
        if d > 0 {
            seq![lines[i], omitted_marker(d)]
        } else {
            seq![lines[i]]
        }
    } else {
        seq![]
    }
}

pub open spec fn out_prefix(
    lines: Seq<Seq<char>>,
    c: Seq<bool>,
    h: Seq<u64>,
    t: u32,
    r: Seq<bool>,
    k: int,
) -> Seq<Seq<char>>
    decreases k,
{
    if k <= 0 {
        seq![]
    } else {
        out_prefix(lines, c, h, t, r, k - 1) + block(lines, c, h, t, r, k - 1)
    }
}

pub open spec fn crit_flags(lines: Seq<Seq<char>>) -> Seq<bool> {
    lines.map_values(|l: Seq<char>| critical_line(l))
}

pub open spec fn hash_values(lines: Seq<Seq<char>>) -> Seq<u64> {
    lines.map_values(|l: Seq<char>| simhash_spec(l))
}

/// The deduplicated lines: each representative in order, followed by a
/// marker when it absorbed later lines.
pub open spec fn dedup_spec(lines: Seq<Seq<char>>, t: u32) -> Seq<Seq<char>> {
    let c = crit_flags(lines);
    let h = hash_values(lines);
    let r = reps(c, h, t, lines.len());
    out_prefix(lines, c, h, t, r, lines.len() as int)
}

// ───────────────────────────── lemmas ─────────────────────────────

proof fn lemma_reps_len(c: Seq<bool>, h: Seq<u64>, t: u32, n: nat)
    ensures
        reps(c, h, t, n).len() == n,
    decreases n,
{
    if n > 0 {
        lemma_reps_len(c, h, t, (n - 1) as nat);
    }
}

/// Earlier flags do not change as more lines are considered.
proof fn lemma_reps_prefix(c: Seq<bool>, h: Seq<u64>, t: u32, m: nat, n: nat)
    requires
        m <= n,
    ensures
        reps(c, h, t, n).take(m as int) == reps(c, h, t, m),
    decreases n,
{
    lemma_reps_len(c, h, t, n);
    lemma_reps_len(c, h, t, m);
    if m < n {
        lemma_reps_prefix(c, h, t, m, (n - 1) as nat);
        lemma_reps_len(c, h, t, (n - 1) as nat);
        assert(reps(c, h, t, n).take(m as int) =~= reps(c, h, t, (n - 1) as nat).take(m as int));
    } else {
        assert(reps(c, h, t, n).take(m as int) =~= reps(c, h, t, n));
    }
}

proof fn lemma_first_absorber(c: Seq<bool>, h: Seq<u64>, t: u32, r: Seq<bool>, j: int, k: int)
    requires
        k <= j,
    ensures
        k <= first_absorber(c, h, t, r, j, k) <= j,
        first_absorber(c, h, t, r, j, k) < j ==> absorbs(
            c,
            h,
            t,
            r,
            first_absorber(c, h, t, r, j, k),
            j,
        ),
        forall|i: int|
            k <= i < first_absorber(c, h, t, r, j, k) ==> !#[trigger] absorbs(c, h, t, r, i, j),
    decreases j - k,
{
    if k < j && !absorbs(c, h, t, r, k, j) {
        lemma_first_absorber(c, h, t, r, j, k + 1);
    }
}

/// Line `j` of `n` is a representative exactly when nothing earlier absorbs it.
proof fn lemma_rep_iff(c: Seq<bool>, h: Seq<u64>, t: u32, n: nat, j: int)
    requires
        0 <= j < n,
    ensures
        reps(c, h, t, n)[j] == (first_absorber(c, h, t, reps(c, h, t, n), j, 0) == j),
{
    let r = reps(c, h, t, n);
    let rj = reps(c, h, t, j as nat);
    lemma_reps_prefix(c, h, t, (j + 1) as nat, n);
    lemma_reps_prefix(c, h, t, j as nat, n);
    lemma_reps_len(c, h, t, n);
    lemma_reps_len(c, h, t, j as nat);
    assert(r[j] == reps(c, h, t, (j + 1) as nat)[j]);
    assert forall|i: int| 0 <= i < j implies absorbs(c, h, t, rj, i, j) == absorbs(
        c,
        h,
        t,
        r,
        i,
        j,
    ) by {
        assert(rj[i] == r.take(j)[i]);
    }
    lemma_first_absorber(c, h, t, r, j, 0);
    let f = first_absorber(c, h, t, r, j, 0);
    if f < j {
        assert(absorbs(c, h, t, rj, f, j));
    }
}

/// A critical line absorbs nothing.
proof fn lemma_critical_absorbs_nothing(
    c: Seq<bool>,
    h: Seq<u64>,
    t: u32,
    r: Seq<bool>,
    i: int,
    m: int,
)
    requires
        0 <= i < c.len(),
        c[i] || !r[i],
    ensures
        dup_count(c, h, t, r, i, m) == 0,
    decreases m - i,
{
    if m > i + 1 {
        lemma_critical_absorbs_nothing(c, h, t, r, i, m - 1);
        lemma_first_absorber(c, h, t, r, m - 1, 0);
        if first_absorber(c, h, t, r, m - 1, 0) == i {
            assert(absorbs(c, h, t, r, i, m - 1));
        }
    }
}

/// The output for the first `k` lines is a prefix of that for the first `m`.
proof fn lemma_out_prefix_grows(
    lines: Seq<Seq<char>>,
    c: Seq<bool>,
    h: Seq<u64>,
    t: u32,
    r: Seq<bool>,
    k: int,
    m: int,
)
    requires
        0 <= k <= m,
    ensures
        out_prefix(lines, c, h, t, r, k).len() <= out_prefix(lines, c, h, t, r, m).len(),
        out_prefix(lines, c, h, t, r, m).take(out_prefix(lines, c, h, t, r, k).len() as int)
            == out_prefix(lines, c, h, t, r, k),
    decreases m - k,
{
    if k < m {
        lemma_out_prefix_grows(lines, c, h, t, r, k, m - 1);
        let a = out_prefix(lines, c, h, t, r, k);
        let b = out_prefix(lines, c, h, t, r, m - 1);
        assert((b + block(lines, c, h, t, r, m - 1)).take(a.len() as int) =~= b.take(
            a.len() as int,
        ));
    } else {
        let a = out_prefix(lines, c, h, t, r, k);
        assert(a.take(a.len() as int) =~= a);
    }
}

/// Lines that match the critical pattern are never grouped as duplicates:
/// every one of them appears in the output in full.
pub proof fn lemma_critical_lines_kept(lines: Seq<Seq<char>>, t: u32, i: int)
    requires
        0 <= i < lines.len(),
        critical_line(lines[i]),
    ensures
        dedup_spec(lines, t).contains(lines[i]),
{
    let c = crit_flags(lines);
    let h = hash_values(lines);
    let n = lines.len();
    let r = reps(c, h, t, n);
    lemma_reps_len(c, h, t, n);
    lemma_rep_iff(c, h, t, n, i);
    lemma_first_absorber(c, h, t, r, i, 0);
    let f = first_absorber(c, h, t, r, i, 0);
    if f < i {
        assert(absorbs(c, h, t, r, f, i));
        assert(c[i]);
    }
    assert(r[i]);
    lemma_out_prefix_grows(lines, c, h, t, r, i + 1, n as int);
    let p = out_prefix(lines, c, h, t, r, i);
    let q = out_prefix(lines, c, h, t, r, i + 1);
    assert(q[p.len() as int] == lines[i]);
    let out = dedup_spec(lines, t);
    assert(out[p.len() as int] == q[p.len() as int]);
}

/// The lines that the first `k` lines stand for when `m` lines are
/// considered: each representative stands for itself and for the lines its
/// marker counts.
pub open spec fn stands_for(c: Seq<bool>, h: Seq<u64>, t: u32, r: Seq<bool>, k: int, m: int) -> nat
    decreases k,
{
    if k <= 0 {
        0
    } else {
        stands_for(c, h, t, r, k - 1, m) + if r[k - 1] {
            1 + dup_count(c, h, t, r, k - 1, m)
        } else {
            0
        }
    }
}

/// How many of the first `k` representatives absorb line `j`.
spec fn hits(c: Seq<bool>, h: Seq<u64>, t: u32, r: Seq<bool>, k: int, j: int) -> nat
    decreases k,
{
    if k <= 0 {
        0
    } else {
        hits(c, h, t, r, k - 1, j) + if r[k - 1] && first_absorber(c, h, t, r, j, 0) == k - 1 {
            1nat
        } else {
            0nat
        }
    }
}

proof fn lemma_hits(c: Seq<bool>, h: Seq<u64>, t: u32, r: Seq<bool>, k: int, j: int)
    requires
        0 <= k,
    ensures
        hits(c, h, t, r, k, j) == if 0 <= first_absorber(c, h, t, r, j, 0) < k && r[first_absorber(
            c,
            h,
            t,
            r,
            j,
            0,
        )] {
            1nat
        } else {
            0nat
        },
    decreases k,
{
    if k > 0 {
        lemma_hits(c, h, t, r, k - 1, j);
    }
}

proof fn lemma_stands_for_step(c: Seq<bool>, h: Seq<u64>, t: u32, r: Seq<bool>, k: int, m: int)
    requires
        0 <= k <= m,
    ensures
        stands_for(c, h, t, r, k, m + 1) == stands_for(c, h, t, r, k, m) + hits(c, h, t, r, k, m),
    decreases k,
{
    if k > 0 {
        lemma_stands_for_step(c, h, t, r, k - 1, m);
        if k - 1 < m {
            assert(dup_count(c, h, t, r, k - 1, m + 1) == dup_count(c, h, t, r, k - 1, m) + if first_absorber(c, h, t, r, m, 0) == k - 1 {
                1nat
            } else {
                0nat
            });
        }
    }
}

proof fn lemma_stands_for_all(lines: Seq<Seq<char>>, t: u32, m: int)
    requires
        0 <= m <= lines.len(),
    ensures
        stands_for(
            crit_flags(lines),
            hash_values(lines),
            t,
            reps(crit_flags(lines), hash_values(lines), t, lines.len()),
            m,
            m,
        ) == m,
    decreases m,
{
    let c = crit_flags(lines);
    let h = hash_values(lines);
    let n = lines.len();
    let r = reps(c, h, t, n);
    if m > 0 {
        let j = m - 1;
        lemma_stands_for_all(lines, t, j);
        lemma_stands_for_step(c, h, t, r, j, j);
        lemma_hits(c, h, t, r, j, j);
        lemma_first_absorber(c, h, t, r, j, 0);
        lemma_rep_iff(c, h, t, n, j);
        assert(dup_count(c, h, t, r, j, j + 1) == 0);
        let f = first_absorber(c, h, t, r, j, 0);
        if f < j {
            assert(absorbs(c, h, t, r, f, j));
        }
    }
}

/// Every input line is accounted for exactly once: it is kept as a
/// representative or counted in the marker of the one that absorbed it.
pub proof fn lemma_every_line_accounted(lines: Seq<Seq<char>>, t: u32)
    ensures
        stands_for(
            crit_flags(lines),
            hash_values(lines),
            t,
            reps(crit_flags(lines), hash_values(lines), t, lines.len()),
            lines.len() as int,
            lines.len() as int,
        ) == lines.len(),
{
    lemma_stands_for_all(lines, t, lines.len() as int);
}

proof fn lemma_out_len(lines: Seq<Seq<char>>, c: Seq<bool>, h: Seq<u64>, t: u32, r: Seq<bool>, k: int)
    requires
        0 <= k,
    ensures
        out_prefix(lines, c, h, t, r, k).len() <= stands_for(c, h, t, r, k, lines.len() as int),
    decreases k,
{
    if k > 0 {
        lemma_out_len(lines, c, h, t, r, k - 1);
    }
}

/// Deduplication never lengthens the text: the output has at most as many
/// lines as the input.
pub proof fn lemma_dedup_no_longer(lines: Seq<Seq<char>>, t: u32)
    ensures
        dedup_spec(lines, t).len() <= lines.len(),
{
    let c = crit_flags(lines);
    let h = hash_values(lines);
    let r = reps(c, h, t, lines.len());
    lemma_out_len(lines, c, h, t, r, lines.len() as int);
    lemma_every_line_accounted(lines, t);
}

/// An empty input gives an empty output.
pub proof fn lemma_dedup_empty(t: u32)
    ensures
        dedup_spec(Seq::<Seq<char>>::empty(), t) == Seq::<Seq<char>>::empty(),
{
}

proof fn lemma_ones_step(hs: Seq<u64>, k: int, i: u64)
    requires
        0 <= k < hs.len(),
    ensures
        ones(hs.take(k + 1), i) == ones(hs.take(k), i) + if bit(hs[k], i) {
            1nat
        } else {
            0nat
        },
        ones(hs.take(k), i) <= k,
    decreases k,
{
    assert(hs.take(k + 1).drop_last() =~= hs.take(k));
    if k > 0 {
        lemma_ones_step(hs, k - 1, i);
    }
}

proof fn lemma_diff_bits_symmetric(a: u64, b: u64, n: nat)
    ensures
        diff_bits(a, b, n) == diff_bits(b, a, n),
        diff_bits(a, a, n) == 0,
        diff_bits(a, b, n) <= n,
    decreases n,
{
    if n > 0 {
        lemma_diff_bits_symmetric(a, b, (n - 1) as nat);
    }
}

/// Hamming distance is symmetric, zero from a hash to itself, and at most 64.
pub proof fn lemma_hamming_metric(a: u64, b: u64)
    ensures
        hamming_spec(a, b) == hamming_spec(b, a),
        hamming_spec(a, a) == 0,
        hamming_spec(a, b) <= 64,
{
    lemma_diff_bits_symmetric(a, b, 64);
}

/// FNV-1a of a byte string and one more byte is one FNV step from the hash
/// of the string; the empty string hashes to the offset basis.
pub proof fn lemma_fnv1a_append(bytes: Seq<u8>, b: u8)
    ensures
        fnv1a_spec(bytes.push(b)) == fnv_step(fnv1a_spec(bytes), b),
        fnv1a_spec(Seq::<u8>::empty()) == FNV_OFFSET,
{
    assert(bytes.push(b).drop_last() =~= bytes);
}

/// FNV-1a of the single byte `a` (97).
pub proof fn lemma_fnv1a_of_a()
    ensures
        fnv1a_spec(seq![97u8]) == 0xaf63_dc4c_8601_ec8cu64,
{
    lemma_fnv1a_append(Seq::<u8>::empty(), 97u8);
    assert(Seq::<u8>::empty().push(97u8) =~= seq![97u8]);
    assert(0xcbf2_9ce4_8422_2325u64 ^ 97u64 == 0xcbf2_9ce4_8422_2344u64) by (bit_vector);
    assert((0xcbf2_9ce4_8422_2344u64 as nat * 0x0000_0100_0000_01b3u64 as nat) % 0x1_0000_0000_0000_0000nat
        == 0xaf63_dc4c_8601_ec8cnat);
}

proof fn lemma_diff_bits_triangle(a: u64, b: u64, c: u64, n: nat)
    ensures
        diff_bits(a, b, n) <= diff_bits(a, c, n) + diff_bits(c, b, n),
    decreases n,
{
    if n > 0 {
        lemma_diff_bits_triangle(a, b, c, (n - 1) as nat);
    }
}

proof fn lemma_diff_bits_xor(a: u64, b: u64, n: nat)
    requires
        n <= 64,
    ensures
        diff_bits(a, b, n) == diff_bits(a ^ b, 0, n),
    decreases n,
{
    if n > 0 {
        lemma_diff_bits_xor(a, b, (n - 1) as nat);
        let i = (n - 1) as u64;
        assert(bit(a ^ b, i) == (bit(a, i) != bit(b, i)) && !bit(0, i)) by (bit_vector)
            requires
                i < 64,
        ;
    }
}

/// The low `n` bits of a word (all of them for `n == 64`).
pub open spec fn low_mask(n: u64) -> u64 {
    if n >= 64 {
        0xffff_ffff_ffff_ffffu64
    } else {
        ((1u64 << n) - 1) as u64
    }
}

proof fn lemma_no_diff_low_bits(x: u64, n: nat)
    requires
        n <= 64,
        diff_bits(x, 0, n) == 0,
    ensures
        x & low_mask(n as u64) == 0,
    decreases n,
{
    if n == 0 {
        assert(x & ((1u64 << 0u64) - 1) as u64 == 0) by (bit_vector);
    } else {
        let m = (n - 1) as u64;
        lemma_no_diff_low_bits(x, (n - 1) as nat);
        assert(!bit(0, m)) by (bit_vector)
            requires
                m < 64,
        ;
        assert(!bit(x, m));
        if n < 64 {
            assert(x & ((1u64 << (m + 1)) - 1) as u64 == 0) by (bit_vector)
                requires
                    m < 63,
                    x & ((1u64 << m) - 1) as u64 == 0,
                    !((x >> m) & 1 == 1),
            ;
        } else {
            assert(x & 0xffff_ffff_ffff_ffffu64 == 0) by (bit_vector)
                requires
                    m == 63,
                    x & ((1u64 << m) - 1) as u64 == 0,
                    !((x >> m) & 1 == 1),
            ;
        }
    }
}

/// Hamming distance is the number of set bits of `a ^ b`; it is zero only
/// for equal hashes, and it obeys the triangle inequality.
pub proof fn lemma_hamming_laws(a: u64, b: u64, c: u64)
    ensures
        hamming_spec(a, b) == hamming_spec(a ^ b, 0),
        hamming_spec(a, b) == 0 <==> a == b,
        hamming_spec(a, b) <= hamming_spec(a, c) + hamming_spec(c, b),
{
    lemma_diff_bits_xor(a, b, 64);
    lemma_diff_bits_triangle(a, b, c, 64);
    lemma_diff_bits_symmetric(a, b, 64);
    if hamming_spec(a, b) == 0 {
        lemma_no_diff_low_bits(a ^ b, 64);
        assert(a == b) by (bit_vector)
            requires
                (a ^ b) & 0xffff_ffff_ffff_ffffu64 == 0,
        ;
    }
    if a == b {
        lemma_hamming_metric(a, b);
    }
}

/// How many elements of `s` satisfy `p`.
pub open spec fn count_where<A>(s: Seq<A>, p: spec_fn(A) -> bool) -> nat
    decreases s.len(),
{
    if s.len() == 0 {
        0
    } else {
        count_where(s.drop_last(), p) + if p(s.last()) {
            1nat
        } else {
            0nat
        }
    }
}

proof fn lemma_count_remove<A>(s: Seq<A>, p: spec_fn(A) -> bool, k: int)
    requires
        0 <= k < s.len(),
    ensures
        count_where(s, p) == count_where(s.remove(k), p) + if p(s[k]) {
            1nat
        } else {
            0nat
        },
    decreases s.len(),
{
    if k == s.len() - 1 {
        assert(s.remove(k) =~= s.drop_last());
    } else {
        lemma_count_remove(s.drop_last(), p, k);
        assert(s.remove(k).drop_last() =~= s.drop_last().remove(k));
        assert(s.remove(k).last() == s.last());
        assert(s.drop_last()[k] == s[k]);
    }
}

proof fn lemma_count_perm<A>(s: Seq<A>, t: Seq<A>, p: spec_fn(A) -> bool)
    requires
        s.to_multiset() == t.to_multiset(),
    ensures
        count_where(s, p) == count_where(t, p),
    decreases s.len(),
{
    s.to_multiset_ensures();
    t.to_multiset_ensures();
    if s.len() == 0 {
        assert(t.to_multiset().len() == 0);
        assert(t.len() == 0);
    } else {
        let x = s.last();
        let d = s.drop_last();
        d.to_multiset_ensures();
        assert(d.push(x) =~= s);
        assert(s.to_multiset() =~= d.to_multiset().insert(x));
        assert(t.to_multiset().count(x) > 0);
        assert(t.contains(x));
        let k = choose|k: int| 0 <= k < t.len() && t[k] == x;
        t.remove(k).to_multiset_ensures();
        assert(t.remove(k).to_multiset() =~= t.to_multiset().remove(x));
        assert(t.remove(k).to_multiset() =~= d.to_multiset());
        lemma_count_perm(d, t.remove(k), p);
        lemma_count_remove(t, p, k);
    }
}

proof fn lemma_ones_count(ws: Seq<Seq<char>>, i: u64)
    ensures
        ones(ws.map_values(|w: Seq<char>| fnv1a_spec(encode_utf8(w))), i) == count_where(
            ws,
            |w: Seq<char>| bit(fnv1a_spec(encode_utf8(w)), i),
        ),
    decreases ws.len(),
{
    let h = |w: Seq<char>| fnv1a_spec(encode_utf8(w));
    if ws.len() > 0 {
        lemma_ones_count(ws.drop_last(), i);
        assert(ws.map_values(h).drop_last() =~= ws.drop_last().map_values(h));
    }
}

/// SimHash depends on the tokens of a line and how often each occurs, not
/// on their order or the whitespace between them.
pub proof fn lemma_simhash_token_order(a: Seq<char>, b: Seq<char>)
    requires
        words(a).to_multiset() == words(b).to_multiset(),
    ensures
        simhash_spec(a) == simhash_spec(b),
{
    words(a).to_multiset_ensures();
    words(b).to_multiset_ensures();
    let ha = token_hashes(a);
    let hb = token_hashes(b);
    assert(words(a).len() == words(b).len()) by {
        assert(words(a).to_multiset().len() == words(b).to_multiset().len());
    }
    assert forall|i: int| 0 <= i < 64 implies #[trigger] ones(ha, i as u64) == ones(hb, i as u64) by {
        let q = |w: Seq<char>| bit(fnv1a_spec(encode_utf8(w)), i as u64);
        lemma_ones_count(words(a), i as u64);
        lemma_ones_count(words(b), i as u64);
        lemma_count_perm(words(a), words(b), q);
    }
    let ba = Seq::new(64, |i: int| 2 * ones(ha, i as u64) > ha.len());
    let bb = Seq::new(64, |i: int| 2 * ones(hb, i as u64) > hb.len());
    assert(ba =~= bb);
}

/// `s` written `k` times in a row.
pub open spec fn repeated<A>(s: Seq<A>, k: nat) -> Seq<A>
    decreases k,
{
    if k == 0 {
        seq![]
    } else {
        repeated(s, (k - 1) as nat) + s
    }
}

proof fn lemma_count_append<A>(s: Seq<A>, t: Seq<A>, p: spec_fn(A) -> bool)
    ensures
        count_where(s + t, p) == count_where(s, p) + count_where(t, p),
    decreases t.len(),
{
    if t.len() > 0 {
        lemma_count_append(s, t.drop_last(), p);
        assert((s + t).drop_last() =~= s + t.drop_last());
        assert((s + t).last() == t.last());
    } else {
        assert(s + t =~= s);
    }
}

proof fn lemma_count_repeated<A>(s: Seq<A>, k: nat, p: spec_fn(A) -> bool)
    ensures
        count_where(repeated(s, k), p) == k * count_where(s, p),
        repeated(s, k).len() == k * s.len(),
    decreases k,
{
    if k > 0 {
        lemma_count_repeated(s, (k - 1) as nat, p);
        lemma_count_append(repeated(s, (k - 1) as nat), s, p);
        assert(k * count_where(s, p) == (k - 1) * count_where(s, p) + count_where(s, p)) by (nonlinear_arith);
        assert(k * s.len() == (k - 1) * s.len() + s.len()) by (nonlinear_arith);
    }
}

/// Repeating every token of a line the same number of times (in any order)
/// leaves its SimHash unchanged: each bit's vote keeps its sign.
pub proof fn lemma_simhash_repeated_tokens(a: Seq<char>, b: Seq<char>, k: nat)
    requires
        k >= 1,
        words(b).to_multiset() == repeated(words(a), k).to_multiset(),
    ensures
        simhash_spec(b) == simhash_spec(a),
{
    let wa = words(a);
    let wr = repeated(wa, k);
    words(b).to_multiset_ensures();
    wr.to_multiset_ensures();
    let ha = token_hashes(a);
    let hb = token_hashes(b);
    let q0 = |w: Seq<char>| bit(fnv1a_spec(encode_utf8(w)), 0u64);
    lemma_count_repeated(wa, k, q0);
    assert(words(b).len() == wr.len()) by {
        assert(words(b).to_multiset().len() == wr.to_multiset().len());
    }
    assert(hb.len() == k * ha.len());
    assert forall|i: int| 0 <= i < 64 implies (2 * #[trigger] ones(hb, i as u64) > hb.len()) == (2
        * ones(ha, i as u64) > ha.len()) by {
        let q = |w: Seq<char>| bit(fnv1a_spec(encode_utf8(w)), i as u64);
        lemma_ones_count(wa, i as u64);
        lemma_ones_count(words(b), i as u64);
        lemma_count_perm(words(b), wr, q);
        lemma_count_repeated(wa, k, q);
        let o = ones(ha, i as u64);
        let n = ha.len();
        assert(ones(hb, i as u64) == k * o);
        assert((2 * (k * o) > k * n) == (2 * o > n)) by (nonlinear_arith)
            requires
                k >= 1,
        ;
    }
    if ha.len() == 0 {
        assert(hb.len() == 0) by (nonlinear_arith)
            requires
                hb.len() == k * ha.len(),
                ha.len() == 0,
        ;
    } else {
        assert(hb.len() > 0) by (nonlinear_arith)
            requires
                hb.len() == k * ha.len(),
                ha.len() > 0,
                k >= 1,
        ;
        let ba = Seq::new(64, |i: int| 2 * ones(ha, i as u64) > ha.len());
        let bb = Seq::new(64, |i: int| 2 * ones(hb, i as u64) > hb.len());
        assert(ba =~= bb);
    }
}

// ───────────────────────────── executable code ─────────────────────────────

/// 64-bit FNV-1a.
pub fn fnv1a(bytes: &[u8]) -> (h: u64)
    ensures
        h == fnv1a_spec(bytes@),
{
    let mut h: u64 = FNV_OFFSET;
    let mut k: usize = 0;
    while k < bytes.len()
        invariant
            k <= bytes.len(),
            h == bytes@.take(k as int).fold_left(FNV_OFFSET, |h: u64, b: u8| fnv_step(h, b)),
        decreases bytes.len() - k,
    {
        proof {
            lemma_fold_take(bytes@, FNV_OFFSET, |h: u64, b: u8| fnv_step(h, b), k as int);
        }
        h = h ^ (bytes[k] as u64);
        h = h.wrapping_mul(FNV_PRIME);
        k += 1;
    }
    assert(bytes@.take(bytes.len() as int) =~= bytes@);
    h
}

fn bit_of(x: u64, i: u64) -> (b: bool)
    requires
        i < 64,
    ensures
        b == bit(x, i),
{
    (x >> i) & 1 == 1
}

/// The SimHash of a line given as characters.
pub fn simhash_chars(line: &[char]) -> (r: u64)
    ensures
        r == simhash_spec(line@),
{
    let ws = words_of(line);
    let ghost hs = token_hashes(line@);
    let mut counts: Vec<usize> = Vec::new();
    let mut i: usize = 0;
    while i < 64
        invariant
            i <= 64,
            counts@.len() == i,
            forall|j: int| 0 <= j < i ==> counts@[j] == 0,
        decreases 64 - i,
    {
        counts.push(0);
        i += 1;
    }
    let mut k: usize = 0;
    while k < ws.len()
        invariant
            k <= ws.len(),
            views(ws@) == words(line@),
            hs == token_hashes(line@),
            hs.len() == ws.len(),
            counts@.len() == 64,
            forall|j: int| 0 <= j < 64 ==> counts@[j] == ones(hs.take(k as int), j as u64),
        decreases ws.len() - k,
    {
        let s = string_of(ws[k].as_slice());
        let bytes = s.as_str().as_bytes();
        let h = fnv1a(bytes);
        assert(hs[k as int] == h) by {
            assert(views(ws@)[k as int] == ws@[k as int]@);
        }
        let mut j: usize = 0;
        while j < 64
            invariant
                j <= 64,
                k < ws.len(),
                hs.len() == ws.len(),
                hs[k as int] == h,
                counts@.len() == 64,
                forall|q: int|
                    0 <= q < j ==> counts@[q] == ones(hs.take(k + 1), q as u64),
                forall|q: int|
                    j <= q < 64 ==> counts@[q] == ones(hs.take(k as int), q as u64),
            decreases 64 - j,
        {
            proof {
                lemma_ones_step(hs, k as int, j as u64);
            }
            if bit_of(h, j as u64) {
                counts.set(j, counts[j] + 1);
            }
            j += 1;
        }
        k += 1;
    }
    assert(hs.take(ws.len() as int) =~= hs);
    if ws.len() == 0 {
        return 0;
    }
    let n = ws.len();
    let ghost bs = Seq::new(64, |i: int| 2 * ones(hs, i as u64) > hs.len());
    let mut r: u64 = 0;
    let mut i: u64 = 0;
    while i < 64
        invariant
            i <= 64,
            n == hs.len(),
            n > 0,
            counts@.len() == 64,
            forall|j: int| 0 <= j < 64 ==> counts@[j] == ones(hs, j as u64),
            bs == Seq::new(64, |i: int| 2 * ones(hs, i as u64) > hs.len()),
            r == from_bits(bs.take(i as int)),
        decreases 64 - i,
    {
        proof {
            lemma_ones_step(hs, n - 1, i);
            assert(hs.take(n as int) =~= hs);
            assert(bs.take(i + 1).drop_last() =~= bs.take(i as int));
        }
        let c = counts[i as usize];
        if c > n - c {
            r = r | (1u64 << i);
        } else {
            r = r | 0u64;
        }
        i += 1;
    }
    assert(bs.take(64) =~= bs);
    r
}

/// Compute the 64-bit SimHash of a line.
///
/// Each whitespace-separated token votes on each of the 64 bits according to
/// its FNV-1a hash; a bit is set when the vote is positive.
pub fn simhash(line: &str) -> (r: u64)
    ensures
        r == simhash_spec(line@),
{
    let v = chars_of(line);
    simhash_chars(v.as_slice())
}

/// Hamming distance between two SimHashes (number of differing bits).
pub fn hamming(a: u64, b: u64) -> (r: u32)
    ensures
        r == hamming_spec(a, b),
{
    let x = a ^ b;
    let mut c: u32 = 0;
    let mut i: u64 = 0;
    while i < 64
        invariant
            i <= 64,
            x == a ^ b,
            c == diff_bits(a, b, i as nat),
            c <= i,
        decreases 64 - i,
    {
        let set = (x >> i) & 1 == 1;
        assert(set == (bit(a, i) != bit(b, i))) by (bit_vector)
            requires
                x == a ^ b,
                i < 64,
                set == ((x >> i) & 1 == 1),
        ;
        if set {
            c += 1;
        }
        i += 1;
    }
    c
}

/// Whether a line matches the critical pattern (error/warning/fatal/...).
fn is_critical(line: &[char]) -> (b: bool)
    ensures
        b == critical_line(line@),
{
    let s = string_of(line);
    match regex_match(
        "(?i)(error|warning|warn|failed|failure|fatal|panic|exception|critical)",
        s.as_str(),
    ) {
        Some(m) => m,
        None => false,
    }
}

/// Collapse near-duplicate lines (given as characters); see
/// [`dedup_near_duplicates`].
pub fn dedup_lines(lines: &Vec<Vec<char>>, threshold: u32) -> (out: Vec<Vec<char>>)
    ensures
        views(out@) == dedup_spec(views(lines@), threshold),
{
    let ghost ls = views(lines@);
    let n = lines.len();
    let ghost c = crit_flags(ls);
    let ghost h = hash_values(ls);
    let ghost r = reps(c, h, threshold, n as nat);
    proof {
        lemma_reps_len(c, h, threshold, n as nat);
    }
    let mut hashes: Vec<u64> = Vec::new();
    let mut crit: Vec<bool> = Vec::new();
    let mut grouped: Vec<bool> = Vec::new();
    let mut k: usize = 0;
    while k < n
        invariant
            n == lines.len(),
            ls == views(lines@),
            c == crit_flags(ls),
            h == hash_values(ls),
            k <= n,
            hashes@ == h.take(k as int),
            crit@ == c.take(k as int),
            grouped@.len() == k,
            forall|j: int| 0 <= j < k ==> !grouped@[j],
        decreases n - k,
    {
        assert(ls[k as int] == lines@[k as int]@);
        hashes.push(simhash_chars(lines[k].as_slice()));
        crit.push(is_critical(lines[k].as_slice()));
        grouped.push(false);
        proof {
            assert(hashes@ =~= h.take(k + 1));
            assert(crit@ =~= c.take(k + 1));
        }
        k += 1;
    }
    proof {
        assert(hashes@ =~= h);
        assert(crit@ =~= c);
        assert forall|j: int| 0 <= j < n implies grouped@[j] == (first_absorber(
            c,
            h,
            threshold,
            r,
            j,
            0,
        ) < j && first_absorber(c, h, threshold, r, j, 0) < 0) by {
            lemma_first_absorber(c, h, threshold, r, j, 0);
        }
    }
    let mut out: Vec<Vec<char>> = Vec::new();
    let mut i: usize = 0;
    while i < n
        invariant
            n == lines.len(),
            ls == views(lines@),
            c == crit_flags(ls),
            h == hash_values(ls),
            r == reps(c, h, threshold, n as nat),
            r.len() == n,
            hashes@ == h,
            crit@ == c,
            h.len() == n,
            c.len() == n,
            i <= n,
            grouped@.len() == n,
            forall|j: int|
                0 <= j < n ==> grouped@[j] == (first_absorber(c, h, threshold, r, j, 0) < j
                    && first_absorber(c, h, threshold, r, j, 0) < i),
            views(out@) == out_prefix(ls, c, h, threshold, r, i as int),
        decreases n - i,
    {
        proof {
            lemma_rep_iff(c, h, threshold, n as nat, i as int);
            lemma_first_absorber(c, h, threshold, r, i as int, 0);
        }
        let ghost out0 = views(out@);
        if grouped[i] {
            proof {
                assert(!r[i as int]);
                assert forall|j: int| 0 <= j < n implies grouped@[j] == (first_absorber(
                    c,
                    h,
                    threshold,
                    r,
                    j,
                    0,
                ) < j && first_absorber(c, h, threshold, r, j, 0) < i + 1) by {
                    if j > i {
                        lemma_first_absorber(c, h, threshold, r, j, 0);
                        if first_absorber(c, h, threshold, r, j, 0) == i {
                            assert(absorbs(c, h, threshold, r, i as int, j));
                        }
                    }
                }
                assert(block(ls, c, h, threshold, r, i as int) =~= Seq::<Seq<char>>::empty());
                assert(views(out@) =~= out_prefix(ls, c, h, threshold, r, i + 1));
            }
        } else {
            let mut dup: usize = 0;
            if !crit[i] {
                let mut j: usize = i + 1;
                while j < n
                    invariant
                        n == lines.len(),
                        r == reps(c, h, threshold, n as nat),
                        r.len() == n,
                        hashes@ == h,
                        crit@ == c,
                        h.len() == n,
                        c.len() == n,
                        i < j <= n,
                        r[i as int],
                        !c[i as int],
                        dup <= j - i - 1,
                        dup == dup_count(c, h, threshold, r, i as int, j as int),
                        grouped@.len() == n,
                        forall|q: int|
                            0 <= q < n ==> grouped@[q] == (first_absorber(c, h, threshold, r, q, 0)
                                < q && first_absorber(c, h, threshold, r, q, 0) < if q < j {
                                i + 1
                            } else {
                                i as int
                            }),
                    decreases n - j,
                {
                    proof {
                        lemma_first_absorber(c, h, threshold, r, j as int, 0);
                        lemma_first_absorber(c, h, threshold, r, j as int, i as int);
                    }
                    let ghost fa = first_absorber(c, h, threshold, r, j as int, 0);
                    if !grouped[j] && !crit[j] && hamming(hashes[i], hashes[j]) <= threshold {
                        proof {
                            assert(absorbs(c, h, threshold, r, i as int, j as int));
                            assert(fa == i);
                        }
                        grouped.set(j, true);
                        dup += 1;
                    } else {
                        proof {
                            if fa == i {
                                assert(absorbs(c, h, threshold, r, i as int, j as int));
                            }
                        }
                    }
                    j += 1;
                }
            } else {
                proof {
                    lemma_critical_absorbs_nothing(c, h, threshold, r, i as int, n as int);
                    assert forall|q: int| 0 <= q < n implies grouped@[q] == (first_absorber(
                        c,
                        h,
                        threshold,
                        r,
                        q,
                        0,
                    ) < q && first_absorber(c, h, threshold, r, q, 0) < i + 1) by {
                        if q > i {
                            lemma_first_absorber(c, h, threshold, r, q, 0);
                            if first_absorber(c, h, threshold, r, q, 0) == i {
                                assert(absorbs(c, h, threshold, r, i as int, q));
                            }
                        }
                    }
                }
            }
            assert(r[i as int]);
            assert(ls[i as int] == lines@[i as int]@);
            let line = lines[i].clone();
            proof {
                lemma_views_push(out@, line);
            }
            out.push(line);
            if dup > 0 {
                let mut m: Vec<char> = Vec::new();
                push_str(&mut m, "[");
                push_decimal(&mut m, dup);
                push_str(&mut m, " similar lines omitted]");
                proof {
                    lemma_views_push(out@, m);
                }
                out.push(m);
            }
            proof {
                assert(views(out@) =~= out_prefix(ls, c, h, threshold, r, i + 1));
            }
        }
        i += 1;
    }
    out
}

/// Collapse near-duplicate lines, keeping one representative per cluster.
///
/// Lines within `threshold` Hamming distance of a prior representative are
/// grouped together; a `[N similar lines omitted]` marker follows the
/// representative of each non-trivial group. Lines matching the critical
/// pattern (error/warning/fatal/...) are never grouped. The output keeps the
/// original relative order.
pub fn dedup_near_duplicates(lines: &[&str], threshold: u32) -> (out: Vec<String>)
    ensures
        out@.map_values(|s: String| s@) == dedup_spec(
            lines@.map_values(|s: &str| s@),
            threshold,
        ),
{
    let mut ls: Vec<Vec<char>> = Vec::new();
    let mut k: usize = 0;
    while k < lines.len()
        invariant
            k <= lines.len(),
            views(ls@) == lines@.map_values(|s: &str| s@).take(k as int),
        decreases lines.len() - k,
    {
        let v = chars_of(lines[k]);
        proof {
            lemma_views_push(ls@, v);
        }
        ls.push(v);
        assert(views(ls@) =~= lines@.map_values(|s: &str| s@).take(k + 1));
        k += 1;
    }
    assert(lines@.map_values(|s: &str| s@).take(lines.len() as int) =~= lines@.map_values(
        |s: &str| s@,
    ));
    let d = dedup_lines(&ls, threshold);
    let mut out: Vec<String> = Vec::new();
    let mut i: usize = 0;
    while i < d.len()
        invariant
            i <= d.len(),
            out@.map_values(|s: String| s@) == views(d@).take(i as int),
        decreases d.len() - i,
    {
        let s = string_of(d[i].as_slice());
        let ghost o0 = out@;
        out.push(s);
        assert(views(d@)[i as int] == d@[i as int]@);
        assert(out@.map_values(|s: String| s@) =~= o0.map_values(|s: String| s@).push(s@));
        assert(out@.map_values(|s: String| s@) =~= views(d@).take(i + 1));
        i += 1;
    }
    assert(views(d@).take(d.len() as int) =~= views(d@));
    out
}

/// Deduplicate the lines of a multi-line string and join the result with
/// newlines.
pub fn dedup_str(text: &str, threshold: u32) -> (r: String)
    ensures
        r@ == join(dedup_spec(lines(text@), threshold), seq!['\n']),
{
    let v = chars_of(text);
    let ls = lines_of(v.as_slice());
    let d = dedup_lines(&ls, threshold);
    let j = join_lines(&d);
    string_of(j.as_slice())
}

} // verus!
