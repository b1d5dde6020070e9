//! `ls`: directories then files, sorted, at most 40, with counts, the most
//! common extensions and the noise directories that were left out.
use vstd::prelude::*;
use super::util::{joined, line_at, no_lines, push_line};
use super::{clone_args, Handler};
use crate::order::{insert_by, insert_name, lemma_insert_by_at, less, lex_lt, sort_by};
use crate::text::{
    blank, chars_of, decimal, ends_with, eq_chars, eq_lit, is_blank, join, join_with,
    lemma_filter_take, lines, lines_of, push_all, push_decimal, push_str, slice, starts_lit,
    starts_with, views, words, words_of,
};

verus! {

pub struct LsHandler;

/// The number of entries listed.
pub const LIMIT: usize = 40;

/// A name that is left out of the listing and reported as hidden.
pub open spec fn noise(name: Seq<char>) -> bool {
    ||| name == "node_modules"@
    ||| name == ".git"@
    ||| name == "target"@
    ||| name == "__pycache__"@
    ||| name == ".next"@
    ||| name == "dist"@
    ||| name == "build"@
    ||| name == ".cache"@
    ||| name == ".venv"@
    ||| name == "venv"@
    ||| name == ".DS_Store"@
}

/// Output of `ls -l`: the first line is a total or a permission string.
pub open spec fn long_format(first: Seq<char>) -> bool {
    starts_with(first, "total "@) || starts_with(first, "dr"@) || starts_with(first, "-r"@)
        || starts_with(first, "lr"@) || starts_with(first, "-w"@) || starts_with(first, "d-"@)
}

/// Entries of `ls -l` lines: the last word names it, a leading `d` marks a
/// directory; `total` lines are skipped.
pub open spec fn long_entries(ls: Seq<Seq<char>>) -> Seq<(Seq<char>, bool)>
    decreases ls.len(),
{
    if ls.len() == 0 {
        seq![]
    } else {
        let rest = long_entries(ls.drop_last());
        let l = ls.last();
        let ws = words(l);
        if starts_with(l, "total "@) || ws.len() == 0 {
            rest
        } else {
            rest.push((ws.last(), starts_with(ws[0], "d"@)))
        }
    }
}

/// `w` without its trailing slashes.
pub open spec fn strip_slashes(w: Seq<char>) -> Seq<char>
    decreases w.len(),
{
    if w.len() > 0 && w.last() == '/' {
        strip_slashes(w.drop_last())
    } else {
        w
    }
}

pub open spec fn short_entry(w: Seq<char>) -> (Seq<char>, bool) {
    (strip_slashes(w), ends_with(w, "/"@))
}

/// Entries of plain `ls` lines: every word, a trailing `/` marking a
/// directory.
pub open spec fn short_entries(ls: Seq<Seq<char>>) -> Seq<(Seq<char>, bool)>
    decreases ls.len(),
{
    if ls.len() == 0 {
        seq![]
    } else {
        short_entries(ls.drop_last()) + words(ls.last()).map_values(|w: Seq<char>| short_entry(w))
    }
}

pub open spec fn names(es: Seq<(Seq<char>, bool)>) -> Seq<Seq<char>> {
    es.map_values(|e: (Seq<char>, bool)| e.0)
}

/// Index of the last `c` in `s`, or -1.
pub open spec fn last_index_of(s: Seq<char>, c: char) -> int
    decreases s.len(),
{
    if s.len() == 0 {
        -1
    } else if s.last() == c {
        s.len() - 1
    } else {
        last_index_of(s.drop_last(), c)
    }
}

/// The extension of a name, from its last dot, when something follows the
/// dot.
pub open spec fn ext_of(name: Seq<char>) -> Option<Seq<char>> {
    let k = last_index_of(name, '.');
    if k >= 0 && name.skip(k).len() > 1 {
        Some(name.skip(k))
    } else {
        None
    }
}

/// Index of the count for `e`, or `cs.len()`.
pub open spec fn find_ext(cs: Seq<(Seq<char>, nat)>, e: Seq<char>) -> int
    decreases cs.len(),
{
    if cs.len() == 0 {
        0
    } else if cs[0].0 == e {
        0
    } else {
        1 + find_ext(cs.drop_first(), e)
    }
}

pub open spec fn add_count(cs: Seq<(Seq<char>, nat)>, e: Seq<char>) -> Seq<(Seq<char>, nat)> {
    let j = find_ext(cs, e);
    if j < cs.len() {
        cs.update(j, (e, cs[j].1 + 1))
    } else {
        cs.push((e, 1))
    }
}

/// The number of files of each extension, in order of first appearance.
pub open spec fn ext_counts(files: Seq<Seq<char>>) -> Seq<(Seq<char>, nat)>
    decreases files.len(),
{
    if files.len() == 0 {
        seq![]
    } else {
        let cs = ext_counts(files.drop_last());
        match ext_of(files.last()) {
            Some(e) => add_count(cs, e),
            None => cs,
        }
    }
}

/// More files first, then by extension.
pub open spec fn count_before(a: (Seq<char>, nat), b: (Seq<char>, nat)) -> bool {
    a.1 > b.1 || (a.1 == b.1 && lex_lt(a.0, b.0))
}

pub open spec fn count_text(p: (Seq<char>, nat)) -> Seq<char> {
    p.0 + " \u{d7}"@ + decimal(p.1)
}

/// The three most common extensions, when there are at least three.
pub open spec fn ext_summary(files: Seq<Seq<char>>) -> Option<Seq<char>> {
    let cs = ext_counts(files);
    if cs.len() < 3 {
        None
    } else {
        let top = sort_by(cs, |a: (Seq<char>, nat), b: (Seq<char>, nat)| count_before(a, b)).take(3);
        Some("top: "@ + join(top.map_values(|p: (Seq<char>, nat)| count_text(p)), ", "@))
    }
}

pub open spec fn ls_entries(ls: Seq<Seq<char>>) -> Seq<(Seq<char>, bool)> {
    if long_format(ls[0]) {
        long_entries(ls)
    } else {
        short_entries(ls)
    }
}

pub open spec fn sorted_names(es: Seq<(Seq<char>, bool)>, p: spec_fn((Seq<char>, bool)) -> bool) -> Seq<Seq<char>> {
    sort_by(names(es.filter(p)), |a: Seq<char>, b: Seq<char>| lex_lt(a, b))
}

pub open spec fn is_noise(e: (Seq<char>, bool)) -> bool {
    noise(e.0)
}

pub open spec fn is_dir(e: (Seq<char>, bool)) -> bool {
    !noise(e.0) && e.1
}

pub open spec fn is_file(e: (Seq<char>, bool)) -> bool {
    !noise(e.0) && !e.1
}

/// Directories (with a `/`) then files, each sorted by name, the first 40
/// of them; then the number left out, the numbers of directories and files,
/// the three most common extensions, and the noise names that were hidden.
pub open spec fn ls_spec(output: Seq<char>) -> Seq<char> {
    let ls = lines(output).filter(|l: Seq<char>| !blank(l));
    if ls.len() == 0 {
        output
    } else {
        let es = ls_entries(ls);
        let hidden = sorted_names(es, |e: (Seq<char>, bool)| is_noise(e));
        let dirs = sorted_names(es, |e: (Seq<char>, bool)| is_dir(e));
        let files = sorted_names(es, |e: (Seq<char>, bool)| is_file(e));
        let all = dirs.map_values(|d: Seq<char>| d + "/"@) + files;
        let shown = all.take(if all.len() < LIMIT {
            all.len() as int
        } else {
            LIMIT as int
        });
        let o1 = if all.len() > LIMIT {
            shown.push("[+"@ + decimal((all.len() - LIMIT) as nat) + " more]"@)
        } else {
            shown
        };
        let o2 = o1.push(
            "["@ + decimal(dirs.len()) + " dirs, "@ + decimal(files.len()) + " files]"@,
        );
        let o3 = match ext_summary(files) {
            Some(s) => o2.push(s),
            None => o2,
        };
        let o4 = if hidden.len() > 0 {
            o3.push("[hidden: "@ + join(hidden, ", "@) + "]"@)
        } else {
            o3
        };
        join(o4, seq!['\n'])
    }
}

/// No noise name is ever listed: the sorted directories and files hold only
/// names that are not noise.
pub proof fn lemma_no_noise_listed(es: Seq<(Seq<char>, bool)>, n: Seq<char>)
    requires
        sorted_names(es, |e: (Seq<char>, bool)| is_dir(e)).contains(n) || sorted_names(
            es,
            |e: (Seq<char>, bool)| is_file(e),
        ).contains(n),
    ensures
        !noise(n),
{
    let lt = |a: Seq<char>, b: Seq<char>| lex_lt(a, b);
    let pd = |e: (Seq<char>, bool)| is_dir(e);
    let pf = |e: (Seq<char>, bool)| is_file(e);
    if sorted_names(es, pd).contains(n) {
        crate::order::lemma_sort_by_members(names(es.filter(pd)), lt, n);
        let k = choose|k: int| 0 <= k < names(es.filter(pd)).len() && names(es.filter(pd))[k] == n;
        assert(es.filter(pd)[k].0 == n);
        assert(pd(es.filter(pd)[k])) by {
            es.lemma_filter_pred(pd, k);
        }
    } else {
        crate::order::lemma_sort_by_members(names(es.filter(pf)), lt, n);
        let k = choose|k: int| 0 <= k < names(es.filter(pf)).len() && names(es.filter(pf))[k] == n;
        assert(es.filter(pf)[k].0 == n);
        assert(pf(es.filter(pf)[k])) by {
            es.lemma_filter_pred(pf, k);
        }
    }
}

pub open spec fn entry_views(v: Seq<(Vec<char>, bool)>) -> Seq<(Seq<char>, bool)> {
    v.map_values(|e: (Vec<char>, bool)| (e.0@, e.1))
}

pub open spec fn count_views(v: Seq<(Vec<char>, usize)>) -> Seq<(Seq<char>, nat)> {
    v.map_values(|p: (Vec<char>, usize)| (p.0@, p.1 as nat))
}

fn noise_name(n: &[char]) -> (b: bool)
    ensures
        b == noise(n@),
{
    eq_lit(n, "node_modules") || eq_lit(n, ".git") || eq_lit(n, "target") || eq_lit(n, "__pycache__")
        || eq_lit(n, ".next") || eq_lit(n, "dist") || eq_lit(n, "build") || eq_lit(n, ".cache")
        || eq_lit(n, ".venv") || eq_lit(n, "venv") || eq_lit(n, ".DS_Store")
}

fn long_first(l: &[char]) -> (b: bool)
    ensures
        b == long_format(l@),
{
    starts_lit(l, "total ") || starts_lit(l, "dr") || starts_lit(l, "-r") || starts_lit(l, "lr")
        || starts_lit(l, "-w") || starts_lit(l, "d-")
}

fn strip_trailing_slashes(w: &[char]) -> (r: Vec<char>)
    ensures
        r@ == strip_slashes(w@),
{
    let mut e = w.len();
    assert(w@.take(e as int) =~= w@);
    while e > 0 && w[e - 1] == '/'
        invariant
            e <= w.len(),
            strip_slashes(w@.take(e as int)) == strip_slashes(w@),
        decreases e,
    {
        assert(w@.take(e as int).drop_last() =~= w@.take(e - 1));
        e -= 1;
    }
    let r = slice(w, 0, e);
    assert(r@ =~= w@.take(e as int));
    r
}

fn parse_long_format(ls: &Vec<Vec<char>>) -> (r: Vec<(Vec<char>, bool)>)
    ensures
        entry_views(r@) == long_entries(views(ls@)),
{
    let ghost lv = views(ls@);
    let mut r: Vec<(Vec<char>, bool)> = Vec::new();
    let mut i: usize = 0;
    assert(entry_views(r@) =~= long_entries(lv.take(0)));
    while i < ls.len()
        invariant
            i <= ls.len(),
            lv == views(ls@),
            entry_views(r@) == long_entries(lv.take(i as int)),
        decreases ls.len() - i,
    {
        assert(lv[i as int] == ls@[i as int]@);
        assert(lv.take(i + 1).drop_last() =~= lv.take(i as int));
        assert(lv.take(i + 1).last() == lv[i as int]);
        let line = ls[i].as_slice();
        let ws = words_of(line);
        let ghost wv = views(ws@);
        assert(wv.len() == ws.len());
        if !starts_lit(line, "total ") && ws.len() > 0 {
            let name = line_at(&ws, ws.len() - 1);
            let d = starts_lit(ws[0].as_slice(), "d");
            assert(wv[0] == ws@[0]@);
            let ghost ev = entry_views(r@);
            r.push((name, d));
            assert(entry_views(r@) =~= ev.push((wv.last(), starts_with(wv[0], "d"@))));
        }
        i += 1;
    }
    assert(lv.take(ls.len() as int) =~= lv);
    r
}

fn parse_short_format(ls: &Vec<Vec<char>>) -> (r: Vec<(Vec<char>, bool)>)
    ensures
        entry_views(r@) == short_entries(views(ls@)),
{
    let ghost lv = views(ls@);
    let ghost se = |w: Seq<char>| short_entry(w);
    let mut r: Vec<(Vec<char>, bool)> = Vec::new();
    let mut i: usize = 0;
    assert(entry_views(r@) =~= short_entries(lv.take(0)));
    while i < ls.len()
        invariant
            i <= ls.len(),
            lv == views(ls@),
            se == (|w: Seq<char>| short_entry(w)),
            entry_views(r@) == short_entries(lv.take(i as int)),
        decreases ls.len() - i,
    {
        assert(lv[i as int] == ls@[i as int]@);
        assert(lv.take(i + 1).drop_last() =~= lv.take(i as int));
        assert(lv.take(i + 1).last() == lv[i as int]);
        let ws = words_of(ls[i].as_slice());
        let ghost wv = views(ws@);
        let ghost base = entry_views(r@);
        let mut j: usize = 0;
        while j < ws.len()
            invariant
                j <= ws.len(),
                wv == views(ws@),
                se == (|w: Seq<char>| short_entry(w)),
                entry_views(r@) == base + wv.take(j as int).map_values(se),
            decreases ws.len() - j,
        {
            assert(wv[j as int] == ws@[j as int]@);
            let w = ws[j].as_slice();
            let name = strip_trailing_slashes(w);
            let d = w.len() > 0 && w[w.len() - 1] == '/';
            proof {
                reveal_strlit("/");
                assert("/"@.len() == 1 && "/"@[0] == '/');
                if w@.len() > 0 {
                    let sub = w@.subrange(w@.len() - 1, w@.len() as int);
                    assert(sub.len() == 1 && sub[0] == w@[w@.len() - 1]);
                    if w@[w@.len() - 1] == '/' {
                        assert(sub =~= "/"@);
                    } else {
                        assert(sub[0] != "/"@[0]);
                    }
                }
                assert(d == ends_with(w@, "/"@));
            }
            let ghost ev = entry_views(r@);
            r.push((name, d));
            assert(entry_views(r@) =~= ev.push((strip_slashes(wv[j as int]), d)));
            assert(wv.take(j + 1).map_values(se) =~= wv.take(j as int).map_values(se).push(
                se(wv[j as int]),
            ));
            assert(entry_views(r@) =~= base + wv.take(j + 1).map_values(se));
            j += 1;
        }
        assert(wv.take(ws.len() as int) =~= wv);
        assert(words(lv[i as int]) == wv);
        i += 1;
    }
    assert(lv.take(ls.len() as int) =~= lv);
    r
}

fn ext_exec(name: &[char]) -> (r: Option<Vec<char>>)
    ensures
        opt_chars(r) == ext_of(name@),
{
    let mut k = name.len();
    assert(name@.take(k as int) =~= name@);
    while k > 0 && name[k - 1] != '.'
        invariant
            k <= name.len(),
            last_index_of(name@.take(k as int), '.') == last_index_of(name@, '.'),
        decreases k,
    {
        proof {
            let t = name@.take(k as int);
            assert(t.last() == name@[k - 1]);
            assert(t.drop_last() =~= name@.take(k - 1));
            assert(last_index_of(t, '.') == last_index_of(t.drop_last(), '.'));
        }
        k -= 1;
    }
    if k == 0 {
        assert(name@.take(0).len() == 0);
        return None;
    }
    proof {
        let t = name@.take(k as int);
        assert(t.last() == name@[k - 1]);
        assert(last_index_of(t, '.') == k - 1);
    }
    if k < name.len() {
        let e = slice(name, k - 1, name.len());
        assert(e@ =~= name@.skip(k - 1));
        Some(e)
    } else {
        assert(name@.skip(k - 1).len() == 1);
        None
    }
}

pub open spec fn opt_chars(o: Option<Vec<char>>) -> Option<Seq<char>> {
    match o {
        Some(v) => Some(v@),
        None => None,
    }
}

proof fn lemma_find_ext(cs: Seq<(Seq<char>, nat)>, e: Seq<char>, k: int)
    requires
        0 <= k <= cs.len(),
        forall|j: int| 0 <= j < k ==> (#[trigger] cs[j]).0 != e,
        k < cs.len() ==> cs[k].0 == e,
    ensures
        find_ext(cs, e) == k,
    decreases k,
{
    if k > 0 {
        let d = cs.drop_first();
        assert forall|j: int| 0 <= j < k - 1 implies (#[trigger] d[j]).0 != e by {
            assert(d[j] == cs[j + 1]);
        }
        if k - 1 < d.len() {
            assert(d[k - 1] == cs[k]);
        }
        lemma_find_ext(d, e, k - 1);
        assert(cs[0].0 != e);
    }
}

fn find_count(cs: &Vec<(Vec<char>, usize)>, e: &[char]) -> (j: usize)
    ensures
        j as int == find_ext(count_views(cs@), e@),
        j <= cs.len(),
{
    let ghost cv = count_views(cs@);
    let mut j: usize = 0;
    while j < cs.len() && !eq_chars(cs[j].0.as_slice(), e)
        invariant
            j <= cs.len(),
            cv == count_views(cs@),
            forall|q: int| 0 <= q < j ==> (#[trigger] cv[q]).0 != e@,
        decreases cs.len() - j,
    {
        assert(cv[j as int].0 == cs@[j as int].0@);
        j += 1;
    }
    proof {
        if j < cs.len() {
            assert(cv[j as int].0 == cs@[j as int].0@);
        }
        lemma_find_ext(cv, e@, j as int);
    }
    j
}

fn before(a: &(Vec<char>, usize), b: &(Vec<char>, usize)) -> (r: bool)
    ensures
        r == count_before((a.0@, a.1 as nat), (b.0@, b.1 as nat)),
{
    a.1 > b.1 || (a.1 == b.1 && less(a.0.as_slice(), b.0.as_slice()))
}

fn insert_count(v: &mut Vec<(Vec<char>, usize)>, x: (Vec<char>, usize))
    ensures
        count_views(final(v)@) == insert_by(
            count_views(old(v)@),
            (x.0@, x.1 as nat),
            |a: (Seq<char>, nat), b: (Seq<char>, nat)| count_before(a, b),
        ),
{
    let ghost lt = |a: (Seq<char>, nat), b: (Seq<char>, nat)| count_before(a, b);
    let ghost s0 = count_views(v@);
    let ghost xv = (x.0@, x.1 as nat);
    let mut j = v.len();
    while j > 0 && before(&x, &v[j - 1])
        invariant
            j <= v.len(),
            s0 == count_views(v@),
            xv == (x.0@, x.1 as nat),
            lt == (|a: (Seq<char>, nat), b: (Seq<char>, nat)| count_before(a, b)),
            forall|k: int| j <= k < s0.len() ==> lt(xv, #[trigger] s0[k]),
        decreases j,
    {
        assert(s0[j - 1] == (v@[j - 1].0@, v@[j - 1].1 as nat));
        j -= 1;
    }
    proof {
        if j > 0 {
            assert(s0[j - 1] == (v@[j - 1].0@, v@[j - 1].1 as nat));
        }
        lemma_insert_by_at(s0, xv, lt, j as int);
    }
    v.insert(j, x);
    assert(count_views(v@) =~= s0.insert(j as int, xv));
}

fn build_ext_summary(files: &Vec<Vec<char>>) -> (r: Option<Vec<char>>)
    ensures
        opt_chars(r) == ext_summary(views(files@)),
{
    let ghost fv = views(files@);
    let mut counts: Vec<(Vec<char>, usize)> = Vec::new();
    let mut k: usize = 0;
    assert(count_views(counts@) =~= ext_counts(fv.take(0)));
    while k < files.len()
        invariant
            k <= files.len(),
            fv == views(files@),
            count_views(counts@) == ext_counts(fv.take(k as int)),
            forall|q: int| 0 <= q < counts.len() ==> (#[trigger] counts@[q]).1 <= k,
        decreases files.len() - k,
    {
        assert(fv[k as int] == files@[k as int]@);
        assert(fv.take(k + 1).drop_last() =~= fv.take(k as int));
        assert(fv.take(k + 1).last() == fv[k as int]);
        let ghost cv = count_views(counts@);
        match ext_exec(files[k].as_slice()) {
            Some(e) => {
                let j = find_count(&counts, e.as_slice());
                if j < counts.len() {
                    let c = counts[j].1 + 1;
                    let ghost ev = e@;
                    counts.set(j, (e, c));
                    assert(count_views(counts@) =~= cv.update(j as int, (ev, cv[j as int].1 + 1)));
                } else {
                    let ghost ev = e@;
                    counts.push((e, 1));
                    assert(count_views(counts@) =~= cv.push((ev, 1)));
                }
            },
            None => {},
        }
        k += 1;
    }
    assert(fv.take(files.len() as int) =~= fv);
    let ghost cs = count_views(counts@);
    assert(cs.len() == counts.len());
    if counts.len() < 3 {
        return None;
    }
    let ghost lt = |a: (Seq<char>, nat), b: (Seq<char>, nat)| count_before(a, b);
    let mut sorted: Vec<(Vec<char>, usize)> = Vec::new();
    let mut q: usize = 0;
    assert(count_views(sorted@) =~= sort_by(cs.take(0), lt));
    while q < counts.len()
        invariant
            q <= counts.len(),
            cs == count_views(counts@),
            lt == (|a: (Seq<char>, nat), b: (Seq<char>, nat)| count_before(a, b)),
            count_views(sorted@) == sort_by(cs.take(q as int), lt),
        decreases counts.len() - q,
    {
        assert(cs.take(q + 1).drop_last() =~= cs.take(q as int));
        assert(cs.take(q + 1).last() == cs[q as int]);
        assert(cs[q as int] == (counts@[q as int].0@, counts@[q as int].1 as nat));
        let item = (counts[q].0.clone(), counts[q].1);
        insert_count(&mut sorted, item);
        q += 1;
    }
    assert(cs.take(counts.len() as int) =~= cs);
    let ghost sv = count_views(sorted@);
    assert(sv.len() == cs.len()) by {
        crate::order::lemma_sort_by_len(cs, lt);
    }
    let mut parts = no_lines();
    let mut t: usize = 0;
    while t < 3
        invariant
            t <= 3 <= sorted.len(),
            sv == count_views(sorted@),
            views(parts@) == sv.take(t as int).map_values(|p: (Seq<char>, nat)| count_text(p)),
        decreases 3 - t,
    {
        let mut l: Vec<char> = Vec::new();
        push_all(&mut l, sorted[t].0.as_slice());
        push_str(&mut l, " \u{d7}");
        push_decimal(&mut l, sorted[t].1);
        assert(sv[t as int] == (sorted@[t as int].0@, sorted@[t as int].1 as nat));
        push_line(&mut parts, l);
        assert(views(parts@) =~= sv.take(t + 1).map_values(|p: (Seq<char>, nat)| count_text(p)));
        t += 1;
    }
    let mut s: Vec<char> = Vec::new();
    push_str(&mut s, "top: ");
    let sep = chars_of(", ");
    let j = join_with(&parts, sep.as_slice());
    push_all(&mut s, j.as_slice());
    Some(s)
}

/// The names of the entries that `which` selects, sorted.
fn select_sorted(es: &Vec<(Vec<char>, bool)>, which: u8) -> (r: Vec<Vec<char>>)
    requires
        which < 3,
    ensures
        which == 0 ==> views(r@) == sorted_names(entry_views(es@), |e: (Seq<char>, bool)| is_noise(e)),
        which == 1 ==> views(r@) == sorted_names(entry_views(es@), |e: (Seq<char>, bool)| is_dir(e)),
        which == 2 ==> views(r@) == sorted_names(entry_views(es@), |e: (Seq<char>, bool)| is_file(e)),
{
    let ghost ev = entry_views(es@);
    let ghost p = if which == 0 {
        |e: (Seq<char>, bool)| is_noise(e)
    } else if which == 1 {
        |e: (Seq<char>, bool)| is_dir(e)
    } else {
        |e: (Seq<char>, bool)| is_file(e)
    };
    let ghost lt = |a: Seq<char>, b: Seq<char>| lex_lt(a, b);
    let mut r = no_lines();
    let mut k: usize = 0;
    assert(views(r@) =~= sort_by(names(ev.take(0).filter(p)), lt));
    while k < es.len()
        invariant
            k <= es.len(),
            ev == entry_views(es@),
            lt == (|a: Seq<char>, b: Seq<char>| lex_lt(a, b)),
            which < 3,
            which == 0 ==> p == (|e: (Seq<char>, bool)| is_noise(e)),
            which == 1 ==> p == (|e: (Seq<char>, bool)| is_dir(e)),
            which == 2 ==> p == (|e: (Seq<char>, bool)| is_file(e)),
            views(r@) == sort_by(names(ev.take(k as int).filter(p)), lt),
        decreases es.len() - k,
    {
        proof {
            lemma_filter_take(ev, p, k as int);
        }
        assert(ev[k as int] == (es@[k as int].0@, es@[k as int].1));
        let n = noise_name(es[k].0.as_slice());
        let d = es[k].1;
        let take = if which == 0 {
            n
        } else if which == 1 {
            !n && d
        } else {
            !n && !d
        };
        assert(take == p(ev[k as int]));
        if take {
            let ghost f0 = ev.take(k as int).filter(p);
            assert(names(f0.push(ev[k as int])) =~= names(f0).push(ev[k as int].0));
            assert(names(f0).push(ev[k as int].0).drop_last() =~= names(f0));
            insert_name(&mut r, es[k].0.clone());
        }
        k += 1;
    }
    assert(ev.take(es.len() as int) =~= ev);
    r
}

impl Handler for LsHandler {
    fn rewrite_args(&self, args: &[String]) -> (r: Vec<String>)
        ensures
            r@ == args@,
    {
        clone_args(args)
    }

    fn filter(&self, output: &str, args: &[String]) -> (r: String)
        ensures
            r@ == ls_spec(output@),
    {
        let v = chars_of(output);
        let all_lines = lines_of(v.as_slice());
        let ghost av = views(all_lines@);
        let ghost nb = |l: Seq<char>| !blank(l);
        let mut ls = no_lines();
        let mut i: usize = 0;
        while i < all_lines.len()
            invariant
                i <= all_lines.len(),
                av == views(all_lines@),
                nb == (|l: Seq<char>| !blank(l)),
                views(ls@) == av.take(i as int).filter(nb),
            decreases all_lines.len() - i,
        {
            proof {
                lemma_filter_take(av, nb, i as int);
            }
            assert(av[i as int] == all_lines@[i as int]@);
            if !is_blank(all_lines[i].as_slice()) {
                push_line(&mut ls, line_at(&all_lines, i));
            }
            i += 1;
        }
        assert(av.take(all_lines.len() as int) =~= av);
        let ghost lv = views(ls@);
        assert(lv.len() == ls.len());
        if ls.len() == 0 {
            return output.to_owned();
        }
        assert(lv[0] == ls@[0]@);
        let es = if long_first(ls[0].as_slice()) {
            parse_long_format(&ls)
        } else {
            parse_short_format(&ls)
        };
        let hidden = select_sorted(&es, 0);
        let dirs = select_sorted(&es, 1);
        let files = select_sorted(&es, 2);
        let ghost dv = views(dirs@);
        let ghost fv = views(files@);
        let ghost slash = |d: Seq<char>| d + "/"@;
        let mut all = no_lines();
        let mut k: usize = 0;
        while k < dirs.len()
            invariant
                k <= dirs.len(),
                dv == views(dirs@),
                slash == (|d: Seq<char>| d + "/"@),
                views(all@) == dv.take(k as int).map_values(slash),
            decreases dirs.len() - k,
        {
            let mut d = line_at(&dirs, k);
            push_str(&mut d, "/");
            push_line(&mut all, d);
            assert(views(all@) =~= dv.take(k + 1).map_values(slash));
            k += 1;
        }
        assert(dv.take(dirs.len() as int) =~= dv);
        let ghost base = views(all@);
        let mut k: usize = 0;
        while k < files.len()
            invariant
                k <= files.len(),
                fv == views(files@),
                base == dv.map_values(slash),
                views(all@) == base + fv.take(k as int),
            decreases files.len() - k,
        {
            push_line(&mut all, line_at(&files, k));
            assert(views(all@) =~= base + fv.take(k + 1));
            k += 1;
        }
        assert(fv.take(files.len() as int) =~= fv);
        let ghost allv = views(all@);
        assert(allv.len() == all.len());
        let n = if all.len() < LIMIT {
            all.len()
        } else {
            LIMIT
        };
        let mut out = no_lines();
        let mut k: usize = 0;
        while k < n
            invariant
                k <= n <= all.len(),
                allv == views(all@),
                views(out@) == allv.take(k as int),
            decreases n - k,
        {
            push_line(&mut out, line_at(&all, k));
            assert(views(out@) =~= allv.take(k + 1));
            k += 1;
        }
        if all.len() > LIMIT {
            let mut m: Vec<char> = Vec::new();
            push_str(&mut m, "[+");
            push_decimal(&mut m, all.len() - LIMIT);
            push_str(&mut m, " more]");
            push_line(&mut out, m);
        }
        let mut c: Vec<char> = Vec::new();
        push_str(&mut c, "[");
        push_decimal(&mut c, dirs.len());
        push_str(&mut c, " dirs, ");
        push_decimal(&mut c, files.len());
        push_str(&mut c, " files]");
        push_line(&mut out, c);
        match build_ext_summary(&files) {
            Some(s) => push_line(&mut out, s),
            None => {},
        }
        if hidden.len() > 0 {
            let mut h: Vec<char> = Vec::new();
            push_str(&mut h, "[hidden: ");
            let sep = chars_of(", ");
            let j = join_with(&hidden, sep.as_slice());
            push_all(&mut h, j.as_slice());
            push_str(&mut h, "]");
            push_line(&mut out, h);
        }
        joined(&out)
    }
}

} // verus!
