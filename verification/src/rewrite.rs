//! Rewriting of shell commands so that known tools run through `ccr run`.
use vstd::prelude::*;
use crate::handlers::{handler_for, handler_for_chars};
use crate::text::{
    chars_of, contains, eq_lit, has_infix, is_ws, join, join_with, lemma_join_front, lemma_trim_empty, lemma_trim_end_len,
    lemma_trim_start_len, lemma_views_push, lemma_word_end, matches_at, occurs_at, push_all,
    push_str, slice, starts_lit, starts_with, string_of, trim, trim_end, trim_of, trim_start,
    views, word_end, words, words_of,
};

verus! {

/// The first position at or after `k` where `p` occurs in `s`, or -1.
pub open spec fn find_from(s: Seq<char>, p: Seq<char>, k: int) -> int
    decreases s.len() + 1 - k,
{
    if k < 0 || k + p.len() > s.len() {
        -1
    } else if occurs_at(s, p, k) {
        k
    } else {
        find_from(s, p, k + 1)
    }
}

/// `s` split at every non-overlapping occurrence of `p`, left to right
/// (`str::split` with a string pattern).
pub open spec fn split_on(s: Seq<char>, p: Seq<char>) -> Seq<Seq<char>>
    decreases s.len(),
{
    let i = find_from(s, p, 0);
    if p.len() == 0 || i < 0 {
        seq![s]
    } else {
        proof {
            lemma_find_from(s, p, 0);
        }
        seq![s.take(i)] + split_on(s.skip(i + p.len()), p)
    }
}

/// A single command wrapped in `ccr run`, when its program has a handler and
/// it is not wrapped already.
pub open spec fn rewrite_single_spec(command: Seq<char>) -> Option<Seq<char>> {
    let t = trim(command);
    if starts_with(t, "ccr run "@) || t == "ccr run"@ {
        None
    } else if words(t).len() == 0 {
        None
    } else if handler_for(words(t)[0]) is Some {
        Some("ccr run "@ + t)
    } else {
        None
    }
}

/// A part of a compound command after rewriting its trimmed text with `f`,
/// or the trimmed text when `f` leaves it alone.
pub open spec fn part_or(f: spec_fn(Seq<char>) -> Option<Seq<char>>, part: Seq<char>) -> Seq<char> {
    match f(trim(part)) {
        Some(r) => r,
        None => trim(part),
    }
}

/// `command` split on `op` with every part rewritten by `f`, when it
/// contains `op` and at least one part was rewritten; `f` of the whole
/// command when it does not contain `op`.
pub open spec fn compound(
    command: Seq<char>,
    op: Seq<char>,
    f: spec_fn(Seq<char>) -> Option<Seq<char>>,
) -> Option<Seq<char>> {
    let parts = split_on(command, op);
    if !contains(command, op) || parts.len() < 2 {
        f(command)
    } else if exists|k: int| 0 <= k < parts.len() && #[trigger] f(trim(parts[k])) is Some {
        Some(join(parts.map_values(|p: Seq<char>| part_or(f, p)), op))
    } else {
        None
    }
}

/// A command split on `"; "`, each segment rewritten as a single command.
pub open spec fn rewrite_semi(command: Seq<char>) -> Option<Seq<char>> {
    compound(command, "; "@, |e: Seq<char>| rewrite_single_spec(e))
}

/// A command split on `" || "`, each segment rewritten as a `"; "` list.
pub open spec fn rewrite_or(command: Seq<char>) -> Option<Seq<char>> {
    compound(command, " || "@, |e: Seq<char>| rewrite_semi(e))
}

/// The rewritten command: split on `" && "`, then each segment on `" || "`,
/// then on `"; "`, so that every segment that runs a known tool is wrapped;
/// `None` when no segment is.
pub open spec fn rewrite_spec(command: Seq<char>) -> Option<Seq<char>> {
    compound(command, " && "@, |e: Seq<char>| rewrite_or(e))
}

/// The operator split on at a level.
pub open spec fn op_at(level: int) -> Seq<char> {
    if level == 0 {
        " && "@
    } else if level == 1 {
        " || "@
    } else {
        "; "@
    }
}

/// The rewriting of the segments below a level.
pub open spec fn next_fn(level: int) -> spec_fn(Seq<char>) -> Option<Seq<char>> {
    if level == 0 {
        |e: Seq<char>| rewrite_or(e)
    } else if level == 1 {
        |e: Seq<char>| rewrite_semi(e)
    } else {
        |e: Seq<char>| rewrite_single_spec(e)
    }
}

/// The rewriting at a level: 0 splits on `" && "`, 1 on `" || "`, 2 on
/// `"; "`, 3 takes a single command.
pub open spec fn level_spec(command: Seq<char>, level: int) -> Option<Seq<char>> {
    if level == 0 {
        rewrite_spec(command)
    } else if level == 1 {
        rewrite_or(command)
    } else if level == 2 {
        rewrite_semi(command)
    } else {
        rewrite_single_spec(command)
    }
}

pub proof fn lemma_find_from(s: Seq<char>, p: Seq<char>, k: int)
    requires
        0 <= k,
    ensures
        find_from(s, p, k) == -1 || (k <= find_from(s, p, k) && find_from(s, p, k) + p.len()
            <= s.len() && occurs_at(s, p, find_from(s, p, k))),
        forall|j: int| k <= j && (find_from(s, p, k) == -1 || j < find_from(s, p, k)) ==> !occurs_at(s, p, j),
    decreases s.len() + 1 - k,
{
    if k + p.len() <= s.len() && !occurs_at(s, p, k) {
        lemma_find_from(s, p, k + 1);
        assert forall|j: int| k <= j && (find_from(s, p, k) == -1 || j < find_from(s, p, k)) implies !occurs_at(s, p, j) by {
            if j > k {
            }
        }
    }
}

proof fn lemma_find_from_at(s: Seq<char>, p: Seq<char>, k: int, i: int)
    requires
        0 <= k <= i,
        occurs_at(s, p, i),
        forall|j: int| k <= j < i ==> !occurs_at(s, p, j),
    ensures
        find_from(s, p, k) == i,
    decreases i - k,
{
    if k < i {
        lemma_find_from_at(s, p, k + 1, i);
    }
}

proof fn lemma_find_none(s: Seq<char>, p: Seq<char>, k: int)
    requires
        0 <= k,
        forall|j: int| k <= j ==> !occurs_at(s, p, j),
    ensures
        find_from(s, p, k) == -1,
    decreases s.len() + 1 - k,
{
    if k + p.len() <= s.len() {
        lemma_find_none(s, p, k + 1);
    }
}

proof fn lemma_occurs_shift(s: Seq<char>, p: Seq<char>, a: int, j: int)
    requires
        0 <= a <= s.len(),
        0 <= j,
    ensures
        occurs_at(s.skip(a), p, j) == occurs_at(s, p, a + j),
{
    if occurs_at(s.skip(a), p, j) {
        assert(s.subrange(a + j, a + j + p.len()) =~= s.skip(a).subrange(j, j + p.len()));
    }
    if occurs_at(s, p, a + j) {
        assert(s.subrange(a + j, a + j + p.len()) =~= s.skip(a).subrange(j, j + p.len()));
    }
}

/// `s` split at every occurrence of the non-empty `p`.
pub fn split_by(s: &[char], p: &[char]) -> (r: Vec<Vec<char>>)
    requires
        p.len() > 0,
    ensures
        views(r@) == split_on(s@, p@),
{
    let mut r: Vec<Vec<char>> = Vec::new();
    let mut start: usize = 0;
    let mut i: usize = 0;
    assert(s@.skip(0) =~= s@);
    assert(views(r@) + split_on(s@.skip(0), p@) =~= split_on(s@, p@));
    while i < s.len()
        invariant
            p.len() > 0,
            start <= i <= s.len(),
            split_on(s@, p@) == views(r@) + split_on(s@.skip(start as int), p@),
            forall|j: int| start <= j < i ==> !occurs_at(s@, p@, j),
        decreases s.len() - i,
    {
        if matches_at(s, p, i) {
            let ghost t = s@.skip(start as int);
            proof {
                assert forall|j: int| 0 <= j < i - start implies !occurs_at(t, p@, j) by {
                    lemma_occurs_shift(s@, p@, start as int, j);
                }
                lemma_occurs_shift(s@, p@, start as int, i - start);
                lemma_find_from_at(t, p@, 0, i - start);
                assert(t.take(i - start) =~= s@.subrange(start as int, i as int));
                assert(t.skip(i - start + p.len()) =~= s@.skip(i + p.len()));
            }
            let piece = slice(s, start, i);
            let ghost r0 = views(r@);
            proof {
                lemma_views_push(r@, piece);
            }
            r.push(piece);
            start = i + p.len();
            i = start;
            assert(views(r@) + split_on(s@.skip(start as int), p@) =~= r0 + split_on(t, p@));
        } else {
            i += 1;
        }
    }
    let ghost t = s@.skip(start as int);
    proof {
        assert forall|j: int| 0 <= j implies !occurs_at(t, p@, j) by {
            lemma_occurs_shift(s@, p@, start as int, j);
            if start + j < s.len() {
            }
        }
        lemma_find_none(t, p@, 0);
        assert(t =~= s@.subrange(start as int, s.len() as int));
    }
    let piece = slice(s, start, s.len());
    let ghost r0 = views(r@);
    proof {
        lemma_views_push(r@, piece);
    }
    r.push(piece);
    assert(views(r@) =~= r0 + split_on(t, p@));
    r
}

fn rewrite_single(command: &[char]) -> (r: Option<Vec<char>>)
    ensures
        match r {
            Some(v) => rewrite_single_spec(command@) == Some(v@),
            None => rewrite_single_spec(command@) is None,
        },
{
    let trimmed = trim_of(command);
    if starts_lit(trimmed.as_slice(), "ccr run ") || eq_lit(trimmed.as_slice(), "ccr run") {
        return None;
    }
    let ws = words_of(trimmed.as_slice());
    if ws.len() == 0 {
        return None;
    }
    assert(views(ws@)[0] == ws@[0]@);
    if handler_for_chars(ws[0].as_slice()).is_some() {
        let mut out: Vec<char> = Vec::new();
        push_str(&mut out, "ccr run ");
        push_all(&mut out, trimmed.as_slice());
        Some(out)
    } else {
        None
    }
}

/// The rewriting at `level` (see `level_spec`).
fn rewrite_compound(command: &[char], level: u8) -> (r: Option<Vec<char>>)
    requires
        level <= 3,
    ensures
        match r {
            Some(v) => level_spec(command@, level as int) == Some(v@),
            None => level_spec(command@, level as int) is None,
        },
    decreases 3 - level,
{
    if level == 3 {
        return rewrite_single(command);
    }
    let op = if level == 0 {
        " && "
    } else if level == 1 {
        " || "
    } else {
        "; "
    };
    let ghost f = next_fn(level as int);
    proof {
        reveal_strlit(" && ");
        reveal_strlit(" || ");
        reveal_strlit("; ");
        assert(op@ == op_at(level as int));
        assert(level_spec(command@, level as int) == compound(command@, op@, f));
        assert forall|e: Seq<char>| #[trigger] f(e) == level_spec(e, level + 1) by {}
    }
    let opv = chars_of(op);
    if !has_infix(command, opv.as_slice()) {
        return rewrite_compound(command, level + 1);
    }
    let parts = split_by(command, opv.as_slice());
    let ghost ps = split_on(command@, op@);
    if parts.len() < 2 {
        return rewrite_compound(command, level + 1);
    }
    let mut any = false;
    let mut out: Vec<Vec<char>> = Vec::new();
    let mut k: usize = 0;
    while k < parts.len()
        invariant
            k <= parts.len(),
            level < 3,
            views(parts@) == ps,
            forall|e: Seq<char>| #[trigger] f(e) == level_spec(e, level + 1),
            views(out@) == ps.take(k as int).map_values(|p: Seq<char>| part_or(f, p)),
            any == exists|j: int| 0 <= j < k && #[trigger] f(trim(ps[j])) is Some,
        decreases parts.len() - k,
    {
        assert(views(parts@)[k as int] == parts@[k as int]@);
        let t = trim_of(parts[k].as_slice());
        let piece = match rewrite_compound(t.as_slice(), level + 1) {
            Some(w) => {
                any = true;
                w
            },
            None => t,
        };
        proof {
            lemma_views_push(out@, piece);
            assert(ps.take(k + 1).map_values(|p: Seq<char>| part_or(f, p)) =~= ps.take(
                k as int,
            ).map_values(|p: Seq<char>| part_or(f, p)).push(part_or(f, ps[k as int])));
        }
        out.push(piece);
        k += 1;
    }
    assert(ps.take(parts.len() as int) =~= ps);
    if any {
        Some(join_with(&out, opv.as_slice()))
    } else {
        None
    }
}

/// Rewrite a full command string: `Some(rewritten)` when a segment of it
/// runs a known tool that is not wrapped yet, `None` when there is nothing
/// to do. Compound commands (`&&`, `||`, `;`) are split and every segment
/// rewritten on its own.
pub fn rewrite_command(command: &str) -> (r: Option<String>)
    ensures
        match r {
            Some(s) => rewrite_spec(command@) == Some(s@),
            None => rewrite_spec(command@) is None,
        },
{
    let c = chars_of(command);
    match rewrite_compound(c.as_slice(), 0) {
        Some(v) => Some(string_of(v.as_slice())),
        None => None,
    }
}

/// A command that already runs through `ccr run` is never wrapped again.
pub proof fn lemma_no_double_wrap(command: Seq<char>)
    requires
        starts_with(trim(command), "ccr run "@),
    ensures
        rewrite_single_spec(command) is None,
{
}


/// The name of every command with a handler starts with a letter, so neither
/// with `&` nor with `|`.
proof fn lemma_handler_name_start(w: Seq<char>)
    requires
        handler_for(w) is Some,
    ensures
        w.len() > 0,
        w[0] != '&' && w[0] != '|',
{
    reveal_strlit("aws");
    reveal_strlit("az");
    reveal_strlit("bun");
    reveal_strlit("bundle");
    reveal_strlit("cargo");
    reveal_strlit("cat");
    reveal_strlit("conda");
    reveal_strlit("curl");
    reveal_strlit("deno");
    reveal_strlit("diff");
    reveal_strlit("docker");
    reveal_strlit("docker-compose");
    reveal_strlit("env");
    reveal_strlit("eslint");
    reveal_strlit("find");
    reveal_strlit("gcloud");
    reveal_strlit("gh");
    reveal_strlit("git");
    reveal_strlit("gmake");
    reveal_strlit("grep");
    reveal_strlit("jest");
    reveal_strlit("jq");
    reveal_strlit("k");
    reveal_strlit("kubectl");
    reveal_strlit("ls");
    reveal_strlit("make");
    reveal_strlit("npm");
    reveal_strlit("pdm");
    reveal_strlit("pgcli");
    reveal_strlit("pip");
    reveal_strlit("pip3");
    reveal_strlit("pnpm");
    reveal_strlit("poetry");
    reveal_strlit("printenv");
    reveal_strlit("psql");
    reveal_strlit("pytest");
    reveal_strlit("python");
    reveal_strlit("python3");
    reveal_strlit("rake");
    reveal_strlit("rg");
    reveal_strlit("rspec");
    reveal_strlit("rubocop");
    reveal_strlit("terraform");
    reveal_strlit("tofu");
    reveal_strlit("tree");
    reveal_strlit("tsc");
    reveal_strlit("uv");
    reveal_strlit("vitest");
    reveal_strlit("yarn");
}

proof fn lemma_trim_is_subrange(c: Seq<char>)
    ensures
        exists|a: int| 0 <= a && a + trim(c).len() <= c.len() && trim(c) == #[trigger] c.subrange(a, a + trim(c).len()),
{
    lemma_trim_start_len(c);
    let a = choose|a: int| 0 <= a <= c.len() && trim_start(c) == c.skip(a) && (forall|j: int| 0 <= j < a ==> is_ws(#[trigger] c[j]));
    lemma_trim_end_len(trim_start(c));
    let t = trim(c);
    assert(t =~= c.subrange(a, a + t.len()));
}

proof fn lemma_no_op_in_trim(c: Seq<char>, op: Seq<char>)
    requires
        !contains(c, op),
    ensures
        !contains(trim(c), op),
{
    lemma_trim_is_subrange(c);
    let t = trim(c);
    let a = choose|a: int| 0 <= a && a + t.len() <= c.len() && t == #[trigger] c.subrange(a, a + t.len());
    if contains(t, op) {
        let j = choose|j: int| occurs_at(t, op, j);
        assert(c.subrange(a + j, a + j + op.len()) =~= t.subrange(j, j + op.len()));
        assert(occurs_at(c, op, a + j));
    }
}

/// A command with no `" && "`, `" || "` or `"; "` in it is rewritten as a
/// single command.
proof fn lemma_rewrite_plain(c: Seq<char>)
    requires
        !contains(c, " && "@),
        !contains(c, " || "@),
        !contains(c, "; "@),
    ensures
        rewrite_spec(c) == rewrite_single_spec(c),
{
}

/// A single command (no `&&`, `||` or `;` operator) that was rewritten is
/// not rewritten again: it now runs through `ccr run`.
pub proof fn lemma_rewrite_once(c: Seq<char>)
    requires
        !contains(c, " && "@),
        !contains(c, " || "@),
        !contains(c, "; "@),
        rewrite_spec(c) is Some,
    ensures
        rewrite_spec(rewrite_spec(c)->0) is None,
{
    reveal_strlit(" && ");
    reveal_strlit(" || ");
    reveal_strlit("; ");
    reveal_strlit("ccr run ");
    reveal_strlit("ccr run");
    lemma_rewrite_plain(c);
    let t = trim(c);
    let pre = "ccr run "@;
    let r = pre + t;
    assert(rewrite_spec(c) == Some(r));
    let w = words(t)[0];
    lemma_handler_name_start(w);
    // `t` starts with its first word, whose first character is a letter.
    lemma_trim_start_len(c);
    lemma_trim_end_len(trim_start(c));
    assert(t.len() > 0);
    assert(!is_ws(t[0])) by {
        assert(t[0] == trim_start(c)[0]);
    }
    assert(!is_ws(t.last()));
    lemma_trim_start_len(t);
    assert(trim_start(t) == t);
    lemma_word_end(t);
    assert(w == t.take(word_end(t)));
    assert(word_end(t) > 0);
    assert(t[0] == w[0]);
    // `r` holds no operator.
    lemma_no_op_in_trim(c, " && "@);
    lemma_no_op_in_trim(c, " || "@);
    lemma_no_op_in_trim(c, "; "@);
    assert forall|op: Seq<char>, j: int|
        (op == " && "@ || op == " || "@ || op == "; "@) && !contains(t, op) implies !#[trigger] occurs_at(r, op, j) by {
        if occurs_at(r, op, j) {
            if j >= 8 {
                assert(t.subrange(j - 8, j - 8 + op.len()) =~= r.subrange(j, j + op.len()));
                assert(occurs_at(t, op, j - 8));
            } else {
                assert(r.subrange(j, j + op.len())[0] == r[j]);
                assert(r.subrange(j, j + op.len())[1] == r[j + 1]);
                assert(r[8] == t[0]);
            }
        }
    }
    assert(!contains(r, " && "@));
    assert(!contains(r, " || "@));
    assert(!contains(r, "; "@));
    lemma_rewrite_plain(r);
    // `r` is already trimmed and starts with `ccr run `.
    assert(r[0] == 'c');
    assert(trim_start(r) == r);
    assert(r.last() == t.last());
    assert(trim_end(r) == r);
    assert(trim(r) == r);
    assert(r.subrange(0, 8) =~= pre);
    assert(starts_with(trim(r), pre));
}


/// No `&`, `|` or `;` in the text.
pub open spec fn no_op_chars(s: Seq<char>) -> bool {
    forall|i: int| 0 <= i < s.len() ==> #[trigger] s[i] != '&' && s[i] != '|' && s[i] != ';'
}

/// The character of an operator that no plain segment holds, and where it
/// stands in the operator.
pub open spec fn key_char(level: int) -> char {
    if level == 0 {
        '&'
    } else if level == 1 {
        '|'
    } else {
        ';'
    }
}

pub open spec fn key_pos(level: int) -> int {
    if level == 2 {
        0
    } else {
        1
    }
}

proof fn lemma_key(level: int)
    requires
        0 <= level <= 2,
    ensures
        op_at(level).len() >= 2,
        0 <= key_pos(level) < op_at(level).len(),
        op_at(level)[key_pos(level)] == key_char(level),
        forall|m: int| 0 <= m < key_pos(level) ==> op_at(level)[m] != key_char(level),
{
    reveal_strlit(" && ");
    reveal_strlit(" || ");
    reveal_strlit("; ");
}

proof fn lemma_no_key_no_op(q: Seq<char>, level: int)
    requires
        0 <= level <= 2,
        no_op_chars(q),
    ensures
        !contains(q, op_at(level)),
{
    lemma_key(level);
    if contains(q, op_at(level)) {
        let j = choose|j: int| occurs_at(q, op_at(level), j);
        let kp = key_pos(level);
        assert(q.subrange(j, j + op_at(level).len())[kp] == q[j + kp]);
    }
}

/// Splitting segments joined by an operator gives them back, when no
/// segment holds `&`, `|` or `;`.
proof fn lemma_split_join(qs: Seq<Seq<char>>, level: int)
    requires
        0 <= level <= 2,
        qs.len() >= 1,
        forall|i: int| 0 <= i < qs.len() ==> no_op_chars(#[trigger] qs[i]),
    ensures
        split_on(join(qs, op_at(level)), op_at(level)) == qs,
    decreases qs.len(),
{
    let op = op_at(level);
    lemma_key(level);
    let kp = key_pos(level);
    let key = key_char(level);
    if qs.len() == 1 {
        let q = qs[0];
        assert(no_op_chars(q));
        lemma_no_key_no_op(q, level);
        lemma_find_none(q, op, 0);
        assert(split_on(q, op) =~= seq![q]);
        assert(qs =~= seq![q]);
    } else {
        let q0 = qs[0];
        let rest = qs.drop_first();
        assert forall|i: int| 0 <= i < rest.len() implies no_op_chars(#[trigger] rest[i]) by {
            assert(rest[i] == qs[i + 1]);
        }
        lemma_split_join(rest, level);
        lemma_join_front(qs, op);
        let tail = join(rest, op);
        let s = q0 + op + tail;
        assert(no_op_chars(q0));
        assert forall|j: int| 0 <= j < q0.len() implies !occurs_at(s, op, j) by {
            if occurs_at(s, op, j) {
                assert(s.subrange(j, j + op.len())[kp] == s[j + kp]);
                if j + kp < q0.len() {
                    assert(s[j + kp] == q0[j + kp]);
                } else {
                    let m = j + kp - q0.len();
                    assert(s[j + kp] == op[m]);
                }
            }
        }
        assert(occurs_at(s, op, q0.len() as int)) by {
            assert(s.subrange(q0.len() as int, q0.len() + op.len() as int) =~= op);
        }
        lemma_find_from_at(s, op, 0, q0.len() as int);
        assert(s.take(q0.len() as int) =~= q0);
        assert(s.skip(q0.len() + op.len() as int) =~= tail);
        assert(split_on(s, op) =~= seq![q0] + rest);
        assert(qs =~= seq![q0] + rest);
    }
}


/// A trimmed command wrapped in `ccr run ` is trimmed and not wrapped again.
proof fn lemma_wrapped(x: Seq<char>)
    requires
        x.len() > 0,
        trim(x) == x,
    ensures
        trim("ccr run "@ + x) == "ccr run "@ + x,
        rewrite_single_spec("ccr run "@ + x) is None,
{
    reveal_strlit("ccr run ");
    reveal_strlit("ccr run");
    let pre = "ccr run "@;
    let r = pre + x;
    lemma_trim_start_len(x);
    lemma_trim_end_len(trim_start(x));
    lemma_trim_end_len(x);
    assert(!is_ws(x.last()));
    assert(r[0] == 'c');
    assert(trim_start(r) == r);
    assert(r.last() == x.last());
    assert(trim_end(r) == r);
    assert(r.subrange(0, 8) =~= pre);
}

/// No character `ch` in text joined from parts and a separator that lack it.
proof fn lemma_join_lacks(qs: Seq<Seq<char>>, sep: Seq<char>, ch: char)
    requires
        forall|i: int| 0 <= i < qs.len() ==> !(#[trigger] qs[i]).contains(ch),
        !sep.contains(ch),
    ensures
        !join(qs, sep).contains(ch),
    decreases qs.len(),
{
    if qs.len() == 1 {
        assert(!qs[0].contains(ch));
    } else if qs.len() > 1 {
        let d = qs.drop_last();
        assert forall|i: int| 0 <= i < d.len() implies !(#[trigger] d[i]).contains(ch) by {
            assert(d[i] == qs[i]);
        }
        lemma_join_lacks(d, sep, ch);
        assert(!qs[qs.len() - 1].contains(ch));
        let j = join(qs, sep);
        if j.contains(ch) {
            let k = choose|k: int| 0 <= k < j.len() && j[k] == ch;
            let a = join(d, sep);
            if k < a.len() {
                assert(j[k] == a[k]);
            } else if k < a.len() + sep.len() {
                assert(j[k] == sep[k - a.len()]);
            } else {
                assert(j[k] == qs.last()[k - a.len() - sep.len()]);
            }
        }
    }
}

proof fn lemma_no_chars_trim(q: Seq<char>)
    requires
        no_op_chars(q),
    ensures
        no_op_chars(trim(q)),
{
    lemma_trim_is_subrange(q);
    let t = trim(q);
    let a = choose|a: int| 0 <= a && a + t.len() <= q.len() && t == #[trigger] q.subrange(a, a + t.len());
    assert forall|i: int| 0 <= i < t.len() implies #[trigger] t[i] != '&' && t[i] != '|' && t[i] != ';' by {
        assert(t[i] == q[a + i]);
    }
}

/// The segment rewriting below a level treats a segment without operator
/// characters as a single command.
proof fn lemma_plain_segment(x: Seq<char>, level: int)
    requires
        0 <= level <= 2,
        no_op_chars(x),
    ensures
        next_fn(level)(x) == rewrite_single_spec(x),
{
    lemma_no_key_no_op(x, 0);
    lemma_no_key_no_op(x, 1);
    lemma_no_key_no_op(x, 2);
    reveal_strlit(" && ");
    reveal_strlit(" || ");
    reveal_strlit("; ");
}

/// A text with no operator of a level above `level` is rewritten from that
/// level on.
proof fn lemma_descend(c: Seq<char>, level: int)
    requires
        0 <= level <= 2,
        forall|l: int| 0 <= l < level ==> !contains(c, #[trigger] op_at(l)),
    ensures
        rewrite_spec(c) == compound(c, op_at(level), next_fn(level)),
{
    reveal_strlit(" && ");
    reveal_strlit(" || ");
    reveal_strlit("; ");
    if level >= 1 {
        assert(!contains(c, op_at(0)));
    }
    if level >= 2 {
        assert(!contains(c, op_at(1)));
    }
}

proof fn lemma_joined_ops(qs: Seq<Seq<char>>, level: int)
    requires
        0 <= level <= 2,
        qs.len() >= 2,
        forall|i: int| 0 <= i < qs.len() ==> no_op_chars(#[trigger] qs[i]),
    ensures
        forall|l: int| 0 <= l < level ==> !contains(join(qs, op_at(level)), #[trigger] op_at(l)),
        contains(join(qs, op_at(level)), op_at(level)),
        split_on(join(qs, op_at(level)), op_at(level)) == qs,
{
    let op = op_at(level);
    reveal_strlit(" && ");
    reveal_strlit(" || ");
    reveal_strlit("; ");
    lemma_split_join(qs, level);
    assert forall|l: int| 0 <= l < level implies !contains(join(qs, op), #[trigger] op_at(l)) by {
        let ch = key_char(l);
        assert forall|i: int| 0 <= i < qs.len() implies !(#[trigger] qs[i]).contains(ch) by {
            assert(no_op_chars(qs[i]));
            if qs[i].contains(ch) {
                let k = choose|k: int| 0 <= k < qs[i].len() && qs[i][k] == ch;
            }
        }
        assert(!op.contains(ch)) by {
            if op.contains(ch) {
                let k = choose|k: int| 0 <= k < op.len() && op[k] == ch;
            }
        }
        lemma_join_lacks(qs, op, ch);
        lemma_key(l);
        let j = join(qs, op);
        if contains(j, op_at(l)) {
            let m = choose|m: int| occurs_at(j, op_at(l), m);
            assert(j.subrange(m, m + op_at(l).len())[key_pos(l)] == j[m + key_pos(l)]);
        }
    }
    lemma_join_front(qs, op);
    let j = join(qs, op);
    assert(j.subrange(qs[0].len() as int, qs[0].len() + op.len() as int) =~= op);
    assert(occurs_at(j, op, qs[0].len() as int));
}

/// A command of segments joined by one operator, none of them holding `&`,
/// `|` or `;`, is not rewritten again once rewritten: every segment it
/// wrapped now runs through `ccr run`, and the others are still unknown.
pub proof fn lemma_rewrite_compound_once(ss: Seq<Seq<char>>, level: int)
    requires
        0 <= level <= 2,
        ss.len() >= 2,
        forall|i: int| 0 <= i < ss.len() ==> no_op_chars(#[trigger] ss[i]),
        rewrite_spec(join(ss, op_at(level))) is Some,
    ensures
        rewrite_spec(rewrite_spec(join(ss, op_at(level)))->0) is None,
{
    let op = op_at(level);
    let f = next_fn(level);
    let c = join(ss, op);
    lemma_joined_ops(ss, level);
    lemma_descend(c, level);
    let ps2 = ss.map_values(|p: Seq<char>| part_or(f, p));
    assert(rewrite_spec(c) == Some(join(ps2, op)));
    let r = join(ps2, op);
    assert forall|i: int| 0 <= i < ps2.len() implies no_op_chars(#[trigger] ps2[i]) && trim(ps2[i]) == ps2[i]
        && f(ps2[i]) is None by {
        let x = trim(ss[i]);
        assert(no_op_chars(ss[i]));
        lemma_no_chars_trim(ss[i]);
        lemma_plain_segment(x, level);
        crate::sentence::lemma_trim_idempotent(ss[i]);
        assert(ps2[i] == part_or(f, ss[i]));
        match rewrite_single_spec(x) {
            Some(w) => {
                lemma_trim_empty(x);
                assert(w == "ccr run "@ + x);
                assert(words(x).len() > 0);
                assert(x.len() > 0) by {
                    if x.len() == 0 {
                        assert(trim_start(x).len() == 0);
                    }
                }
                lemma_wrapped(x);
                reveal_strlit("ccr run ");
                assert forall|k: int| 0 <= k < w.len() implies #[trigger] w[k] != '&' && w[k] != '|' && w[k] != ';' by {
                    if k >= 8 {
                        assert(w[k] == x[k - 8]);
                    }
                }
                lemma_plain_segment(w, level);
            },
            None => {
                assert(ps2[i] == x);
            },
        }
    }
    lemma_joined_ops(ps2, level);
    lemma_descend(r, level);
    assert forall|k: int| 0 <= k < ps2.len() implies !(#[trigger] f(trim(ps2[k])) is Some) by {
        assert(trim(ps2[k]) == ps2[k]);
    }
}

} // verus!
