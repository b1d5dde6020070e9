//! Tallies of the shell commands found in session history (JSON lines with
//! `tool_input.command` and `tool_response.output`): per command name, the
//! bytes of output and the number of calls, commands in name order.
use vstd::prelude::*;
use crate::json::{Json, as_str, get, get_field, json_parse, parse_json, str_of};
use crate::order::{
    insert_by, lemma_insert_by_at, lemma_insert_by_sorted, less, lex_lt, strictly_sorted,
};
use crate::text::{
    byte_len, blank, chars_of, eq_chars, is_blank, lines, lines_of, starts_lit, starts_with,
    string_of, trim, trim_of, utf8_len, views, words, words_of,
};

verus! {

/// `a + b`, or `usize::MAX` when that does not fit.
pub open spec fn sat_add(a: usize, b: int) -> usize {
    if a + b > usize::MAX {
        usize::MAX
    } else {
        (a + b) as usize
    }
}

/// `a + b`, or `u128::MAX` when that does not fit.
pub open spec fn sat_add_bytes(a: u128, b: int) -> u128 {
    if a + b > u128::MAX {
        u128::MAX
    } else {
        (a + b) as u128
    }
}

/// What a history line tallies: the command's first word and the bytes of
/// its output; nothing for commands already run through `ccr`.
pub open spec fn history_entry_spec(v: Json) -> Option<(Seq<char>, nat)> {
    let cmd = match get(v, "tool_input"@) {
        Some(ti) => as_str(get(ti, "command"@)),
        None => None,
    };
    let out = match get(v, "tool_response"@) {
        Some(tr) => as_str(get(tr, "output"@)),
        None => None,
    };
    match cmd {
        Some(c) => {
            let t = trim(c);
            if starts_with(t, "ccr "@) || words(t).len() == 0 {
                None
            } else {
                Some(
                    (
                        words(t)[0],
                        match out {
                            Some(o) => utf8_len(o),
                            None => 0,
                        },
                    ),
                )
            }
        },
        None => None,
    }
}

pub open spec fn tally_lt(a: (Seq<char>, u128, usize), b: (Seq<char>, u128, usize)) -> bool {
    lex_lt(a.0, b.0)
}

/// Index of the entry for `cmd`, or `t.len()`.
pub open spec fn tally_index(t: Seq<(Seq<char>, u128, usize)>, cmd: Seq<char>) -> int
    decreases t.len(),
{
    if t.len() == 0 {
        0
    } else if t[0].0 == cmd {
        0
    } else {
        1 + tally_index(t.drop_first(), cmd)
    }
}

/// One call of `cmd` with `bytes` of output added to the tally.
pub open spec fn tally_add(t: Seq<(Seq<char>, u128, usize)>, cmd: Seq<char>, bytes: nat) -> Seq<
    (Seq<char>, u128, usize),
> {
    let j = tally_index(t, cmd);
    if j < t.len() {
        t.update(j, (cmd, sat_add_bytes(t[j].1, bytes as int), sat_add(t[j].2, 1)))
    } else {
        insert_by(
            t,
            (cmd, sat_add_bytes(0, bytes as int), 1usize),
            |a: (Seq<char>, u128, usize), b: (Seq<char>, u128, usize)| tally_lt(a, b),
        )
    }
}

/// The tally after the first `n` lines, each given with its JSON parse.
pub open spec fn tally_lines(
    t: Seq<(Seq<char>, u128, usize)>,
    ls: Seq<Seq<char>>,
    parsed: Seq<Option<Json>>,
    n: nat,
) -> Seq<(Seq<char>, u128, usize)>
    decreases n,
{
    if n == 0 {
        t
    } else {
        let prev = tally_lines(t, ls, parsed, (n - 1) as nat);
        if blank(ls[n - 1]) {
            prev
        } else {
            match parsed[n - 1] {
                Some(v) => match history_entry_spec(v) {
                    Some(e) => tally_add(prev, e.0, e.1),
                    None => prev,
                },
                None => prev,
            }
        }
    }
}

/// Each command at most once, in name order.
pub open spec fn tally_sorted(t: Seq<(Seq<char>, u128, usize)>) -> bool {
    strictly_sorted(t, |e: (Seq<char>, u128, usize)| e.0)
}

proof fn lemma_tally_index_props(t: Seq<(Seq<char>, u128, usize)>, cmd: Seq<char>)
    ensures
        0 <= tally_index(t, cmd) <= t.len(),
        tally_index(t, cmd) < t.len() ==> t[tally_index(t, cmd)].0 == cmd,
        forall|i: int| 0 <= i < tally_index(t, cmd) ==> (#[trigger] t[i]).0 != cmd,
    decreases t.len(),
{
    if t.len() > 0 && t[0].0 != cmd {
        let d = t.drop_first();
        lemma_tally_index_props(d, cmd);
        assert forall|i: int| 0 <= i < tally_index(t, cmd) implies (#[trigger] t[i]).0 != cmd by {
            if i > 0 {
                assert(t[i] == d[i - 1]);
            }
        }
    }
}

/// A tally keeps each command once and in name order when a call is added.
pub proof fn lemma_tally_add_sorted(t: Seq<(Seq<char>, u128, usize)>, cmd: Seq<char>, bytes: nat)
    requires
        tally_sorted(t),
    ensures
        tally_sorted(tally_add(t, cmd, bytes)),
{
    let key = |e: (Seq<char>, u128, usize)| e.0;
    let j = tally_index(t, cmd);
    lemma_tally_index_props(t, cmd);
    if j < t.len() {
        let r = tally_add(t, cmd, bytes);
        assert forall|a: int, b: int| 0 <= a < b < r.len() implies lex_lt(key(#[trigger] r[a]), key(#[trigger] r[b])) by {
            assert(key(r[a]) == key(t[a]));
            assert(key(r[b]) == key(t[b]));
        }
    } else {
        let lt = |a: (Seq<char>, u128, usize), b: (Seq<char>, u128, usize)| tally_lt(a, b);
        let x = (cmd, sat_add_bytes(0, bytes as int), 1usize);
        lemma_insert_by_sorted(t, x, lt, key);
    }
}

/// However many history lines are added, a tally keeps each command once
/// and in name order.
pub proof fn lemma_tally_lines_sorted(
    t: Seq<(Seq<char>, u128, usize)>,
    ls: Seq<Seq<char>>,
    parsed: Seq<Option<Json>>,
    n: nat,
)
    requires
        tally_sorted(t),
    ensures
        tally_sorted(tally_lines(t, ls, parsed, n)),
    decreases n,
{
    if n > 0 {
        let prev = tally_lines(t, ls, parsed, (n - 1) as nat);
        lemma_tally_lines_sorted(t, ls, parsed, (n - 1) as nat);
        if !blank(ls[n - 1]) {
            if let Some(v) = parsed[n - 1] {
                if let Some(e) = history_entry_spec(v) {
                    lemma_tally_add_sorted(prev, e.0, e.1);
                }
            }
        }
    }
}

pub open spec fn tally_views(v: Seq<(String, u128, usize)>) -> Seq<(Seq<char>, u128, usize)> {
    v.map_values(|e: (String, u128, usize)| (e.0@, e.1, e.2))
}

/// What a parsed history line tallies.
pub fn history_entry(v: &Json) -> (r: Option<(String, u128)>)
    ensures
        match r {
            Some(e) => history_entry_spec(*v) matches Some(x) && x.0 == e.0@ && x.1 == e.1,
            None => history_entry_spec(*v) is None,
        },
{
    let cmd = match get_field(v, "tool_input") {
        Some(ti) => str_of(get_field(ti, "command")),
        None => None,
    };
    let out = match get_field(v, "tool_response") {
        Some(tr) => str_of(get_field(tr, "output")),
        None => None,
    };
    let c = match cmd {
        Some(c) => c,
        None => return None,
    };
    let cv = chars_of(c);
    let t = trim_of(cv.as_slice());
    if starts_lit(t.as_slice(), "ccr ") {
        return None;
    }
    let ws = words_of(t.as_slice());
    assert(views(ws@).len() == ws.len());
    if ws.len() == 0 {
        return None;
    }
    assert(views(ws@)[0] == ws@[0]@);
    let bytes: u128 = match out {
        Some(o) => {
            let ov = chars_of(o);
            byte_len(ov.as_slice())
        },
        None => 0,
    };
    Some((string_of(ws[0].as_slice()), bytes))
}

proof fn lemma_tally_index(t: Seq<(Seq<char>, u128, usize)>, cmd: Seq<char>, k: int)
    requires
        0 <= k <= t.len(),
        forall|j: int| 0 <= j < k ==> (#[trigger] t[j]).0 != cmd,
        k < t.len() ==> t[k].0 == cmd,
    ensures
        tally_index(t, cmd) == k,
    decreases k,
{
    if k > 0 {
        let d = t.drop_first();
        assert forall|j: int| 0 <= j < k - 1 implies (#[trigger] d[j]).0 != cmd by {
            assert(d[j] == t[j + 1]);
        }
        if k - 1 < d.len() {
            assert(d[k - 1] == t[k]);
        }
        lemma_tally_index(d, cmd, k - 1);
        assert(t[0].0 != cmd);
    }
}

/// Adds one call of `cmd` with `bytes` of output.
pub fn tally_add_exec(tally: &mut Vec<(String, u128, usize)>, cmd: String, bytes: u128)
    ensures
        tally_views(final(tally)@) == tally_add(tally_views(old(tally)@), cmd@, bytes as nat),
{
    let ghost t0 = tally_views(tally@);
    let cv = chars_of(cmd.as_str());
    let mut j: usize = 0;
    while j < tally.len() && !eq_chars(chars_of(tally[j].0.as_str()).as_slice(), cv.as_slice())
        invariant
            j <= tally.len(),
            t0 == tally_views(tally@),
            cv@ == cmd@,
            forall|q: int| 0 <= q < j ==> (#[trigger] t0[q]).0 != cmd@,
        decreases tally.len() - j,
    {
        assert(t0[j as int].0 == tally@[j as int].0@);
        j += 1;
    }
    proof {
        if j < tally.len() {
            assert(t0[j as int].0 == tally@[j as int].0@);
        }
    }
    if j < tally.len() {
        let (name, b, c) = tally.remove(j);
        let nb = b.saturating_add(bytes);
        let nc = c.saturating_add(1);
        tally.insert(j, (name, nb, nc));
        proof {
            lemma_tally_index(t0, cmd@, j as int);
        }
        assert(tally_views(tally@) =~= t0.update(j as int, (cmd@, sat_add_bytes(t0[j as int].1, bytes as int), sat_add(t0[j as int].2, 1))));
    } else {
        proof {
            lemma_tally_index(t0, cmd@, j as int);
        }
        let ghost lt = |a: (Seq<char>, u128, usize), b: (Seq<char>, u128, usize)| tally_lt(a, b);
        let ghost x = (cmd@, sat_add_bytes(0, bytes as int), 1usize);
        let mut k = tally.len();
        while k > 0 && less(cv.as_slice(), chars_of(tally[k - 1].0.as_str()).as_slice())
            invariant
                k <= tally.len(),
                t0 == tally_views(tally@),
                cv@ == cmd@,
                x == (cmd@, sat_add_bytes(0, bytes as int), 1usize),
                lt == (|a: (Seq<char>, u128, usize), b: (Seq<char>, u128, usize)| tally_lt(a, b)),
                forall|q: int| k <= q < t0.len() ==> lt(x, #[trigger] t0[q]),
            decreases k,
        {
            assert(t0[k - 1].0 == tally@[k - 1].0@);
            k -= 1;
        }
        proof {
            if k > 0 {
                assert(t0[k - 1].0 == tally@[k - 1].0@);
            }
            lemma_insert_by_at(t0, x, lt, k as int);
        }
        tally.insert(k, (cmd, bytes, 1));
        assert(tally_views(tally@) =~= t0.insert(k as int, x));
    }
}

/// Adds the commands of one history file, each line with what parsing it
/// as JSON gave.
pub fn tally_parsed(
    tally: &mut Vec<(String, u128, usize)>,
    content: &str,
    parsed: &Vec<Option<Json>>,
)
    requires
        parsed@.len() == lines(content@).len(),
    ensures
        tally_views(final(tally)@) == tally_lines(
            tally_views(old(tally)@),
            lines(content@),
            parsed@,
            lines(content@).len(),
        ),
{
    let ghost t0 = tally_views(tally@);
    let v = chars_of(content);
    let ls = lines_of(v.as_slice());
    let ghost lv = views(ls@);
    assert(lv.len() == ls.len());
    let mut i: usize = 0;
    while i < ls.len()
        invariant
            i <= ls.len(),
            lv == views(ls@),
            lv == lines(content@),
            parsed@.len() == lv.len(),
            tally_views(tally@) == tally_lines(t0, lv, parsed@, i as nat),
        decreases ls.len() - i,
    {
        assert(lv[i as int] == ls@[i as int]@);
        if !is_blank(ls[i].as_slice()) {
            match &parsed[i] {
                Some(j) => {
                    match history_entry(j) {
                        Some((cmd, bytes)) => {
                            tally_add_exec(tally, cmd, bytes);
                        },
                        None => {},
                    }
                },
                None => {},
            }
        }
        i += 1;
    }
}

/// Adds the commands of one history file to the tally.
pub fn tally_history(tally: &mut Vec<(String, u128, usize)>, content: &str)
    ensures
        tally_views(final(tally)@) == tally_lines(
            tally_views(old(tally)@),
            lines(content@),
            lines(content@).map_values(|l: Seq<char>| json_parse(l)),
            lines(content@).len(),
        ),
        tally_sorted(tally_views(old(tally)@)) ==> tally_sorted(tally_views(final(tally)@)),
{
    let ghost t_in = tally_views(tally@);
    let v = chars_of(content);
    let ls = lines_of(v.as_slice());
    let ghost lv = views(ls@);
    let ghost pf = |l: Seq<char>| json_parse(l);
    let mut parsed: Vec<Option<Json>> = Vec::new();
    let mut i: usize = 0;
    while i < ls.len()
        invariant
            i <= ls.len(),
            lv == views(ls@),
            pf == (|l: Seq<char>| json_parse(l)),
            parsed@ == lv.take(i as int).map_values(pf),
        decreases ls.len() - i,
    {
        assert(lv[i as int] == ls@[i as int]@);
        let line = string_of(ls[i].as_slice());
        parsed.push(parse_json(line.as_str()));
        assert(parsed@ =~= lv.take(i + 1).map_values(pf));
        i += 1;
    }
    assert(lv.take(ls.len() as int) =~= lv);
    tally_parsed(tally, content, &parsed);
    proof {
        if tally_sorted(t_in) {
            lemma_tally_lines_sorted(t_in, lines(content@), parsed@, lines(content@).len());
        }
    }
}

} // verus!
