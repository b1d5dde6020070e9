//! `env` / `printenv`: sorted variables with secrets redacted, at most 40.
use vstd::prelude::*;
use super::util::{joined, no_lines, output_lines, push_line};
use super::{clone_args, Handler};
use crate::order::{less, lex_lt};
use crate::outside::{to_uppercase, uppercase};
use crate::text::{
    chars_of, contains, contains_lit, decimal, index_of, join, lemma_index_of, lines, push_all,
    push_decimal, push_str, slice, string_of, views,
};

verus! {

pub struct EnvHandler;

/// `KEY=value` split at the first `=`.
pub open spec fn env_pair(l: Seq<char>) -> Option<(Seq<char>, Seq<char>)> {
    let k = index_of(l, '=');
    if k >= l.len() {
        None
    } else {
        Some((l.take(k), l.skip(k + 1)))
    }
}

/// A variable whose name suggests a secret.
pub open spec fn sensitive(key: Seq<char>) -> bool {
    let u = uppercase(key);
    ||| contains(u, "KEY"@)
    ||| contains(u, "SECRET"@)
    ||| contains(u, "TOKEN"@)
    ||| contains(u, "PASSWORD"@)
    ||| contains(u, "PASS"@)
    ||| contains(u, "CREDENTIAL"@)
    ||| contains(u, "AUTH"@)
}

pub open spec fn redact(p: (Seq<char>, Seq<char>)) -> (Seq<char>, Seq<char>) {
    if sensitive(p.0) {
        (p.0, "[redacted]"@)
    } else {
        p
    }
}

/// The variables of the listing, in order, secrets redacted.
pub open spec fn env_vars(ls: Seq<Seq<char>>) -> Seq<(Seq<char>, Seq<char>)>
    decreases ls.len(),
{
    if ls.len() == 0 {
        seq![]
    } else {
        let p = env_vars(ls.drop_last());
        match env_pair(ls.last()) {
            Some(kv) => p.push(redact(kv)),
            None => p,
        }
    }
}

/// `x` inserted into `s` after every element whose key is not greater.
pub open spec fn insert_sorted(s: Seq<(Seq<char>, Seq<char>)>, x: (Seq<char>, Seq<char>)) -> Seq<
    (Seq<char>, Seq<char>),
>
    decreases s.len(),
{
    if s.len() == 0 {
        seq![x]
    } else if lex_lt(x.0, s.last().0) {
        insert_sorted(s.drop_last(), x).push(s.last())
    } else {
        s.push(x)
    }
}

/// Stable sort by key.
pub open spec fn sort_by_key(s: Seq<(Seq<char>, Seq<char>)>) -> Seq<(Seq<char>, Seq<char>)>
    decreases s.len(),
{
    if s.len() == 0 {
        seq![]
    } else {
        insert_sorted(sort_by_key(s.drop_last()), s.last())
    }
}

pub open spec fn var_line(p: (Seq<char>, Seq<char>)) -> Seq<char> {
    p.0 + "="@ + p.1
}

/// The variables sorted by name, secrets redacted, at most 40 of them and a
/// count of the rest.
pub open spec fn env_spec(output: Seq<char>) -> Seq<char> {
    let vars = sort_by_key(env_vars(lines(output)));
    let shown = vars.take(if vars.len() < 40 {
        vars.len() as int
    } else {
        40
    }).map_values(|p: (Seq<char>, Seq<char>)| var_line(p));
    join(
        if vars.len() > 40 {
            shown.push("[+"@ + decimal((vars.len() - 40) as nat) + " more env vars]"@)
        } else {
            shown
        },
        seq!['\n'],
    )
}

/// Every variable whose name suggests a secret has the value `[redacted]`.
pub open spec fn secrets_hidden(s: Seq<(Seq<char>, Seq<char>)>) -> bool {
    forall|k: int| 0 <= k < s.len() && sensitive(#[trigger] s[k].0) ==> s[k].1 == "[redacted]"@
}

proof fn lemma_env_vars_hidden(ls: Seq<Seq<char>>)
    ensures
        secrets_hidden(env_vars(ls)),
    decreases ls.len(),
{
    if ls.len() > 0 {
        lemma_env_vars_hidden(ls.drop_last());
    }
}

proof fn lemma_insert_hidden(s: Seq<(Seq<char>, Seq<char>)>, x: (Seq<char>, Seq<char>))
    requires
        secrets_hidden(s),
        sensitive(x.0) ==> x.1 == "[redacted]"@,
    ensures
        secrets_hidden(insert_sorted(s, x)),
    decreases s.len(),
{
    if s.len() > 0 && lex_lt(x.0, s.last().0) {
        lemma_insert_hidden(s.drop_last(), x);
    }
}

/// The listing never shows a secret: after sorting, every variable whose
/// name suggests one still has the value `[redacted]`.
pub proof fn lemma_secrets_redacted(ls: Seq<Seq<char>>)
    ensures
        secrets_hidden(sort_by_key(env_vars(ls))),
{
    lemma_env_vars_hidden(ls);
    lemma_sort_hidden(env_vars(ls));
}

proof fn lemma_sort_hidden(s: Seq<(Seq<char>, Seq<char>)>)
    requires
        secrets_hidden(s),
    ensures
        secrets_hidden(sort_by_key(s)),
    decreases s.len(),
{
    if s.len() > 0 {
        lemma_sort_hidden(s.drop_last());
        assert(sensitive(s.last().0) ==> s.last().1 == "[redacted]"@);
        lemma_insert_hidden(sort_by_key(s.drop_last()), s.last());
    }
}

pub open spec fn pair_views(v: Seq<(Vec<char>, Vec<char>)>) -> Seq<(Seq<char>, Seq<char>)> {
    v.map_values(|p: (Vec<char>, Vec<char>)| (p.0@, p.1@))
}

proof fn lemma_insert_at(s: Seq<(Seq<char>, Seq<char>)>, x: (Seq<char>, Seq<char>), j: int)
    requires
        0 <= j <= s.len(),
        forall|k: int| j <= k < s.len() ==> lex_lt(x.0, #[trigger] s[k].0),
        j > 0 ==> !lex_lt(x.0, s[j - 1].0),
    ensures
        insert_sorted(s, x) == s.insert(j, x),
    decreases s.len(),
{
    if s.len() == 0 {
        assert(s.insert(j, x) =~= seq![x]);
    } else if j == s.len() {
        assert(s.insert(j, x) =~= s.push(x));
    } else {
        let d = s.drop_last();
        assert(lex_lt(x.0, s[s.len() - 1].0));
        assert forall|k: int| j <= k < d.len() implies lex_lt(x.0, #[trigger] d[k].0) by {
            assert(d[k] == s[k]);
        }
        lemma_insert_at(d, x, j);
        assert(d.insert(j, x).push(s.last()) =~= s.insert(j, x));
    }
}

fn redacted(key: &[char]) -> (b: bool)
    ensures
        b == sensitive(key@),
{
    let s = string_of(key);
    let up = to_uppercase(s.as_str());
    let uv = chars_of(up.as_str());
    let u = uv.as_slice();
    contains_lit(u, "KEY") || contains_lit(u, "SECRET") || contains_lit(u, "TOKEN")
        || contains_lit(u, "PASSWORD") || contains_lit(u, "PASS") || contains_lit(u, "CREDENTIAL")
        || contains_lit(u, "AUTH")
}

impl Handler for EnvHandler {
    fn rewrite_args(&self, args: &[String]) -> (r: Vec<String>)
        ensures
            r@ == args@,
    {
        clone_args(args)
    }

    fn filter(&self, output: &str, args: &[String]) -> (r: String)
        ensures
            r@ == env_spec(output@),
    {
        let ls = output_lines(output);
        let ghost lv = views(ls@);
        let mut vars: Vec<(Vec<char>, Vec<char>)> = Vec::new();
        let mut i: usize = 0;
        assert(pair_views(vars@) =~= sort_by_key(env_vars(lv.take(0))));
        while i < ls.len()
            invariant
                i <= ls.len(),
                lv == views(ls@),
                pair_views(vars@) == sort_by_key(env_vars(lv.take(i as int))),
            decreases ls.len() - i,
        {
            assert(lv.take(i + 1).drop_last() =~= lv.take(i as int));
            assert(lv.take(i + 1).last() == lv[i as int]);
            assert(lv[i as int] == ls@[i as int]@);
            let ghost ev = env_vars(lv.take(i as int));
            let line = ls[i].as_slice();
            let mut eq: usize = 0;
            while eq < line.len() && line[eq] != '='
                invariant
                    eq <= line.len(),
                    forall|q: int| 0 <= q < eq ==> line@[q] != '=',
                decreases line.len() - eq,
            {
                eq += 1;
            }
            proof {
                crate::text::lemma_index_of_unique(line@, '=', eq as int);
            }
            if eq < line.len() {
                let key = slice(line, 0, eq);
                let val = if redacted(key.as_slice()) {
                    chars_of("[redacted]")
                } else {
                    slice(line, eq + 1, line.len())
                };
                assert(line@.skip(eq + 1) =~= line@.subrange(eq + 1, line.len() as int));
                let ghost x = (key@, val@);
                let ghost s0 = pair_views(vars@);
                let mut j = vars.len();
                while j > 0 && less(key.as_slice(), vars[j - 1].0.as_slice())
                    invariant
                        j <= vars.len(),
                        s0 == pair_views(vars@),
                        x == (key@, val@),
                        forall|k: int| j <= k < s0.len() ==> lex_lt(x.0, #[trigger] s0[k].0),
                    decreases j,
                {
                    assert(s0[j - 1].0 == vars@[j - 1].0@);
                    j -= 1;
                }
                proof {
                    if j > 0 {
                        assert(s0[j - 1].0 == vars@[j - 1].0@);
                    }
                    lemma_insert_at(s0, x, j as int);
                }
                vars.insert(j, (key, val));
                assert(pair_views(vars@) =~= s0.insert(j as int, x));
                assert(env_pair(line@) == Some((line@.take(eq as int), line@.skip(eq + 1))));
                assert(x == redact((line@.take(eq as int), line@.skip(eq + 1))));
                assert(env_vars(lv.take(i + 1)) == ev.push(x));
                assert(ev.push(x).drop_last() =~= ev);
                assert(sort_by_key(ev.push(x)) == insert_sorted(sort_by_key(ev), x));
            }
            i += 1;
        }
        assert(lv.take(ls.len() as int) =~= lv);
        let ghost sv = pair_views(vars@);
        let total = vars.len();
        let shown = if total < 40 {
            total
        } else {
            40
        };
        let mut out = no_lines();
        let mut k: usize = 0;
        while k < shown
            invariant
                k <= shown <= total == vars.len(),
                sv == pair_views(vars@),
                views(out@) == sv.take(k as int).map_values(
                    |p: (Seq<char>, Seq<char>)| var_line(p),
                ),
            decreases shown - k,
        {
            let mut l: Vec<char> = Vec::new();
            push_all(&mut l, vars[k].0.as_slice());
            push_str(&mut l, "=");
            push_all(&mut l, vars[k].1.as_slice());
            push_line(&mut out, l);
            assert(views(out@) =~= sv.take(k + 1).map_values(
                |p: (Seq<char>, Seq<char>)| var_line(p),
            ));
            k += 1;
        }
        if total > 40 {
            let mut m: Vec<char> = Vec::new();
            push_str(&mut m, "[+");
            push_decimal(&mut m, total - 40);
            push_str(&mut m, " more env vars]");
            push_line(&mut out, m);
        }
        joined(&out)
    }
}

} // verus!
