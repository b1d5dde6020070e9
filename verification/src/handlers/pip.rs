//! `pip`: installs reduced to a package count and the warnings; other
//! subcommands to their last line.
use vstd::prelude::*;
use super::util::{joined, line_at, no_lines, push_line};
use super::{arg, arg_chars, clone_args, Handler};
use crate::outside::{to_uppercase, uppercase};
use crate::text::{
    blank, chars_of, contains, contains_lit, decimal, eq_lit, is_blank, join, lemma_fold_take,
    lemma_filter_take, lemma_lines_total, lemma_total_len_take, lemma_trim_end_len,
    lemma_trim_start_len, lemma_words_len, lines, lines_of, push_decimal, push_str, slice,
    starts_lit, starts_with, string_of, total_len, trim, trim_end, trim_of, trim_start, views,
    words, words_of,
};

verus! {

pub struct PipHandler;

/// `s` with every leading repetition of `p` removed (`trim_start_matches`).
pub open spec fn strip_prefixes(s: Seq<char>, p: Seq<char>) -> Seq<char>
    decreases s.len(),
{
    if p.len() > 0 && starts_with(s, p) {
        strip_prefixes(s.skip(p.len() as int), p)
    } else {
        s
    }
}

pub proof fn lemma_strip_prefixes_len(s: Seq<char>, p: Seq<char>)
    ensures
        strip_prefixes(s, p).len() <= s.len(),
    decreases s.len(),
{
    if p.len() > 0 && starts_with(s, p) {
        lemma_strip_prefixes_len(s.skip(p.len() as int), p);
    }
}

/// Warning lines so far and the number of packages installed.
pub struct PipState {
    pub warnings: Seq<Seq<char>>,
    pub installed: nat,
}

pub open spec fn shouts(t: Seq<char>, p: Seq<char>) -> bool {
    starts_with(uppercase(t), p)
}

pub open spec fn pip_step(st: PipState, line: Seq<char>) -> PipState {
    let t = trim(line);
    if starts_with(t, "Successfully installed"@) {
        PipState {
            installed: st.installed + words(strip_prefixes(t, "Successfully installed"@)).len(),
            ..st
        }
    } else if shouts(t, "WARNING"@) || shouts(t, "ERROR"@) {
        PipState { warnings: st.warnings.push(line), ..st }
    } else {
        st
    }
}

pub open spec fn pip_summary_line(l: Seq<char>) -> bool {
    let t = trim(l);
    contains(t, "already satisfied"@) || contains(t, "Requirement already"@) || shouts(
        t,
        "ERROR"@,
    )
}

/// The warnings and a package count; with nothing installed, the warnings
/// and the first five "already satisfied" or error lines, or the output
/// itself when there are none.
pub open spec fn pip_install_spec(output: Seq<char>) -> Seq<char> {
    let st = lines(output).fold_left(
        PipState { warnings: seq![], installed: 0 },
        |st: PipState, l: Seq<char>| pip_step(st, l),
    );
    if st.installed > 0 {
        join(
            st.warnings.push(
                "[pip install complete \u{2014} "@ + decimal(st.installed) + " packages]"@,
            ),
            seq!['\n'],
        )
    } else {
        let summary = lines(output).filter(|l: Seq<char>| pip_summary_line(l));
        let first = summary.take(if summary.len() < 5 {
            summary.len() as int
        } else {
            5
        });
        if first.len() == 0 {
            output
        } else {
            join(st.warnings + first, seq!['\n'])
        }
    }
}

/// A warning or error line of an install: its trimmed text, upper-cased,
/// starts with `WARNING` or `ERROR` (and it is not the
/// `Successfully installed` line).
pub open spec fn warn_line(l: Seq<char>) -> bool {
    let t = trim(l);
    !starts_with(t, "Successfully installed"@) && (starts_with(uppercase(t), "WARNING"@)
        || starts_with(uppercase(t), "ERROR"@))
}

/// The install scan after the given lines.
pub open spec fn pip_fold(ls: Seq<Seq<char>>) -> PipState {
    ls.fold_left(PipState { warnings: seq![], installed: 0 }, |st: PipState, l: Seq<char>| pip_step(st, l))
}

/// The package-count line.
pub open spec fn pip_count_line(n: nat) -> Seq<char> {
    "[pip install complete \u{2014} "@ + decimal(n) + " packages]"@
}

proof fn lemma_pip_fold_warnings(ls: Seq<Seq<char>>)
    ensures
        pip_fold(ls).warnings == ls.filter(|l: Seq<char>| warn_line(l)),
    decreases ls.len(),
{
    let p = |l: Seq<char>| warn_line(l);
    if ls.len() == 0 {
        assert(ls.filter(p) =~= Seq::<Seq<char>>::empty()) by {
            reveal(Seq::filter);
        }
    } else {
        let d = ls.drop_last();
        lemma_pip_fold_warnings(d);
        assert(d.push(ls.last()) =~= ls);
        d.lemma_filter_push(ls.last(), p);
    }
}

/// The packages named on the `Successfully installed` lines: the words
/// after the prefix, over all such lines.
pub open spec fn installed_words(ls: Seq<Seq<char>>) -> nat
    decreases ls.len(),
{
    if ls.len() == 0 {
        0
    } else {
        let t = trim(ls.last());
        installed_words(ls.drop_last()) + if starts_with(t, "Successfully installed"@) {
            words(strip_prefixes(t, "Successfully installed"@)).len()
        } else {
            0
        }
    }
}

/// The package count is the number of packages named on all the
/// `Successfully installed` lines.
pub proof fn lemma_pip_count(ls: Seq<Seq<char>>)
    ensures
        pip_fold(ls).installed == installed_words(ls),
    decreases ls.len(),
{
    if ls.len() > 0 {
        lemma_pip_count(ls.drop_last());
    }
}

/// No warning or error line of an install is lost: when packages were
/// installed, the result is every warning and error line, in input order,
/// followed by the package count.
pub proof fn lemma_pip_install_keeps_warnings(output: Seq<char>)
    requires
        pip_fold(lines(output)).installed > 0,
    ensures
        pip_install_spec(output) == join(
            lines(output).filter(|l: Seq<char>| warn_line(l)).push(
                pip_count_line(pip_fold(lines(output)).installed),
            ),
            seq!['\n'],
        ),
{
    lemma_pip_fold_warnings(lines(output));
}

/// The last line that is not blank.
pub open spec fn last_nonblank(ls: Seq<Seq<char>>) -> Option<Seq<char>>
    decreases ls.len(),
{
    if ls.len() == 0 {
        None
    } else if !blank(ls.last()) {
        Some(ls.last())
    } else {
        last_nonblank(ls.drop_last())
    }
}

pub open spec fn pip_spec(output: Seq<char>, args: Seq<String>) -> Seq<char> {
    let sub = arg(args, 1);
    if sub == "freeze"@ {
        output
    } else if sub == "install"@ || sub == "add"@ {
        pip_install_spec(output)
    } else {
        match last_nonblank(lines(output)) {
            Some(l) => l,
            None => output,
        }
    }
}

fn shouts_exec(t: &[char], p: &str) -> (b: bool)
    ensures
        b == shouts(t@, p@),
{
    let s = string_of(t);
    let u = to_uppercase(s.as_str());
    let uv = chars_of(u.as_str());
    starts_lit(uv.as_slice(), p)
}

/// The number of words after the `Successfully installed` prefixes.
fn installed_count(t: &[char]) -> (n: usize)
    ensures
        n == words(strip_prefixes(t@, "Successfully installed"@)).len(),
        n <= t@.len(),
{
    let p = "Successfully installed";
    proof {
        reveal_strlit("Successfully installed");
    }
    let pl = chars_of(p).len();
    let mut cur = slice(t, 0, t.len());
    assert(cur@ =~= t@);
    while starts_lit(cur.as_slice(), p)
        invariant
            pl == p@.len(),
            pl > 0,
            cur@.len() <= t@.len(),
            strip_prefixes(cur@, p@) == strip_prefixes(t@, p@),
        decreases cur@.len(),
    {
        cur = slice(cur.as_slice(), pl, cur.len());
    }
    proof {
        lemma_words_len(cur@);
    }
    let ws = words_of(cur.as_slice());
    ws.len()
}

fn summary_line(l: &[char]) -> (b: bool)
    ensures
        b == pip_summary_line(l@),
{
    let t = trim_of(l);
    let ts = t.as_slice();
    contains_lit(ts, "already satisfied") || contains_lit(ts, "Requirement already")
        || shouts_exec(ts, "ERROR")
}

fn filter_install(output: &str) -> (r: String)
    ensures
        r@ == pip_install_spec(output@),
{
    let v = chars_of(output);
    let ls = lines_of(v.as_slice());
    let ghost lv = views(ls@);
    proof {
        lemma_lines_total(output@);
    }
    let ghost f = |st: PipState, l: Seq<char>| pip_step(st, l);
    let ghost init = PipState { warnings: seq![], installed: 0 };
    let mut warnings = no_lines();
    let mut installed: usize = 0;
    let mut i: usize = 0;
    while i < ls.len()
        invariant
            i <= ls.len(),
            lv == views(ls@),
            f == (|st: PipState, l: Seq<char>| pip_step(st, l)),
            init == (PipState { warnings: seq![], installed: 0 }),
            total_len(lv) <= v.len(),
            installed <= total_len(lv.take(i as int)),
            lv.take(i as int).fold_left(init, f) == (PipState {
                warnings: views(warnings@),
                installed: installed as nat,
            }),
        decreases ls.len() - i,
    {
        proof {
            lemma_fold_take(lv, init, f, i as int);
            lemma_total_len_take(lv, i + 1);
            assert(lv.take(i + 1).drop_last() =~= lv.take(i as int));
        }
        assert(lv[i as int] == ls@[i as int]@);
        let line = ls[i].as_slice();
        let t = trim_of(line);
        let ts = t.as_slice();
        if starts_lit(ts, "Successfully installed") {
            let n = installed_count(ts);
            proof {
                lemma_trim_start_len(line@);
                lemma_trim_end_len(trim_start(line@));
            }
            installed = installed + n;
        } else if shouts_exec(ts, "ERROR") || shouts_exec(ts, "WARNING") {
            push_line(&mut warnings, line_at(&ls, i));
        }
        i += 1;
    }
    assert(lv.take(ls.len() as int) =~= lv);
    if installed > 0 {
        let mut m: Vec<char> = Vec::new();
        push_str(&mut m, "[pip install complete \u{2014} ");
        push_decimal(&mut m, installed);
        push_str(&mut m, " packages]");
        push_line(&mut warnings, m);
        return joined(&warnings);
    }
    let ghost p = |l: Seq<char>| pip_summary_line(l);
    let mut summary = no_lines();
    let mut j: usize = 0;
    while j < ls.len()
        invariant
            j <= ls.len(),
            lv == views(ls@),
            p == (|l: Seq<char>| pip_summary_line(l)),
            views(summary@) == lv.take(j as int).filter(p),
        decreases ls.len() - j,
    {
        proof {
            lemma_filter_take(lv, p, j as int);
        }
        assert(lv[j as int] == ls@[j as int]@);
        if summary_line(ls[j].as_slice()) {
            push_line(&mut summary, line_at(&ls, j));
        }
        j += 1;
    }
    assert(lv.take(ls.len() as int) =~= lv);
    let ghost sv = views(summary@);
    assert(sv.len() == summary.len());
    let n = if summary.len() < 5 {
        summary.len()
    } else {
        5
    };
    if n == 0 {
        return output.to_owned();
    }
    let ghost w0 = views(warnings@);
    let mut k: usize = 0;
    while k < n
        invariant
            k <= n <= summary.len(),
            sv == views(summary@),
            views(warnings@) == w0 + sv.take(k as int),
        decreases n - k,
    {
        push_line(&mut warnings, line_at(&summary, k));
        assert(views(warnings@) =~= w0 + sv.take(k + 1));
        k += 1;
    }
    joined(&warnings)
}

impl Handler for PipHandler {
    fn rewrite_args(&self, args: &[String]) -> (r: Vec<String>)
        ensures
            r@ == args@,
    {
        clone_args(args)
    }

    fn filter(&self, output: &str, args: &[String]) -> (r: String)
        ensures
            r@ == pip_spec(output@, args@),
    {
        let sub = arg_chars(args, 1);
        let s = sub.as_slice();
        if eq_lit(s, "freeze") {
            return output.to_owned();
        }
        if eq_lit(s, "install") || eq_lit(s, "add") {
            return filter_install(output);
        }
        let v = chars_of(output);
        let ls = lines_of(v.as_slice());
        let ghost lv = views(ls@);
        let mut i = ls.len();
        assert(lv.take(ls.len() as int) =~= lv);
        while i > 0 && is_blank(ls[i - 1].as_slice())
            invariant
                i <= ls.len(),
                lv == views(ls@),
                last_nonblank(lv) == last_nonblank(lv.take(i as int)),
            decreases i,
        {
            assert(lv[i - 1] == ls@[i - 1]@);
            assert(lv.take(i as int).drop_last() =~= lv.take(i - 1));
            i -= 1;
        }
        assert(lv.take(ls.len() as int) =~= lv);
        if i == 0 {
            assert(lv.take(0) =~= Seq::<Seq<char>>::empty());
            return output.to_owned();
        }
        assert(lv[i - 1] == ls@[i - 1]@);
        assert(lv.take(i as int).last() == lv[i - 1]);
        string_of(ls[i - 1].as_slice())
    }
}

} // verus!
