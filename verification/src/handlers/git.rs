//! `git`: compact status, log, diff, push/pull, commit and list output.
use vstd::prelude::*;
use super::util::{
    joined, joined_or, line_at, no_lines, or_original, output_lines, push_line, push_lit_line,
};
use super::{any_arg_is, arg, arg_chars, clone_args, has_arg, lemma_arg_at, lemma_same_args, strs, Handler};
use crate::text::{
    blank, chars_of, contains, contains_lit, decimal, eq_lit, is_blank, join, lemma_filter_take,
    lines, push_decimal, push_str, starts_lit, starts_with, trim, trim_of, views,
};

verus! {

pub struct GitHandler;

pub open spec fn status_keep(l: Seq<char>) -> bool {
    let t = trim(l);
    t.len() > 0 && !starts_with(t, "no changes added"@) && !starts_with(t, "nothing to commit"@)
        && !starts_with(t, "(use \"git"@) && !starts_with(t, "nothing added"@)
}

pub open spec fn more_marker(n: nat, what: Seq<char>) -> Seq<char> {
    "[+"@ + decimal(n) + what
}

/// Changed and untracked files and branch information, at most 20 lines.
pub open spec fn status_spec(output: Seq<char>) -> Seq<char> {
    let kept = lines(output).filter(|l: Seq<char>| keeps(GitLineFilter::Status, l));
    if kept.len() > 20 {
        join(kept.take(20).push(more_marker((kept.len() - 20) as nat, " more files]"@)), seq!['\n'])
    } else if kept.len() == 0 {
        "nothing to commit, working tree clean"@
    } else {
        join(kept, seq!['\n'])
    }
}

/// The first 20 log lines, then a count of the rest.
pub open spec fn log_spec(output: Seq<char>) -> Seq<char> {
    let ls = lines(output);
    let head = join(ls.take(if ls.len() < 20 {
        ls.len() as int
    } else {
        20
    }), seq!['\n']);
    if ls.len() > 20 {
        head + seq!['\n'] + more_marker((ls.len() - 20) as nat, " more commits]"@)
    } else {
        head
    }
}

pub open spec fn diff_keep(l: Seq<char>) -> bool {
    starts_with(l, "+++"@) || starts_with(l, "---"@) || starts_with(l, "diff "@) || starts_with(
        l,
        "index "@,
    ) || starts_with(l, "@@"@) || starts_with(l, "+"@) || starts_with(l, "-"@)
}

/// Diff lines kept so far, whether a hunk is open, and how many of its
/// context lines were kept.
pub struct GitDiffState {
    pub out: Seq<Seq<char>>,
    pub in_hunk: bool,
    pub ctx: nat,
}

/// Headers, hunk headers and changed lines are kept; inside a hunk, its
/// first two context lines too.
pub open spec fn git_diff_step(st: GitDiffState, l: Seq<char>) -> GitDiffState {
    if starts_with(l, "@@"@) {
        GitDiffState { out: st.out.push(l), in_hunk: true, ctx: 0 }
    } else if starts_with(l, "diff "@) || starts_with(l, "index "@) {
        GitDiffState { out: st.out.push(l), in_hunk: false, ctx: 0 }
    } else if diff_keep(l) {
        GitDiffState { out: st.out.push(l), ..st }
    } else if st.in_hunk && st.ctx < 2 {
        GitDiffState { out: st.out.push(l), ctx: st.ctx + 1, ..st }
    } else {
        st
    }
}

/// The state after the first `n` lines.
pub open spec fn git_diff_state(ls: Seq<Seq<char>>, n: nat) -> GitDiffState
    decreases n,
{
    if n == 0 {
        GitDiffState { out: seq![], in_hunk: false, ctx: 0 }
    } else {
        git_diff_step(git_diff_state(ls, (n - 1) as nat), ls[n - 1])
    }
}

/// The kept diff lines, at most 200, then a count of the rest; the output
/// itself when nothing is kept.
pub open spec fn diff_spec(output: Seq<char>) -> Seq<char> {
    let kept = git_diff_state(lines(output), lines(output).len()).out;
    if kept.len() == 0 {
        output
    } else if kept.len() > 200 {
        join(kept.take(200).push(more_marker((kept.len() - 200) as nat, " more lines]"@)), seq!['\n'])
    } else {
        join(kept, seq!['\n'])
    }
}

pub open spec fn push_keep(l: Seq<char>) -> bool {
    let t = trim(l);
    t.len() > 0 && !starts_with(t, "remote: Counting"@) && !starts_with(t, "remote: Compressing"@)
        && !starts_with(t, "remote: Enumerating"@) && !starts_with(t, "Counting objects"@)
        && !starts_with(t, "Compressing objects"@) && !starts_with(t, "Writing objects"@)
        && !starts_with(t, "Delta compression"@)
}

pub open spec fn commit_keep(l: Seq<char>) -> bool {
    starts_with(trim(l), "["@) || contains(l, "file"@) || contains(l, "insertion"@)
}

/// Non-blank lines, at most 30, then a count of the rest.
pub open spec fn list_spec(output: Seq<char>) -> Seq<char> {
    let kept = lines(output).filter(|l: Seq<char>| keeps(GitLineFilter::NonBlank, l));
    if kept.len() > 30 {
        join(kept.take(30).push(more_marker((kept.len() - 30) as nat, " more]"@)), seq!['\n'])
    } else {
        join(kept, seq!['\n'])
    }
}

pub open spec fn git_filter_spec(output: Seq<char>, args: Seq<String>) -> Seq<char> {
    let sub = arg(args, 1);
    if sub == "status"@ {
        status_spec(output)
    } else if sub == "log"@ {
        log_spec(output)
    } else if sub == "diff"@ {
        diff_spec(output)
    } else if sub == "push"@ || sub == "pull"@ || sub == "fetch"@ {
        or_original(lines(output).filter(|l: Seq<char>| keeps(GitLineFilter::Push, l)), output)
    } else if sub == "commit"@ || sub == "add"@ {
        or_original(lines(output).filter(|l: Seq<char>| keeps(GitLineFilter::Commit, l)), output)
    } else if sub == "branch"@ || sub == "stash"@ {
        list_spec(output)
    } else {
        output
    }
}

fn status_line(l: &[char]) -> (b: bool)
    ensures
        b == status_keep(l@),
{
    let t = trim_of(l);
    let ts = t.as_slice();
    t.len() > 0 && !starts_lit(ts, "no changes added") && !starts_lit(ts, "nothing to commit")
        && !starts_lit(ts, "(use \"git") && !starts_lit(ts, "nothing added")
}

fn diff_line(l: &[char]) -> (b: bool)
    ensures
        b == diff_keep(l@),
{
    starts_lit(l, "+++") || starts_lit(l, "---") || starts_lit(l, "diff ") || starts_lit(l, "index ")
        || starts_lit(l, "@@") || starts_lit(l, "+") || starts_lit(l, "-")
}

fn push_line_kept(l: &[char]) -> (b: bool)
    ensures
        b == push_keep(l@),
{
    let t = trim_of(l);
    let ts = t.as_slice();
    t.len() > 0 && !starts_lit(ts, "remote: Counting") && !starts_lit(ts, "remote: Compressing")
        && !starts_lit(ts, "remote: Enumerating") && !starts_lit(ts, "Counting objects")
        && !starts_lit(ts, "Compressing objects") && !starts_lit(ts, "Writing objects")
        && !starts_lit(ts, "Delta compression")
}

fn commit_line(l: &[char]) -> (b: bool)
    ensures
        b == commit_keep(l@),
{
    let t = trim_of(l);
    starts_lit(t.as_slice(), "[") || contains_lit(l, "file") || contains_lit(l, "insertion")
}

/// Which of the line filters of this handler.
pub enum GitLineFilter {
    Status,
    Push,
    Commit,
    NonBlank,
}

pub open spec fn keeps(which: GitLineFilter, l: Seq<char>) -> bool {
    match which {
        GitLineFilter::Status => status_keep(l),
        GitLineFilter::Push => push_keep(l),
        GitLineFilter::Commit => commit_keep(l),
        GitLineFilter::NonBlank => !blank(l),
    }
}

fn keeps_line(which: &GitLineFilter, l: &[char]) -> (b: bool)
    ensures
        b == keeps(*which, l@),
{
    match which {
        GitLineFilter::Status => status_line(l),
        GitLineFilter::Push => push_line_kept(l),
        GitLineFilter::Commit => commit_line(l),
        GitLineFilter::NonBlank => !is_blank(l),
    }
}

/// The lines of `output` that the filter keeps.
fn kept_lines(output: &str, which: GitLineFilter) -> (r: Vec<Vec<char>>)
    ensures
        views(r@) == lines(output@).filter(|l: Seq<char>| keeps(which, l)),
{
    let ls = output_lines(output);
    let ghost lv = views(ls@);
    let ghost p = |l: Seq<char>| keeps(which, l);
    let mut out = no_lines();
    let mut i: usize = 0;
    while i < ls.len()
        invariant
            i <= ls.len(),
            lv == views(ls@),
            p == (|l: Seq<char>| keeps(which, l)),
            views(out@) == lv.take(i as int).filter(p),
        decreases ls.len() - i,
    {
        proof {
            lemma_filter_take(lv, p, i as int);
        }
        assert(lv[i as int] == ls@[i as int]@);
        if keeps_line(&which, ls[i].as_slice()) {
            push_line(&mut out, line_at(&ls, i));
        }
        i += 1;
    }
    assert(lv.take(ls.len() as int) =~= lv);
    out
}

/// The first `n` lines, then a `[+k<what>` line when more were dropped.
fn capped(kept: &Vec<Vec<char>>, n: usize, what: &str) -> (r: String)
    ensures
        r@ == if kept.len() > n {
            join(views(kept@).take(n as int).push(more_marker((kept.len() - n) as nat, what@)), seq!['\n'])
        } else {
            join(views(kept@), seq!['\n'])
        },
{
    if kept.len() > n {
        let mut out = no_lines();
        let mut i: usize = 0;
        while i < n
            invariant
                i <= n < kept.len(),
                views(out@) == views(kept@).take(i as int),
            decreases n - i,
        {
            push_line(&mut out, line_at(kept, i));
            assert(views(out@) =~= views(kept@).take(i + 1));
            i += 1;
        }
        let mut m: Vec<char> = Vec::new();
        push_str(&mut m, "[+");
        push_decimal(&mut m, kept.len() - n);
        push_str(&mut m, what);
        push_line(&mut out, m);
        joined(&out)
    } else {
        joined(kept)
    }
}

fn filter_status(output: &str) -> (r: String)
    ensures
        r@ == status_spec(output@),
{
    let kept = kept_lines(output, GitLineFilter::Status);
    assert(views(kept@).len() == kept@.len());
    if kept.len() > 20 {
        return capped(&kept, 20, " more files]");
    }
    if kept.len() == 0 {
        return "nothing to commit, working tree clean".to_owned();
    }
    joined(&kept)
}

fn filter_diff(output: &str) -> (r: String)
    ensures
        r@ == diff_spec(output@),
{
    let ls = output_lines(output);
    let ghost lv = views(ls@);
    let mut out = no_lines();
    let mut in_hunk = false;
    let mut ctx: usize = 0;
    let mut i: usize = 0;
    while i < ls.len()
        invariant
            i <= ls.len(),
            lv == views(ls@),
            ctx <= 2,
            views(out@) == git_diff_state(lv, i as nat).out,
            in_hunk == git_diff_state(lv, i as nat).in_hunk,
            ctx as nat == git_diff_state(lv, i as nat).ctx,
        decreases ls.len() - i,
    {
        assert(lv[i as int] == ls@[i as int]@);
        let l = ls[i].as_slice();
        if starts_lit(l, "@@") {
            push_line(&mut out, line_at(&ls, i));
            in_hunk = true;
            ctx = 0;
        } else if starts_lit(l, "diff ") || starts_lit(l, "index ") {
            push_line(&mut out, line_at(&ls, i));
            in_hunk = false;
            ctx = 0;
        } else if diff_line(l) {
            push_line(&mut out, line_at(&ls, i));
        } else if in_hunk && ctx < 2 {
            push_line(&mut out, line_at(&ls, i));
            ctx += 1;
        }
        i += 1;
    }
    assert(views(out@).len() == out@.len());
    if out.len() == 0 {
        return output.to_owned();
    }
    capped(&out, 200, " more lines]")
}

fn filter_log(output: &str) -> (r: String)
    ensures
        r@ == log_spec(output@),
{
    let ls = output_lines(output);
    assert(views(ls@).len() == ls@.len());
    let n = if ls.len() < 20 {
        ls.len()
    } else {
        20
    };
    let mut out = no_lines();
    let mut i: usize = 0;
    while i < n
        invariant
            i <= n <= ls.len(),
            views(out@) == views(ls@).take(i as int),
        decreases n - i,
    {
        push_line(&mut out, line_at(&ls, i));
        assert(views(out@) =~= views(ls@).take(i + 1));
        i += 1;
    }
    let mut text = crate::text::join_lines(&out);
    if ls.len() > 20 {
        text.push('\n');
        push_str(&mut text, "[+");
        push_decimal(&mut text, ls.len() - 20);
        push_str(&mut text, " more commits]");
    }
    crate::text::string_of(text.as_slice())
}

/// `git log` gets `--oneline` after the subcommand unless it is there.
pub open spec fn git_args(args: Seq<String>) -> Seq<Seq<char>> {
    if arg(args, 1) == "log"@ && !has_arg(args, "--oneline"@) {
        strs(args).insert(2, "--oneline"@)
    } else {
        strs(args)
    }
}

/// Rewriting the arguments a second time changes nothing.
pub proof fn lemma_git_args_once(args: Seq<String>, r: Seq<String>)
    requires
        strs(r) == git_args(args),
    ensures
        git_args(r) == strs(r),
{
    assert(r.len() == strs(r).len() && args.len() == strs(args).len());
    if arg(args, 1) == "log"@ && !has_arg(args, "--oneline"@) {
        reveal_strlit("log");
        assert("log"@.len() == 3);
        assert(args.len() >= 2);
        assert(strs(r)[1] == r[1]@ && strs(args)[1] == args[1]@);
        assert(strs(r)[2] == r[2]@);
        lemma_arg_at(r, 2);
    } else {
        lemma_same_args(r, args, "--oneline"@);
        if 1 < args.len() {
            assert(strs(r)[1] == r[1]@ && strs(args)[1] == args[1]@);
        }
    }
}

impl Handler for GitHandler {
    /// `git log` gets `--oneline` unless it is there already.
    fn rewrite_args(&self, args: &[String]) -> (r: Vec<String>)
        ensures
            strs(r@) == git_args(args@),
    {
        let sub = arg_chars(args, 1);
        proof {
            reveal_strlit("log");
        }
        if eq_lit(sub.as_slice(), "log") && !any_arg_is(args, "--oneline") {
            assert("log"@.len() == 3);
            assert(sub@.len() == 3);
            assert(args@.len() >= 2);
            let mut out = clone_args(args);
            let s = "--oneline".to_owned();
            out.insert(2, s);
            assert(strs(out@) =~= strs(args@).insert(2, "--oneline"@));
            return out;
        }
        clone_args(args)
    }

    fn filter(&self, output: &str, args: &[String]) -> (r: String)
        ensures
            r@ == git_filter_spec(output@, args@),
    {
        let sub = arg_chars(args, 1);
        let s = sub.as_slice();
        if eq_lit(s, "status") {
            filter_status(output)
        } else if eq_lit(s, "log") {
            filter_log(output)
        } else if eq_lit(s, "diff") {
            filter_diff(output)
        } else if eq_lit(s, "push") || eq_lit(s, "pull") || eq_lit(s, "fetch") {
            let kept = kept_lines(output, GitLineFilter::Push);
            joined_or(&kept, output)
        } else if eq_lit(s, "commit") || eq_lit(s, "add") {
            let kept = kept_lines(output, GitLineFilter::Commit);
            joined_or(&kept, output)
        } else if eq_lit(s, "branch") || eq_lit(s, "stash") {
            let kept = kept_lines(output, GitLineFilter::NonBlank);
            capped(&kept, 30, " more]")
        } else {
            output.to_owned()
        }
    }
}

} // verus!
