//! `kubectl`: compact `get` tables, deduplicated logs, the useful sections of
//! `describe`, and the result lines of `apply` / `delete` / `rollout`.
//!
//! Log lines are deduplicated by embedding similarity; the similarities are
//! floating-point work done outside this library and arrive as a matrix of
//! "too similar" flags. Without it, exact duplicates are dropped instead.
use vstd::prelude::*;
use super::docker::{dedup_log_lines, dedup_logs_spec, lemma_select_flags_len, select_flags, sim_kept, first_occurrence};
use super::util::{compact_table, compact_table_spec, joined, joined_or, line_at, no_lines, or_original, output_lines, push_line};
use super::{
    any_arg_starts, arg, arg_chars, clone_args, has_arg_prefix, lemma_arg_at, lemma_same_args,
    lemma_strs_extend, strs, Handler,
};
use crate::text::{
    blank, contains, contains_lit, decimal, eq_lit, is_blank, join, join_lines, lemma_filter_take,
    lemma_fold_take, lines, push_decimal, push_str, starts_lit, starts_with, string_of, trim,
    trim_of, views,
};

verus! {

pub struct KubectlHandler;

/// Deduplicated log lines: the output itself when every line is blank;
/// with the similarity flags, the kept lines and a count of those dropped;
/// without them, the first occurrence of each line.
pub open spec fn kube_logs_spec(output: Seq<char>, sim: Option<Seq<Seq<bool>>>) -> Seq<char> {
    let ls = lines(output);
    if forall|i: int| 0 <= i < ls.len() ==> blank(#[trigger] ls[i]) {
        output
    } else {
        let d = dedup_logs_spec(ls, sim, false);
        let body = join(d, seq!['\n']);
        if sim is Some && d.len() < ls.len() {
            body + seq!['\n'] + "["@ + decimal((ls.len() - d.len()) as nat)
                + " duplicate lines collapsed by semantic dedup]"@
        } else {
            body
        }
    }
}

/// Kept lines, whether inside a kept section, annotation lines seen, and
/// whether inside an annotation or label block.
pub struct DescribeState {
    pub out: Seq<Seq<char>>,
    pub in_section: bool,
    pub count: nat,
    pub in_ann: bool,
}

pub open spec fn indented(line: Seq<char>) -> bool {
    starts_with(line, " "@) || starts_with(line, "\t"@)
}

pub open spec fn section_start(t: Seq<char>) -> bool {
    starts_with(t, "Name:"@) || starts_with(t, "Status:"@) || starts_with(t, "Conditions:"@)
        || starts_with(t, "Events:"@)
}

pub open spec fn describe_step(st: DescribeState, line: Seq<char>) -> DescribeState {
    let t = trim(line);
    if starts_with(t, "Annotations:"@) || starts_with(t, "Labels:"@) {
        DescribeState { out: st.out.push(line), in_ann: true, count: 0, ..st }
    } else if st.in_ann && indented(line) {
        let c = st.count + 1;
        DescribeState {
            out: if c <= 5 {
                st.out.push(line)
            } else if c == 6 {
                st.out.push("["@ + decimal(c) + " annotations]"@)
            } else {
                st.out
            },
            count: c,
            ..st
        }
    } else {
        let is_section = section_start(t);
        let in_section = if is_section {
            true
        } else if t.len() > 0 && !indented(line) {
            false
        } else {
            st.in_section
        };
        DescribeState {
            out: if in_section || is_section {
                st.out.push(line)
            } else {
                st.out
            },
            in_section,
            count: st.count,
            in_ann: false,
        }
    }
}

pub open spec fn change_keep(l: Seq<char>) -> bool {
    let t = trim(l);
    t.len() > 0 && (contains(t, "created"@) || contains(t, "deleted"@) || contains(t, "configured"@)
        || contains(t, "unchanged"@) || contains(t, "error"@) || contains(t, "Error"@)
        || starts_with(t, "deployment."@) || starts_with(t, "service."@) || starts_with(t, "pod/"@))
}

/// The `kubectl` output after dispatch on the subcommand, given the log
/// similarity flags (or `None`).
pub open spec fn kubectl_filter_spec(
    output: Seq<char>,
    args: Seq<String>,
    sim: Option<Seq<Seq<bool>>>,
) -> Seq<char> {
    let sub = arg(args, 1);
    if sub == "get"@ {
        compact_table_spec(output, seq![0usize, 1usize, 4usize])
    } else if sub == "logs"@ {
        kube_logs_spec(output, sim)
    } else if sub == "describe"@ {
        or_original(
            lines(output).fold_left(
                DescribeState { out: seq![], in_section: false, count: 0, in_ann: false },
                |st: DescribeState, l: Seq<char>| describe_step(st, l),
            ).out,
            output,
        )
    } else if sub == "apply"@ || sub == "delete"@ || sub == "rollout"@ {
        or_original(lines(output).filter(|l: Seq<char>| change_keep(l)), output)
    } else {
        output
    }
}

/// A line that reports a resource as created, deleted, configured or
/// unchanged, or reports an error.
pub open spec fn reports_change(l: Seq<char>) -> bool {
    let text = trim(l);
    &&& text.len() > 0
    &&& contains(text, "created"@) || contains(text, "deleted"@) || contains(text, "configured"@)
        || contains(text, "unchanged"@) || contains(text, "error"@) || contains(text, "Error"@)
}

proof fn lemma_filter_filter(s: Seq<Seq<char>>, p: spec_fn(Seq<char>) -> bool, q: spec_fn(Seq<char>) -> bool)
    requires
        forall|l: Seq<char>| #[trigger] q(l) ==> p(l),
    ensures
        s.filter(p).filter(q) == s.filter(q),
    decreases s.len(),
{
    if s.len() == 0 {
        reveal(Seq::filter);
        assert(s.filter(p) =~= Seq::<Seq<char>>::empty());
    } else {
        let d = s.drop_last();
        let x = s.last();
        lemma_filter_filter(d, p, q);
        assert(d.push(x) =~= s);
        d.lemma_filter_push(x, p);
        d.lemma_filter_push(x, q);
        if p(x) {
            d.filter(p).lemma_filter_push(x, q);
        }
    }
}

/// For `apply`, `delete` and `rollout`, no change report is lost: the
/// output is made of lines among which every line of the input that reports
/// a resource as created, deleted, configured or unchanged, or an error,
/// appears, in input order (the output itself when no line is kept).
pub proof fn lemma_changes_kept(output: Seq<char>, args: Seq<String>, sim: Option<Seq<Seq<bool>>>)
    requires
        arg(args, 1) == "apply"@ || arg(args, 1) == "delete"@ || arg(args, 1) == "rollout"@,
    ensures
        exists|kept: Seq<Seq<char>>|
            kept.filter(|l: Seq<char>| reports_change(l)) == lines(output).filter(
                |l: Seq<char>| reports_change(l),
            ) && kubectl_filter_spec(output, args, sim) == or_original(kept, output),
{
    reveal_strlit("apply");
    reveal_strlit("delete");
    reveal_strlit("rollout");
    reveal_strlit("get");
    reveal_strlit("logs");
    reveal_strlit("describe");
    let sub = arg(args, 1);
    assert(sub != "get"@ && sub != "logs"@ && sub != "describe"@) by {
        if sub == "apply"@ {
            assert(sub.len() == 5);
            assert(sub[0] != "describe"@[0]);
        } else if sub == "delete"@ {
            assert(sub.len() == 6);
        } else {
            assert(sub.len() == 7);
        }
    }
    let p = |l: Seq<char>| change_keep(l);
    let q = |l: Seq<char>| reports_change(l);
    let kept = lines(output).filter(p);
    assert forall|l: Seq<char>| #[trigger] q(l) implies p(l) by {}
    lemma_filter_filter(lines(output), p, q);
    assert(kept.filter(q) == lines(output).filter(q));
    assert(kubectl_filter_spec(output, args, sim) == or_original(kept, output));
    assert(kept.filter(|l: Seq<char>| reports_change(l)) == lines(output).filter(
        |l: Seq<char>| reports_change(l),
    ));
}

fn filter_logs(output: &str, similar: Option<&Vec<Vec<bool>>>) -> (r: String)
    requires
        similar matches Some(m) ==> (m@.len() == lines(output@).len() && forall|i: int|
            0 <= i < m@.len() ==> #[trigger] m@[i]@.len() == lines(output@).len()),
    ensures
        r@ == kube_logs_spec(
            output@,
            match similar {
                Some(m) => Some(m@.map_values(|row: Vec<bool>| row@)),
                None => None,
            },
        ),
{
    let ls = output_lines(output);
    let ghost lv = views(ls@);
    assert(lv.len() == ls@.len());
    let mut i: usize = 0;
    while i < ls.len() && is_blank(ls[i].as_slice())
        invariant
            i <= ls.len(),
            lv == views(ls@),
            forall|j: int| 0 <= j < i ==> blank(#[trigger] lv[j]),
        decreases ls.len() - i,
    {
        assert(lv[i as int] == ls@[i as int]@);
        i += 1;
    }
    if i == ls.len() {
        return output.to_owned();
    }
    assert(!blank(lv[i as int])) by {
        assert(lv[i as int] == ls@[i as int]@);
    }
    let d = dedup_log_lines(&ls, similar, false);
    assert(views(d@).len() == d@.len());
    proof {
        lemma_select_flags_len(lv, Seq::new(ls@.len(), |i: int| first_occurrence(lv, i)));
        match similar {
            Some(m) => {
                lemma_select_flags_len(lv, sim_kept(lv, m@.map_values(|row: Vec<bool>| row@), false, ls@.len()));
            },
            None => {},
        }
    }
    let mut text = join_lines(&d);
    if similar.is_some() && d.len() < ls.len() {
        text.push('\n');
        push_str(&mut text, "[");
        push_decimal(&mut text, ls.len() - d.len());
        push_str(&mut text, " duplicate lines collapsed by semantic dedup]");
    }
    string_of(text.as_slice())
}

fn filter_describe(output: &str) -> (r: String)
    ensures
        r@ == or_original(
            lines(output@).fold_left(
                DescribeState { out: seq![], in_section: false, count: 0, in_ann: false },
                |st: DescribeState, l: Seq<char>| describe_step(st, l),
            ).out,
            output@,
        ),
{
    let ls = output_lines(output);
    let ghost lv = views(ls@);
    let ghost f = |st: DescribeState, l: Seq<char>| describe_step(st, l);
    let ghost init = DescribeState { out: seq![], in_section: false, count: 0, in_ann: false };
    let mut out = no_lines();
    let mut in_section = false;
    let mut count: usize = 0;
    let mut in_ann = false;
    let mut i: usize = 0;
    while i < ls.len()
        invariant
            i <= ls.len(),
            lv == views(ls@),
            f == (|st: DescribeState, l: Seq<char>| describe_step(st, l)),
            init == (DescribeState { out: seq![], in_section: false, count: 0, in_ann: false }),
            count <= i,
            lv.take(i as int).fold_left(init, f) == (DescribeState {
                out: views(out@),
                in_section,
                count: count as nat,
                in_ann,
            }),
        decreases ls.len() - i,
    {
        proof {
            lemma_fold_take(lv, init, f, i as int);
        }
        assert(lv[i as int] == ls@[i as int]@);
        let line = ls[i].as_slice();
        let t = trim_of(line);
        let ts = t.as_slice();
        let ind = starts_lit(line, " ") || starts_lit(line, "\t");
        if starts_lit(ts, "Annotations:") || starts_lit(ts, "Labels:") {
            push_line(&mut out, line_at(&ls, i));
            in_ann = true;
            count = 0;
        } else if in_ann && ind {
            count += 1;
            if count <= 5 {
                push_line(&mut out, line_at(&ls, i));
            } else if count == 6 {
                let mut m: Vec<char> = Vec::new();
                push_str(&mut m, "[");
                push_decimal(&mut m, count);
                push_str(&mut m, " annotations]");
                push_line(&mut out, m);
            }
        } else {
            in_ann = false;
            let is_section = starts_lit(ts, "Name:") || starts_lit(ts, "Status:") || starts_lit(
                ts,
                "Conditions:",
            ) || starts_lit(ts, "Events:");
            if is_section {
                in_section = true;
            } else if t.len() > 0 && !ind {
                in_section = false;
            }
            if in_section || is_section {
                push_line(&mut out, line_at(&ls, i));
            }
        }
        i += 1;
    }
    assert(lv.take(ls.len() as int) =~= lv);
    joined_or(&out, output)
}

fn change_line(l: &[char]) -> (b: bool)
    ensures
        b == change_keep(l@),
{
    let t = trim_of(l);
    let ts = t.as_slice();
    t.len() > 0 && (contains_lit(ts, "created") || contains_lit(ts, "deleted") || contains_lit(
        ts,
        "configured",
    ) || contains_lit(ts, "unchanged") || contains_lit(ts, "error") || contains_lit(ts, "Error")
        || starts_lit(ts, "deployment.") || starts_lit(ts, "service.") || starts_lit(ts, "pod/"))
}

fn filter_changes(output: &str) -> (r: String)
    ensures
        r@ == or_original(lines(output@).filter(|l: Seq<char>| change_keep(l)), output@),
{
    let ls = output_lines(output);
    let ghost lv = views(ls@);
    let ghost p = |l: Seq<char>| change_keep(l);
    let mut out = no_lines();
    let mut i: usize = 0;
    while i < ls.len()
        invariant
            i <= ls.len(),
            lv == views(ls@),
            p == (|l: Seq<char>| change_keep(l)),
            views(out@) == lv.take(i as int).filter(p),
        decreases ls.len() - i,
    {
        proof {
            lemma_filter_take(lv, p, i as int);
        }
        assert(lv[i as int] == ls@[i as int]@);
        if change_line(ls[i].as_slice()) {
            push_line(&mut out, line_at(&ls, i));
        }
        i += 1;
    }
    assert(lv.take(ls.len() as int) =~= lv);
    joined_or(&out, output)
}

/// Filter `kubectl` output given the log similarity flags (or `None`),
/// `similar[i][j]` saying line `i` is too similar to line `j`.
pub fn filter_kubectl_with(output: &str, args: &[String], similar: Option<&Vec<Vec<bool>>>) -> (r:
    String)
    requires
        similar matches Some(m) ==> (m@.len() == lines(output@).len() && forall|i: int|
            0 <= i < m@.len() ==> #[trigger] m@[i]@.len() == lines(output@).len()),
    ensures
        r@ == kubectl_filter_spec(
            output@,
            args@,
            match similar {
                Some(m) => Some(m@.map_values(|row: Vec<bool>| row@)),
                None => None,
            },
        ),
{
    let sub = arg_chars(args, 1);
    let s = sub.as_slice();
    if eq_lit(s, "get") {
        let cols: Vec<usize> = vec![0, 1, 4];
        let r = compact_table(output, cols.as_slice());
        assert(cols@ =~= seq![0usize, 1usize, 4usize]);
        r
    } else if eq_lit(s, "logs") {
        filter_logs(output, similar)
    } else if eq_lit(s, "describe") {
        filter_describe(output)
    } else if eq_lit(s, "apply") || eq_lit(s, "delete") || eq_lit(s, "rollout") {
        filter_changes(output)
    } else {
        output.to_owned()
    }
}

/// `kubectl logs` gets `--tail=200` at the end unless a `--tail` option is
/// given.
pub open spec fn kubectl_args(args: Seq<String>) -> Seq<Seq<char>> {
    if arg(args, 1) == "logs"@ && !has_arg_prefix(args, "--tail"@) {
        strs(args).push("--tail=200"@)
    } else {
        strs(args)
    }
}

/// Rewriting the arguments a second time changes nothing.
pub proof fn lemma_kubectl_args_once(args: Seq<String>, r: Seq<String>)
    requires
        strs(r) == kubectl_args(args),
    ensures
        kubectl_args(r) == strs(r),
{
    if arg(args, 1) == "logs"@ && !has_arg_prefix(args, "--tail"@) {
        assert(kubectl_args(args) =~= strs(args) + seq!["--tail=200"@]);
        lemma_strs_extend(args, r, seq!["--tail=200"@]);
        assert(r[args.len() as int + 0]@ == "--tail=200"@);
        lemma_arg_at(r, args.len() as int);
        reveal_strlit("--tail=200");
        reveal_strlit("--tail");
        assert(starts_with("--tail=200"@, "--tail"@)) by {
            assert("--tail=200"@.subrange(0, 6) =~= "--tail"@);
        }
    } else {
        lemma_same_args(r, args, "--tail"@);
        assert(r.len() == strs(r).len() && args.len() == strs(args).len());
        if 1 < args.len() {
            assert(strs(r)[1] == r[1]@ && strs(args)[1] == args[1]@);
        }
    }
}

impl Handler for KubectlHandler {
    /// `kubectl logs` gets `--tail=200` at the end unless a `--tail` option
    /// is given.
    fn rewrite_args(&self, args: &[String]) -> (r: Vec<String>)
        ensures
            strs(r@) == kubectl_args(args@),
    {
        let sub = arg_chars(args, 1);
        if eq_lit(sub.as_slice(), "logs") && !any_arg_starts(args, "--tail") {
            let mut out = clone_args(args);
            out.push("--tail=200".to_owned());
            assert(strs(out@) =~= strs(args@).push("--tail=200"@));
            return out;
        }
        clone_args(args)
    }

    /// Without similarity flags, log deduplication drops exact repeats.
    fn filter(&self, output: &str, args: &[String]) -> (r: String)
        ensures
            r@ == kubectl_filter_spec(output@, args@, None),
    {
        filter_kubectl_with(output, args, None)
    }
}

} // verus!
