//! `pytest`: quiet, short tracebacks, failure blocks and summary.
use vstd::prelude::*;
use super::util::{pytest_spec, test_failures};
use super::{
    any_arg_is, any_arg_starts, clone_args, has_arg, has_arg_prefix, lemma_arg_at, lemma_args_extend,
    lemma_same_args, lemma_strs_extend, strs, Handler,
};
use crate::text::starts_with;

verus! {

pub struct PytestHandler;

/// The flags pytest gets: `-q` unless a verbosity flag is given, and
/// `--tb=short` unless a `--tb` flag is given.
pub open spec fn pytest_args(args: Seq<String>) -> Seq<Seq<char>> {
    let has_verbosity = has_arg(args, "-v"@) || has_arg(args, "-s"@) || has_arg(args, "-q"@);
    let has_tb = has_arg_prefix(args, "--tb"@);
    let a = if !has_verbosity {
        strs(args).push("-q"@)
    } else {
        strs(args)
    };
    if !has_tb {
        a.push("--tb=short"@)
    } else {
        a
    }
}

/// Rewriting the arguments a second time changes nothing: `-q` and
/// `--tb=short` are added at most once.
pub proof fn lemma_pytest_args_once(args: Seq<String>, r: Seq<String>)
    requires
        strs(r) == pytest_args(args),
    ensures
        pytest_args(r) == strs(r),
{
    reveal_strlit("--tb=short");
    reveal_strlit("--tb");
    assert(starts_with("--tb=short"@, "--tb"@)) by {
        assert("--tb=short"@.subrange(0, 4) =~= "--tb"@);
    }
    let v = has_arg(args, "-v"@) || has_arg(args, "-s"@) || has_arg(args, "-q"@);
    let tb = has_arg_prefix(args, "--tb"@);
    let more: Seq<Seq<char>> = if !v && !tb {
        seq!["-q"@, "--tb=short"@]
    } else if !v {
        seq!["-q"@]
    } else if !tb {
        seq!["--tb=short"@]
    } else {
        seq![]
    };
    assert(pytest_args(args) =~= strs(args) + more);
    lemma_strs_extend(args, r, more);
    lemma_args_extend(args, r, "-v"@);
    lemma_args_extend(args, r, "-s"@);
    lemma_args_extend(args, r, "-q"@);
    lemma_args_extend(args, r, "--tb"@);
    if more.len() > 0 {
        assert(r[args.len() as int + 0]@ == more[0]);
        lemma_arg_at(r, args.len() as int);
    }
    if more.len() > 1 {
        assert(r[args.len() as int + 1]@ == more[1]);
        lemma_arg_at(r, args.len() as int + 1);
    }
}

impl Handler for PytestHandler {
    fn rewrite_args(&self, args: &[String]) -> (r: Vec<String>)
        ensures
            strs(r@) == pytest_args(args@),
    {
        let has_verbosity = any_arg_is(args, "-v") || any_arg_is(args, "-s") || any_arg_is(
            args,
            "-q",
        );
        let has_tb = any_arg_starts(args, "--tb") || any_arg_is(args, "--tb");
        proof {
            if has_arg(args@, "--tb"@) {
                let k = choose|k: int| 0 <= k < args@.len() && #[trigger] args@[k]@ == "--tb"@;
                assert(args@[k]@.subrange(0, "--tb"@.len() as int) =~= args@[k]@);
            }
        }
        let mut out = clone_args(args);
        if !has_verbosity {
            out.push("-q".to_owned());
        }
        let ghost mid = strs(out@);
        if !has_tb {
            out.push("--tb=short".to_owned());
        }
        assert(strs(out@) =~= pytest_args(args@));
        out
    }

    fn filter(&self, output: &str, args: &[String]) -> (r: String)
        ensures
            r@ == pytest_spec(output@),
    {
        test_failures(output, "pytest")
    }
}

} // verus!
