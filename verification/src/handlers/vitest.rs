//! `vitest`: verbose reporter, failure blocks and summary.
use vstd::prelude::*;
use super::util::{test_failures, vitest_spec};
use super::{any_arg_is, clone_args, has_arg, strs, Handler};

verus! {

pub struct VitestHandler;

impl Handler for VitestHandler {
    /// `--reporter=verbose` is added unless `--reporter` is given.
    fn rewrite_args(&self, args: &[String]) -> (r: Vec<String>)
        ensures
            strs(r@) == if !has_arg(args@, "--reporter"@) {
                strs(args@).push("--reporter=verbose"@)
            } else {
                strs(args@)
            },
    {
        if !any_arg_is(args, "--reporter") {
            let mut out = clone_args(args);
            out.push("--reporter=verbose".to_owned());
            assert(strs(out@) =~= strs(args@).push("--reporter=verbose"@));
            return out;
        }
        clone_args(args)
    }

    fn filter(&self, output: &str, args: &[String]) -> (r: String)
        ensures
            r@ == vitest_spec(output@),
    {
        proof {
            reveal_strlit("vitest");
            reveal_strlit("pytest");
            reveal_strlit("jest");
            assert("vitest"@[0] != "pytest"@[0]);
            assert("vitest"@[0] != "jest"@[0]);
        }
        test_failures(output, "vitest")
    }
}

} // verus!
