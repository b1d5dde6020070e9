//! `jest`: failure blocks and summary.
use vstd::prelude::*;
use super::util::{jest_spec, test_failures};
use super::{clone_args, Handler};

verus! {

pub struct JestHandler;

impl Handler for JestHandler {
    fn rewrite_args(&self, args: &[String]) -> (r: Vec<String>)
        ensures
            r@ == args@,
    {
        clone_args(args)
    }

    fn filter(&self, output: &str, args: &[String]) -> (r: String)
        ensures
            r@ == jest_spec(output@),
    {
        proof {
            reveal_strlit("jest");
            reveal_strlit("pytest");
            assert("jest"@.len() != "pytest"@.len());
        }
        test_failures(output, "jest")
    }
}

} // verus!
