//! Per-command handlers: argument rewriting and output compaction.
use vstd::prelude::*;
use crate::text::{chars_of, eq_lit, starts_with, starts_lit};

pub mod aws;
pub mod cargo;
pub mod diff;
pub mod docker;
pub mod env;
pub mod eslint;
pub mod jest;
pub mod kubectl;
pub mod ls;
pub mod pip;
pub mod psql;
pub mod pytest;
pub mod python;
pub mod rake;
pub mod read;
pub mod rspec;
pub mod rubocop;
pub mod tree;
pub mod tsc;
pub mod vitest;
pub mod gh;
pub mod git;
pub mod grep;
pub mod util;

verus! {

/// The views of a list of strings.
pub open spec fn strs(v: Seq<String>) -> Seq<Seq<char>> {
    v.map_values(|s: String| s@)
}

/// Argument `i`, or the empty text when there is none.
pub open spec fn arg(args: Seq<String>, i: int) -> Seq<char> {
    if 0 <= i < args.len() {
        args[i]@
    } else {
        seq![]
    }
}

/// Some argument equals `a`.
pub open spec fn has_arg(args: Seq<String>, a: Seq<char>) -> bool {
    exists|k: int| 0 <= k < args.len() && #[trigger] args[k]@ == a
}

/// Some argument starts with `p`.
pub open spec fn has_arg_prefix(args: Seq<String>, p: Seq<char>) -> bool {
    exists|k: int| 0 <= k < args.len() && starts_with(#[trigger] args[k]@, p)
}

/// Argument lists with the same texts have the same arguments.
pub proof fn lemma_same_args(a: Seq<String>, b: Seq<String>, x: Seq<char>)
    requires
        strs(a) == strs(b),
    ensures
        has_arg(a, x) == has_arg(b, x),
        has_arg_prefix(a, x) == has_arg_prefix(b, x),
{
    assert(a.len() == strs(a).len() && b.len() == strs(b).len());
    assert forall|k: int| 0 <= k < a.len() implies a[k]@ == b[k]@ by {
        assert(strs(a)[k] == a[k]@);
        assert(strs(b)[k] == b[k]@);
    }
    if has_arg(a, x) {
        let k = choose|k: int| 0 <= k < a.len() && #[trigger] a[k]@ == x;
        assert(b[k]@ == x);
    }
    if has_arg(b, x) {
        let k = choose|k: int| 0 <= k < b.len() && #[trigger] b[k]@ == x;
        assert(a[k]@ == x);
    }
    if has_arg_prefix(a, x) {
        let k = choose|k: int| 0 <= k < a.len() && starts_with(#[trigger] a[k]@, x);
        assert(b[k]@ == a[k]@);
    }
    if has_arg_prefix(b, x) {
        let k = choose|k: int| 0 <= k < b.len() && starts_with(#[trigger] b[k]@, x);
        assert(a[k]@ == b[k]@);
    }
}

/// A longer argument list that starts with the same texts holds every
/// argument of the shorter one.
pub proof fn lemma_args_extend(a: Seq<String>, r: Seq<String>, x: Seq<char>)
    requires
        a.len() <= r.len(),
        forall|k: int| 0 <= k < a.len() ==> #[trigger] r[k]@ == a[k]@,
    ensures
        has_arg(a, x) ==> has_arg(r, x),
        has_arg_prefix(a, x) ==> has_arg_prefix(r, x),
{
    if has_arg(a, x) {
        let k = choose|k: int| 0 <= k < a.len() && #[trigger] a[k]@ == x;
        assert(r[k]@ == x);
    }
    if has_arg_prefix(a, x) {
        let k = choose|k: int| 0 <= k < a.len() && starts_with(#[trigger] a[k]@, x);
        assert(r[k]@ == a[k]@);
    }
}

/// The argument at `k` is held, and so is each of its prefixes.
pub proof fn lemma_arg_at(r: Seq<String>, k: int)
    requires
        0 <= k < r.len(),
    ensures
        has_arg(r, r[k]@),
        forall|p: Seq<char>| starts_with(r[k]@, p) ==> has_arg_prefix(r, p),
{
}

/// The texts of a list that equal `strs(a)` followed by more texts.
pub proof fn lemma_strs_extend(a: Seq<String>, r: Seq<String>, more: Seq<Seq<char>>)
    requires
        strs(r) == strs(a) + more,
    ensures
        r.len() == a.len() + more.len(),
        forall|k: int| 0 <= k < a.len() ==> #[trigger] r[k]@ == a[k]@,
        forall|k: int| 0 <= k < more.len() ==> #[trigger] r[a.len() + k]@ == more[k],
{
    assert(strs(r).len() == r.len() && strs(a).len() == a.len());
    assert forall|k: int| 0 <= k < a.len() implies #[trigger] r[k]@ == a[k]@ by {
        assert(strs(r)[k] == r[k]@);
        assert(strs(a)[k] == a[k]@);
    }
    assert forall|k: int| 0 <= k < more.len() implies #[trigger] r[a.len() + k]@ == more[k] by {
        assert(strs(r)[a.len() + k] == r[a.len() + k]@);
    }
}

/// A specialised handler for a known command: it may inject extra flags
/// (`rewrite_args`) and compact the output (`filter`).
pub trait Handler {
    /// Optionally rewrite the argument list before execution.
    fn rewrite_args(&self, args: &[String]) -> (r: Vec<String>);

    /// Filter the combined stdout+stderr output into a compact form.
    fn filter(&self, output: &str, args: &[String]) -> (r: String);
}

/// Argument `i` as characters.
pub fn arg_chars(args: &[String], i: usize) -> (r: Vec<char>)
    ensures
        r@ == arg(args@, i as int),
{
    if i < args.len() {
        chars_of(args[i].as_str())
    } else {
        Vec::new()
    }
}

/// Whether some argument equals the literal.
pub fn any_arg_is(args: &[String], a: &str) -> (b: bool)
    ensures
        b == has_arg(args@, a@),
{
    let mut k: usize = 0;
    while k < args.len()
        invariant
            k <= args.len(),
            forall|j: int| 0 <= j < k ==> args@[j]@ != a@,
        decreases args.len() - k,
    {
        let v = chars_of(args[k].as_str());
        if eq_lit(v.as_slice(), a) {
            return true;
        }
        k += 1;
    }
    false
}

/// Whether some argument starts with the literal.
pub fn any_arg_starts(args: &[String], p: &str) -> (b: bool)
    ensures
        b == has_arg_prefix(args@, p@),
{
    let mut k: usize = 0;
    while k < args.len()
        invariant
            k <= args.len(),
            forall|j: int| 0 <= j < k ==> !starts_with(#[trigger] args@[j]@, p@),
        decreases args.len() - k,
    {
        let v = chars_of(args[k].as_str());
        if starts_lit(v.as_slice(), p) {
            return true;
        }
        k += 1;
    }
    false
}

/// A copy of the argument list.
pub fn clone_args(args: &[String]) -> (r: Vec<String>)
    ensures
        r@ == args@,
{
    let mut r: Vec<String> = Vec::new();
    let mut k: usize = 0;
    while k < args.len()
        invariant
            k <= args.len(),
            r@ == args@.take(k as int),
        decreases args.len() - k,
    {
        r.push(args[k].clone());
        assert(r@ =~= args@.take(k + 1));
        k += 1;
    }
    assert(args@.take(args.len() as int) =~= args@);
    r
}

/// The commands that have a handler.
pub enum HandlerKind {
    Cargo,
    Curl,
    Git,
    Docker,
    Npm,
    Ls,
    Read,
    Grep,
    Find,
    Tsc,
    Vitest,
    Jest,
    Eslint,
    Pytest,
    Pip,
    Python,
    Kubectl,
    Gh,
    Terraform,
    Aws,
    Make,
    Psql,
    Tree,
    Diff,
    Jq,
    Env,
    Rspec,
    Rubocop,
    Rake,
}

/// The handler registered for a command name.
pub open spec fn handler_for(cmd: Seq<char>) -> Option<HandlerKind> {
    if cmd == "cargo"@ {
        Some(HandlerKind::Cargo)
    } else if cmd == "curl"@ {
        Some(HandlerKind::Curl)
    } else if cmd == "git"@ {
        Some(HandlerKind::Git)
    } else if cmd == "docker"@ || cmd == "docker-compose"@ {
        Some(HandlerKind::Docker)
    } else if cmd == "npm"@ || cmd == "pnpm"@ || cmd == "yarn"@ {
        Some(HandlerKind::Npm)
    } else if cmd == "ls"@ {
        Some(HandlerKind::Ls)
    } else if cmd == "cat"@ {
        Some(HandlerKind::Read)
    } else if cmd == "grep"@ || cmd == "rg"@ {
        Some(HandlerKind::Grep)
    } else if cmd == "find"@ {
        Some(HandlerKind::Find)
    } else if cmd == "tsc"@ {
        Some(HandlerKind::Tsc)
    } else if cmd == "vitest"@ {
        Some(HandlerKind::Vitest)
    } else if cmd == "jest"@ || cmd == "bun"@ || cmd == "deno"@ {
        Some(HandlerKind::Jest)
    } else if cmd == "eslint"@ {
        Some(HandlerKind::Eslint)
    } else if cmd == "pytest"@ {
        Some(HandlerKind::Pytest)
    } else if cmd == "pip"@ || cmd == "pip3"@ || cmd == "uv"@ || cmd == "poetry"@ || cmd == "pdm"@
        || cmd == "conda"@ {
        Some(HandlerKind::Pip)
    } else if cmd == "python"@ || cmd == "python3"@ {
        Some(HandlerKind::Python)
    } else if cmd == "kubectl"@ || cmd == "k"@ {
        Some(HandlerKind::Kubectl)
    } else if cmd == "gh"@ {
        Some(HandlerKind::Gh)
    } else if cmd == "terraform"@ || cmd == "tofu"@ {
        Some(HandlerKind::Terraform)
    } else if cmd == "aws"@ || cmd == "gcloud"@ || cmd == "az"@ {
        Some(HandlerKind::Aws)
    } else if cmd == "make"@ || cmd == "gmake"@ {
        Some(HandlerKind::Make)
    } else if cmd == "psql"@ || cmd == "pgcli"@ {
        Some(HandlerKind::Psql)
    } else if cmd == "tree"@ {
        Some(HandlerKind::Tree)
    } else if cmd == "diff"@ {
        Some(HandlerKind::Diff)
    } else if cmd == "jq"@ {
        Some(HandlerKind::Jq)
    } else if cmd == "env"@ || cmd == "printenv"@ {
        Some(HandlerKind::Env)
    } else if cmd == "rspec"@ {
        Some(HandlerKind::Rspec)
    } else if cmd == "rubocop"@ {
        Some(HandlerKind::Rubocop)
    } else if cmd == "rake"@ || cmd == "bundle"@ {
        Some(HandlerKind::Rake)
    } else {
        None
    }
}

pub fn handler_for_chars(c: &[char]) -> (r: Option<HandlerKind>)
    ensures
        r == handler_for(c@),
{
    if eq_lit(c, "cargo") {
        Some(HandlerKind::Cargo)
    } else if eq_lit(c, "curl") {
        Some(HandlerKind::Curl)
    } else if eq_lit(c, "git") {
        Some(HandlerKind::Git)
    } else if eq_lit(c, "docker") || eq_lit(c, "docker-compose") {
        Some(HandlerKind::Docker)
    } else if eq_lit(c, "npm") || eq_lit(c, "pnpm") || eq_lit(c, "yarn") {
        Some(HandlerKind::Npm)
    } else if eq_lit(c, "ls") {
        Some(HandlerKind::Ls)
    } else if eq_lit(c, "cat") {
        Some(HandlerKind::Read)
    } else if eq_lit(c, "grep") || eq_lit(c, "rg") {
        Some(HandlerKind::Grep)
    } else if eq_lit(c, "find") {
        Some(HandlerKind::Find)
    } else if eq_lit(c, "tsc") {
        Some(HandlerKind::Tsc)
    } else if eq_lit(c, "vitest") {
        Some(HandlerKind::Vitest)
    } else if eq_lit(c, "jest") || eq_lit(c, "bun") || eq_lit(c, "deno") {
        Some(HandlerKind::Jest)
    } else if eq_lit(c, "eslint") {
        Some(HandlerKind::Eslint)
    } else if eq_lit(c, "pytest") {
        Some(HandlerKind::Pytest)
    } else if eq_lit(c, "pip") || eq_lit(c, "pip3") || eq_lit(c, "uv") || eq_lit(c, "poetry")
        || eq_lit(c, "pdm") || eq_lit(c, "conda") {
        Some(HandlerKind::Pip)
    } else if eq_lit(c, "python") || eq_lit(c, "python3") {
        Some(HandlerKind::Python)
    } else if eq_lit(c, "kubectl") || eq_lit(c, "k") {
        Some(HandlerKind::Kubectl)
    } else if eq_lit(c, "gh") {
        Some(HandlerKind::Gh)
    } else if eq_lit(c, "terraform") || eq_lit(c, "tofu") {
        Some(HandlerKind::Terraform)
    } else if eq_lit(c, "aws") || eq_lit(c, "gcloud") || eq_lit(c, "az") {
        Some(HandlerKind::Aws)
    } else if eq_lit(c, "make") || eq_lit(c, "gmake") {
        Some(HandlerKind::Make)
    } else if eq_lit(c, "psql") || eq_lit(c, "pgcli") {
        Some(HandlerKind::Psql)
    } else if eq_lit(c, "tree") {
        Some(HandlerKind::Tree)
    } else if eq_lit(c, "diff") {
        Some(HandlerKind::Diff)
    } else if eq_lit(c, "jq") {
        Some(HandlerKind::Jq)
    } else if eq_lit(c, "env") || eq_lit(c, "printenv") {
        Some(HandlerKind::Env)
    } else if eq_lit(c, "rspec") {
        Some(HandlerKind::Rspec)
    } else if eq_lit(c, "rubocop") {
        Some(HandlerKind::Rubocop)
    } else if eq_lit(c, "rake") || eq_lit(c, "bundle") {
        Some(HandlerKind::Rake)
    } else {
        None
    }
}

/// The handler for the given command name, or `None` if the command is
/// unknown.
pub fn get_handler(cmd: &str) -> (r: Option<HandlerKind>)
    ensures
        r == handler_for(cmd@),
{
    let c = chars_of(cmd);
    handler_for_chars(c.as_slice())
}

/// Whether `cmd` has a handler.
pub fn is_known(cmd: &str) -> (b: bool)
    ensures
        b == (handler_for(cmd@) is Some),
{
    get_handler(cmd).is_some()
}

} // verus!
