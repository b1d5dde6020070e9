use ccr::handlers::cargo::CargoHandler;
use ccr::handlers::eslint::EslintHandler;
use ccr::handlers::gh::GhHandler;
use ccr::handlers::grep::GrepHandler;
use ccr::handlers::kubectl::{filter_kubectl_with, KubectlHandler};
use ccr::handlers::pip::PipHandler;
use ccr::handlers::psql::PsqlHandler;
use ccr::handlers::tsc::{summarize_tsc, TscHandler};
use ccr::handlers::Handler;

fn args(v: &[&str]) -> Vec<String> {
    v.iter().map(|s| s.to_string()).collect()
}

// ── eslint ───────────────────────────────────────────────────────────────────

#[test]
fn eslint_keeps_files_with_problems_and_summary() {
    let output = "/src/a.js\n  1:1  error  'x' is not defined  no-undef\n  2:1  warning  Unexpected console  no-console\n\n/src/b.js\n\n\u{2716} 2 problems (1 error, 1 warning)\n";
    assert_eq!(
        EslintHandler.filter(output, &[]),
        "/src/a.js\n  1:1  error  'x' is not defined  no-undef\n  2:1  warning  Unexpected console  no-console\n\u{2716} 2 problems (1 error, 1 warning)"
    );
}

#[test]
fn eslint_clean_run() {
    assert_eq!(EslintHandler.filter("\n0 problems\n", &[]), "All files clean");
    assert_eq!(EslintHandler.filter("", &[]), "All files clean");
}

#[test]
fn eslint_caps_problem_lines() {
    let mut output = String::from("/src/a.js\n");
    for i in 0..35 {
        output.push_str(&format!("  {}:1  error  bad  rule\n", i));
    }
    let result = EslintHandler.filter(&output, &[]);
    let lines: Vec<&str> = result.lines().collect();
    assert_eq!(lines.len(), 1 + 20 + 1);
    assert_eq!(lines[20], "  19:1  error  bad  rule");
    assert_eq!(lines[21], "[+15 more errors]");
}

// ── psql ─────────────────────────────────────────────────────────────────────

#[test]
fn psql_errors_only() {
    let output = "ERROR:  relation \"x\" does not exist\nLINE 1: select\nHINT:  try";
    assert_eq!(PsqlHandler.filter(output, &[]), "ERROR:  relation \"x\" does not exist\nHINT:  try");
}

#[test]
fn psql_table_without_borders() {
    let output = " id | name \n----+------\n  1 | a\n(1 row)\n";
    assert_eq!(PsqlHandler.filter(output, &[]), "id | name\n1 | a\n(1 row)");
}

#[test]
fn psql_caps_rows() {
    let mut output = String::from(" n \n---\n");
    for i in 0..24 {
        output.push_str(&format!(" {} \n", i));
    }
    output.push_str("(24 rows)\n");
    let result = PsqlHandler.filter(&output, &[]);
    let lines: Vec<&str> = result.lines().collect();
    assert_eq!(lines.len(), 1 + 20 + 2);
    assert_eq!(lines[21], "[+4 more rows]");
    assert_eq!(lines[22], "(24 rows)");
}

#[test]
fn psql_exactly_twenty_rows_not_capped() {
    let output = String::from(" id | name \n----+------\n")
        + &(1..=20).map(|i| format!("  {i} | n{i}\n")).collect::<String>()
        + "(20 rows)";
    let expected = String::from("id | name\n")
        + &(1..=20).map(|i| format!("{i} | n{i}\n")).collect::<String>()
        + "(20 rows)";
    assert_eq!(PsqlHandler.filter(&output, &[]), expected);
}

// ── pip ──────────────────────────────────────────────────────────────────────

#[test]
fn pip_install_counts_packages() {
    let output = "Collecting foo\nSuccessfully installed foo-1.0 bar-2.0\nWARNING: x\n";
    assert_eq!(
        PipHandler.filter(output, &args(&["pip", "install", "foo"])),
        "WARNING: x\n[pip install complete \u{2014} 2 packages]"
    );
}

#[test]
fn pip_already_satisfied() {
    let output = "Requirement already satisfied: foo\n";
    assert_eq!(
        PipHandler.filter(output, &args(&["pip", "install", "foo"])),
        "Requirement already satisfied: foo"
    );
}

#[test]
fn pip_freeze_and_other_subcommands() {
    let output = "a==1\nb==2\n";
    assert_eq!(PipHandler.filter(output, &args(&["pip", "freeze"])), output);
    assert_eq!(PipHandler.filter("Package Version\nfoo 1.0\n\n", &args(&["pip", "list"])), "foo 1.0");
    assert_eq!(PipHandler.filter("\n", &args(&["pip", "list"])), "\n");
}

// ── grep ─────────────────────────────────────────────────────────────────────

#[test]
fn grep_groups_by_file_in_order() {
    let output = "src/b.rs:3:let x\nsrc/a.rs:10:fn main\nsrc/a.rs:20:return\n";
    assert_eq!(
        GrepHandler.filter(output, &[]),
        "src/a.rs:\n  fn main\n  return\nsrc/b.rs:\n  let x"
    );
}

#[test]
fn grep_without_files_and_long_lines() {
    assert_eq!(GrepHandler.filter("just text\nmore text", &[]), "just text\nmore text");
    let long = format!("f:{}", "x".repeat(130));
    let result = GrepHandler.filter(&long, &[]);
    assert_eq!(result, format!("f:\n  {}\u{2026}", "x".repeat(119)));
}

#[test]
fn grep_limits_matches() {
    let mut output = String::new();
    for i in 0..55 {
        output.push_str(&format!("a.rs:{}:m{}\n", i, i));
    }
    let result = GrepHandler.filter(&output, &[]);
    let lines: Vec<&str> = result.lines().collect();
    assert_eq!(lines.len(), 1 + 25 + 1 + 1);
    assert_eq!(lines[25], "  m24");
    assert_eq!(lines[26], "  [+30 more matches]");
    assert_eq!(lines[27], "[+30 more in 1 files]");

    let mut many = String::new();
    for f in ["a", "b", "c"] {
        for i in 0..20 {
            many.push_str(&format!("{}.rs:{}:m{}\n", f, i, i));
        }
    }
    let result = GrepHandler.filter(&many, &[]);
    let lines: Vec<&str> = result.lines().collect();
    assert_eq!(lines.len(), 3 + 50 + 1);
    assert_eq!(lines[42], "c.rs:");
    assert_eq!(lines[52], "  m9");
    assert_eq!(lines[53], "[+10 more in 3 files]");
}

#[test]
fn grep_caps_each_file_at_twenty_five() {
    let output = (1..=30).map(|i| format!("src/a.rs:{i}:match {i}")).collect::<Vec<_>>().join("\n");
    let mut expected = vec!["src/a.rs:".to_string()];
    for i in 1..=25 {
        expected.push(format!("  match {i}"));
    }
    expected.push("  [+5 more matches]".to_string());
    assert_eq!(GrepHandler.filter(&output, &[]), expected.join("\n"));
}

// ── tsc ──────────────────────────────────────────────────────────────────────

#[test]
fn tsc_groups_diagnostics() {
    let output = "src/a.ts(1,2): error TS2304: Cannot find name 'x'.\nsrc/a.ts(3,4): warning TS6133: unused\nsrc/b.ts(5,6): error TS1005: ';' expected.\n";
    assert_eq!(
        TscHandler.filter(output, &[]),
        "src/a.ts\n  L1: error TS2304: Cannot find name 'x'.\n  L3: warning TS6133: unused\nsrc/b.ts\n  L5: error TS1005: ';' expected.\n[2 errors, 1 warnings]"
    );
}

#[test]
fn tsc_groups_interleaved_files_once() {
    let output = "a.ts(1,1): error TS1: x\nb.ts(2,1): error TS2: y\na.ts(3,1): error TS3: z";
    assert_eq!(
        TscHandler.filter(output, &[]),
        "a.ts\n  L1: error TS1: x\n  L3: error TS3: z\nb.ts\n  L2: error TS2: y\n[3 errors, 0 warnings]"
    );
}

#[test]
fn tsc_clean_and_unrecognised() {
    assert_eq!(TscHandler.filter("Found 0 errors. Watching.", &[]), "Build OK");
    assert_eq!(TscHandler.filter("nothing here", &[]), "nothing here");
}

#[test]
fn tsc_report_from_given_captures() {
    let caps: Vec<Option<Vec<String>>> = vec![
        Some(args(&["whole", "x.ts", "7", "warning", "TS1: m"])),
        None,
        Some(args(&["whole", "x.ts", "9", "error", "TS2: n"])),
    ];
    assert_eq!(summarize_tsc("a\nb\nc", &caps), "x.ts\n  L7: warning TS1: m\n  L9: error TS2: n\n[1 errors, 1 warnings]");
}

// ── gh ───────────────────────────────────────────────────────────────────────

#[test]
fn gh_pr_list_rows() {
    let output = "12\tFix bug\tOPEN\talice\t2024\n\n";
    assert_eq!(GhHandler.filter(output, &args(&["gh", "pr", "list"])), "#12 Fix bug [OPEN] @alice");
    let title = "t".repeat(70);
    let output = format!("1\t{}\tOPEN\tbob", title);
    assert_eq!(
        GhHandler.filter(&output, &args(&["gh", "pr", "list"])),
        format!("#1 {}\u{2026} [OPEN] @bob", "t".repeat(60))
    );
}

#[test]
fn gh_issue_list_and_checks() {
    assert_eq!(GhHandler.filter("7\tCrash\tbug", &args(&["gh", "issue", "list"])), "#7 Crash [bug] @");
    let checks = "\u{2713} build\t1m\nlint\tfail\t2m\n";
    assert_eq!(
        GhHandler.filter(checks, &args(&["gh", "pr", "checks"])),
        "\u{2713} 1 passed, \u{2717} 1 failed\nlint"
    );
}

#[test]
fn gh_view_runs_and_clone() {
    let view = "title: T\nstate: OPEN\nnoise\n--\nbody 1\nbody 2\n";
    assert_eq!(GhHandler.filter(view, &args(&["gh", "pr", "view"])), "title: T\nstate: OPEN\nbody 1\nbody 2");
    let runs = "build completed success\nnothing\n";
    assert_eq!(GhHandler.filter(runs, &args(&["gh", "run", "list"])), "build completed success");
    assert_eq!(GhHandler.filter("Cloning into 'x'...\ndone.\n\n", &args(&["gh", "repo", "clone"])), "done.");
}

// ── kubectl ──────────────────────────────────────────────────────────────────

#[test]
fn kubectl_get_and_rewrite() {
    let output = "NAME READY STATUS RESTARTS AGE\npod-a 1/1 Running 0 5m";
    assert_eq!(KubectlHandler.filter(output, &args(&["kubectl", "get", "pods"])), "NAME  READY  AGE\npod-a  1/1  5m");
    let out = KubectlHandler.rewrite_args(&args(&["kubectl", "logs", "pod-a"]));
    assert_eq!(out, args(&["kubectl", "logs", "pod-a", "--tail=200"]));
    let out = KubectlHandler.rewrite_args(&args(&["kubectl", "logs", "pod-a", "--tail=5"]));
    assert_eq!(out, args(&["kubectl", "logs", "pod-a", "--tail=5"]));
}

#[test]
fn kubectl_describe_sections() {
    let output = "Name: x\nNamespace: y\nLabels: a=b\n  c=d\nStatus: Running\n  detail\nOther: z\n";
    assert_eq!(
        KubectlHandler.filter(output, &args(&["kubectl", "describe", "pod"])),
        "Name: x\nLabels: a=b\n  c=d\nStatus: Running\n  detail"
    );
}

#[test]
fn kubectl_changes_and_logs() {
    let out = KubectlHandler.filter("deployment.apps/x configured\nnoise\n", &args(&["kubectl", "apply"]));
    assert_eq!(out, "deployment.apps/x configured");
    assert_eq!(KubectlHandler.filter("a\nb\na\n", &args(&["kubectl", "logs"])), "a\nb");
    let sim = vec![vec![false, false, false], vec![true, false, false], vec![true, true, false]];
    let out = filter_kubectl_with("x1\nx2\nerror y\n", &args(&["kubectl", "logs"]), Some(&sim));
    assert_eq!(out, "x1\nerror y\n[1 duplicate lines collapsed by semantic dedup]");
}

// ── cargo ────────────────────────────────────────────────────────────────────

#[test]
fn cargo_build_messages() {
    let output = "{\"reason\":\"compiler-message\",\"message\":{\"level\":\"warning\",\"message\":\"unused\",\"spans\":[{\"file_name\":\"src/main.rs\",\"line_start\":3}]}}\n{\"reason\":\"build-finished\",\"success\":true}\n";
    assert_eq!(
        CargoHandler.filter(output, &args(&["cargo", "build"])),
        "[1 warnings]\n  warning: unused [src/main.rs:3]"
    );
    assert_eq!(
        CargoHandler.filter("{\"reason\":\"build-finished\",\"success\":true}", &args(&["cargo", "check"])),
        "Build OK"
    );
    assert_eq!(
        CargoHandler.filter("error: could not compile\n", &args(&["cargo", "build"])),
        "error: could not compile"
    );
}

#[test]
fn cargo_test_failures() {
    let output = "running 2 tests\ntest a::b ... ok\ntest c::d ... FAILED\n\nfailures:\n\n---- c::d stdout ----\npanic\n\nfailures:\n    c::d\n\ntest result: FAILED. 1 passed; 1 failed\n";
    assert_eq!(
        CargoHandler.filter(output, &args(&["cargo", "test"])),
        "FAILED: c::d\n\n---- c::d stdout ----\npanic\n    c::d\ntest result: FAILED. 1 passed; 1 failed"
    );
    assert_eq!(
        CargoHandler.filter("running 3 tests\ntest result: ok. 3 passed\n", &args(&["cargo", "test"])),
        "test result: ok. 3 passed"
    );
}

#[test]
fn cargo_rewrite_args() {
    let out = CargoHandler.rewrite_args(&args(&["cargo", "build"]));
    assert_eq!(out, args(&["cargo", "build", "--message-format", "json"]));
    let out = CargoHandler.rewrite_args(&args(&["cargo", "build", "--message-format=short"]));
    assert_eq!(out, args(&["cargo", "build", "--message-format=short"]));
    let out = CargoHandler.rewrite_args(&args(&["cargo", "test"]));
    assert_eq!(out, args(&["cargo", "test"]));
}
