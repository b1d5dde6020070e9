use ccr::handlers::docker::{filter_docker_with, DockerHandler};
use ccr::handlers::git::GitHandler;
use ccr::handlers::util::{compact_table, test_failures};
use ccr::handlers::Handler;

fn args(v: &[&str]) -> Vec<String> {
    v.iter().map(|s| s.to_string()).collect()
}

#[test]
fn git_log_gets_oneline_once() {
    let out = GitHandler.rewrite_args(&args(&["git", "log", "-5"]));
    assert_eq!(out, args(&["git", "log", "--oneline", "-5"]));
    let out = GitHandler.rewrite_args(&args(&["git", "log", "--oneline"]));
    assert_eq!(out, args(&["git", "log", "--oneline"]));
    let out = GitHandler.rewrite_args(&args(&["git", "status"]));
    assert_eq!(out, args(&["git", "status"]));
}

#[test]
fn git_status_drops_hints_and_caps() {
    let a = args(&["git", "status"]);
    let out = GitHandler.filter(
        "On branch main\n  (use \"git add\" to stage)\n\tmodified: a.rs\n\nno changes added to commit",
        &a,
    );
    assert_eq!(out, "On branch main\n\tmodified: a.rs");
    let clean = GitHandler.filter("\n\nnothing to commit, working tree clean\n", &a);
    assert_eq!(clean, "nothing to commit, working tree clean");
    let many: Vec<String> = (0..25).map(|i| format!("M f{}.rs", i)).collect();
    let out = GitHandler.filter(&many.join("\n"), &a);
    assert!(out.ends_with("M f19.rs\n[+5 more files]"), "got {}", out);
}

#[test]
fn git_log_caps_at_twenty() {
    let lines: Vec<String> = (0..23).map(|i| format!("abc{} msg", i)).collect();
    let out = GitHandler.filter(&lines.join("\n"), &args(&["git", "log"]));
    assert_eq!(out.lines().count(), 21);
    assert!(out.ends_with("abc19 msg\n[+3 more commits]"));
}

#[test]
fn git_push_drops_progress_noise() {
    let input = "Enumerating objects: 5\nremote: Counting objects: 100%\nWriting objects: 100%\nTo github.com:a/b.git\n   1..2  main -> main";
    let out = GitHandler.filter(input, &args(&["git", "push"]));
    assert_eq!(out, "Enumerating objects: 5\nTo github.com:a/b.git\n   1..2  main -> main");
}

#[test]
fn git_commit_and_diff_and_list() {
    let out = GitHandler.filter(
        "[main 1a2b] fix\n 1 file changed, 2 insertions(+)\nextra",
        &args(&["git", "commit"]),
    );
    assert_eq!(out, "[main 1a2b] fix\n 1 file changed, 2 insertions(+)");
    let out = GitHandler.filter("diff --git a b\n context\n-x\n+y", &args(&["git", "diff"]));
    assert_eq!(out, "diff --git a b\n-x\n+y");
    let out = GitHandler.filter(
        "diff --git a/x b/x\n--- a/x\n+++ b/x\n@@ -1,3 +1,3 @@\n ctx1\n ctx2\n ctx3\n-old\n+new\n ctx4",
        &args(&["git", "diff"]),
    );
    assert_eq!(out, "diff --git a/x b/x\n--- a/x\n+++ b/x\n@@ -1,3 +1,3 @@\n ctx1\n ctx2\n-old\n+new");
    let big: String = (0..210).map(|i| format!("+line {}\n", i)).collect();
    let out = GitHandler.filter(&big, &args(&["git", "diff"]));
    let got: Vec<&str> = out.lines().collect();
    assert_eq!(got.len(), 201);
    assert_eq!(got[199], "+line 199");
    assert_eq!(got[200], "[+10 more lines]");
    let out = GitHandler.filter("  ctx only", &args(&["git", "diff"]));
    assert_eq!(out, "  ctx only");
    let out = GitHandler.filter("* main\n\n  dev\n", &args(&["git", "branch"]));
    assert_eq!(out, "* main\n  dev");
    assert_eq!(GitHandler.filter("x", &args(&["git", "show"])), "x");
}

#[test]
fn docker_logs_tail_injected() {
    let out = DockerHandler.rewrite_args(&args(&["docker", "logs", "web"]));
    assert_eq!(out, args(&["docker", "logs", "--tail", "200", "web"]));
    let out = DockerHandler.rewrite_args(&args(&["docker", "logs", "--tail", "5", "web"]));
    assert_eq!(out, args(&["docker", "logs", "--tail", "5", "web"]));
}

#[test]
fn docker_logs_exact_dedup_without_similarities() {
    let out = DockerHandler.filter("a\nb\na\na\nc", &args(&["docker", "logs", "x"]));
    assert_eq!(out, "a\nb\nc\n[2 duplicate lines collapsed by semantic dedup]");
}

#[test]
fn docker_logs_with_similarity_flags() {
    // Twelve lines: the first five and the last five are always kept. Line 6
    // is similar to line 5 and dropped; line 7 is similar to line 0 but is
    // among the last five; line 5 is similar to nothing kept.
    let lines = [
        "h0", "h1", "h2", "h3", "h4", "start", "start again", "t7", "t8", "t9", "t10", "t11",
    ];
    let input = lines.join("\n");
    let n = lines.len();
    let mut sim = vec![vec![false; n]; n];
    sim[6][5] = true;
    sim[7][0] = true;
    let out = filter_docker_with(&input, &args(&["docker", "logs"]), Some(&sim));
    assert_eq!(
        out,
        "h0\nh1\nh2\nh3\nh4\nstart\nt7\nt8\nt9\nt10\nt11\n[1 duplicate lines collapsed by semantic dedup]"
    );
}

#[test]
fn docker_logs_errors_survive_similarity() {
    let lines = [
        "a0", "a1", "a2", "a3", "a4", "tick", "ERROR tick", "tock", "z0", "z1", "z2", "z3", "z4",
    ];
    let input = lines.join("\n");
    let n = lines.len();
    let mut sim = vec![vec![false; n]; n];
    sim[6][5] = true;
    sim[7][5] = true;
    let out = filter_docker_with(&input, &args(&["docker", "logs"]), Some(&sim));
    assert_eq!(
        out,
        "a0\na1\na2\na3\na4\ntick\nERROR tick\nz0\nz1\nz2\nz3\nz4\n[1 duplicate lines collapsed by semantic dedup]"
    );
}

#[test]
fn docker_ps_and_images() {
    let ps = "CONTAINER ID   IMAGE   COMMAND   CREATED   STATUS   PORTS   NAMES\nabc123   nginx   \"nginx\"   2h   Up   0.0.0.0:80->80/tcp   web";
    let out = DockerHandler.filter(ps, &args(&["docker", "ps"]));
    assert_eq!(
        out,
        "CONTAINER ID   IMAGE   COMMAND   CREATED   STATUS   PORTS   NAMES\nweb [Up] web"
    );
    let images = "REPOSITORY TAG IMAGE ID CREATED SIZE\nnginx latest 605c77e624dd 2 weeks ago 141MB\nshort row";
    let out = DockerHandler.filter(images, &args(&["docker", "images"]));
    assert_eq!(
        out,
        "REPOSITORY           TAG       SIZE\nnginx                latest    141MB\nshort row"
    );
    let out = DockerHandler.filter(images, &args(&["docker", "compose", "images"]));
    assert!(out.starts_with("REPOSITORY           TAG       SIZE"));
}

#[test]
fn compact_table_keeps_columns() {
    let out = compact_table("NAME READY STATUS RESTARTS AGE\n\npod-a 1/1 Running 0 5m\nshort", &[0, 1, 4]);
    assert_eq!(out, "NAME  READY  AGE\npod-a  1/1  5m\nshort");
    assert_eq!(compact_table("", &[0]), "");
}

#[test]
fn test_failures_pytest() {
    let input = "collected 3 items\n\
____ test_a ____\n\
assert 1 == 2\n\
E   AssertionError\n\
==== short test summary info ====\n\
FAILED tests/test_x.py::test_a\n\
=== 1 failed, 2 passed in 0.1s ===";
    let out = test_failures(input, "pytest");
    assert_eq!(
        out,
        "____ test_a ____\nassert 1 == 2\nE   AssertionError\n==== short test summary info ====\nFAILED tests/test_x.py::test_a\n=== 1 failed, 2 passed in 0.1s ==="
    );
    assert_eq!(test_failures("all good", "pytest"), "all good");
    assert_eq!(test_failures("x", "dotnet"), "x");
}

#[test]
fn test_failures_jest_and_vitest() {
    let jest = "PASS a.test.js\nFAIL b.test.js\n  ● b fails\n\n    expect(1).toBe(2)\n\nTests: 1 failed, 1 passed";
    let out = test_failures(jest, "jest");
    assert_eq!(
        out,
        "FAIL b.test.js\n  ● b fails\n\n    expect(1).toBe(2)\n\nTests: 1 failed, 1 passed"
    );
    let vitest = " ✓ ok\n FAIL src/a.test.ts > adds\n × adds 1\n   expected 2\n\n Tests  1 failed | 3 passed";
    let out = test_failures(vitest, "vitest");
    assert_eq!(
        out,
        " FAIL src/a.test.ts > adds\n × adds 1\n   expected 2\n\n Tests  1 failed | 3 passed"
    );
}
