use ccr::handlers::aws::{extract_aws_resources, filter_s3_ls, AwsHandler};
use ccr::handlers::diff::DiffHandler;
use ccr::handlers::ls::LsHandler;
use ccr::handlers::pytest::PytestHandler;
use ccr::handlers::rake::filter_minitest;
use ccr::handlers::rspec::{parse_rspec_json, RspecHandler};
use ccr::handlers::rubocop::{parse_rubocop_json, RubocopHandler};
use ccr::handlers::Handler;
use ccr::json::{Json, JsonNumber};

fn args(v: &[&str]) -> Vec<String> {
    v.iter().map(|s| s.to_string()).collect()
}

fn no_args() -> Vec<String> {
    vec![]
}

fn s(v: &str) -> Json {
    Json::Str(v.to_string())
}

fn n(v: u64) -> Json {
    Json::Number(JsonNumber { unsigned: Some(v), text: v.to_string() })
}

fn decimal_number(text: &str) -> Json {
    Json::Number(JsonNumber { unsigned: None, text: text.to_string() })
}

fn obj(entries: Vec<(&str, Json)>) -> Json {
    let mut es: Vec<(String, Json)> = entries.into_iter().map(|(k, v)| (k.to_string(), v)).collect();
    es.sort_by(|a, b| a.0.cmp(&b.0));
    Json::Object(es)
}

fn arr(items: Vec<Json>) -> Json {
    Json::Array(items)
}

// ── aws ──────────────────────────────────────────────────────────────────────

fn instance(id: &str, ip: &str) -> Json {
    obj(vec![
        ("InstanceId", s(id)),
        ("State", obj(vec![("Name", s("running"))])),
        ("PublicIpAddress", s(ip)),
        ("InstanceType", s("t3.micro")),
    ])
}

#[test]
fn ec2_describe_instances_extracts_instance_id() {
    let json = obj(vec![("Reservations", arr(vec![obj(vec![("Instances", arr(vec![instance("i-0abc123", "1.2.3.4")]))])]))]);
    let result = extract_aws_resources("ec2", "describe-instances", &json).unwrap();
    assert!(result.contains("i-0abc123"), "should contain InstanceId");
    assert!(result.contains("running"), "should contain state");
    assert!(result.contains("1.2.3.4"), "should contain IP");
    assert!(result.contains("t3.micro"), "should contain type");
}

#[test]
fn lambda_list_functions_extracts_name_and_runtime() {
    let json = obj(vec![(
        "Functions",
        arr(vec![
            obj(vec![
                ("FunctionName", s("my-func")),
                ("Runtime", s("python3.11")),
                ("LastModified", s("2024-01-01T00:00:00.000+0000")),
            ]),
            obj(vec![
                ("FunctionName", s("other-func")),
                ("Runtime", s("nodejs18.x")),
                ("LastModified", s("2024-02-01T00:00:00.000+0000")),
            ]),
        ]),
    )]);
    let result = extract_aws_resources("lambda", "list-functions", &json).unwrap();
    assert!(result.contains("my-func"), "should contain FunctionName");
    assert!(result.contains("python3.11"), "should contain Runtime");
    assert!(result.contains("other-func"), "should contain second function");
}

#[test]
fn s3api_list_buckets_extracts_bucket_names() {
    let json = obj(vec![
        (
            "Buckets",
            arr(vec![
                obj(vec![("Name", s("my-bucket")), ("CreationDate", s("2023-06-01T12:00:00+00:00"))]),
                obj(vec![("Name", s("other-bucket")), ("CreationDate", s("2023-07-15T08:30:00+00:00"))]),
            ]),
        ),
        ("Owner", obj(vec![("ID", s("abc123"))])),
    ]);
    let result = extract_aws_resources("s3api", "list-buckets", &json).unwrap();
    assert!(result.contains("my-bucket"), "should contain first bucket name");
    assert!(result.contains("other-bucket"), "should contain second bucket name");
    assert!(result.contains("2023-06-01"), "should contain creation date");
}

#[test]
fn cap_at_25_resources_emits_trailer() {
    let instances: Vec<Json> = (0..30).map(|i| instance(&format!("i-{:010}", i), "0.0.0.0")).collect();
    let json = obj(vec![("Reservations", arr(vec![obj(vec![("Instances", arr(instances))])]))]);
    let result = extract_aws_resources("ec2", "describe-instances", &json).unwrap();
    assert!(result.contains("[+5 more]"), "should show overflow trailer");
}

#[test]
fn ecs_list_clusters_extracts_arn_last_component() {
    let json = obj(vec![(
        "clusterArns",
        arr(vec![
            s("arn:aws:ecs:us-east-1:123456789012:cluster/prod-cluster"),
            s("arn:aws:ecs:us-east-1:123456789012:cluster/staging-cluster"),
        ]),
    )]);
    let result = extract_aws_resources("ecs", "list-clusters", &json).unwrap();
    assert!(result.contains("prod-cluster"), "should contain cluster name");
    assert!(result.contains("staging-cluster"), "should contain second cluster");
    assert!(!result.contains("arn:aws:ecs"), "should strip ARN prefix");
}

#[test]
fn error_output_passes_through_unchanged() {
    let handler = AwsHandler;
    let error_output = "An error occurred (InvalidClientTokenId) when calling the ListBuckets operation: \
         The security token included in the request is invalid.\n\
         Error Code: InvalidClientTokenId";
    let result = handler.filter(error_output, &args(&["aws", "s3api", "list-buckets"]));
    assert_eq!(result, error_output);
}

#[test]
fn error_with_code_passes_through_unchanged() {
    let handler = AwsHandler;
    let error_output = "Error\nCode: AccessDenied\nMessage: Access denied";
    let result = handler.filter(error_output, &args(&["aws", "ec2", "describe-instances"]));
    assert_eq!(result, error_output);
}

#[test]
fn rewrite_args_injects_output_json_for_ec2() {
    let handler = AwsHandler;
    let out = handler.rewrite_args(&args(&["aws", "ec2", "describe-instances"]));
    assert!(out.contains(&"--output".to_string()));
    assert!(out.contains(&"json".to_string()));
}

#[test]
fn rewrite_args_skips_injection_when_output_already_set() {
    let handler = AwsHandler;
    let out = handler.rewrite_args(&args(&["aws", "ec2", "describe-instances", "--output", "table"]));
    let count = out.iter().filter(|x| x.as_str() == "--output").count();
    assert_eq!(count, 1);
}

#[test]
fn rewrite_args_skips_injection_for_s3_cp() {
    let handler = AwsHandler;
    let out = handler.rewrite_args(&args(&["aws", "s3", "cp", "file.txt", "s3://bucket/"]));
    assert!(!out.contains(&"--output".to_string()));
}

#[test]
fn rewrite_args_skips_injection_for_mutating_ec2_action() {
    let handler = AwsHandler;
    let out = handler.rewrite_args(&args(&["aws", "ec2", "create-instance"]));
    assert!(!out.contains(&"--output".to_string()), "mutating actions should not get --output json");
}

#[test]
fn rewrite_args_injects_for_describe_action() {
    let handler = AwsHandler;
    let out = handler.rewrite_args(&args(&["aws", "ec2", "describe-vpcs"]));
    assert!(out.contains(&"--output".to_string()));
}

#[test]
fn sts_get_caller_identity_formats_one_liner() {
    let json = obj(vec![
        ("Account", s("123456789012")),
        ("Arn", s("arn:aws:iam::123456789012:user/alice")),
        ("UserId", s("AIDAIOSFODNN7EXAMPLE")),
    ]);
    let result = extract_aws_resources("sts", "get-caller-identity", &json).unwrap();
    assert!(result.contains("123456789012"), "should contain account");
    assert!(result.contains("alice"), "should contain ARN fragment");
}

#[test]
fn s3_ls_summarises_objects_and_prefixes() {
    let output = "2024-01-01 00:00:00       1024 file1.txt\n\
                  2024-01-02 00:00:00       2048 file2.txt\n\
                  PRE images/\n\
                  PRE logs/";
    let result = filter_s3_ls(output);
    assert!(result.contains("2 objects"), "should count loose objects");
    assert!(result.contains("3072 bytes"), "should sum sizes");
    assert!(result.contains("images/"), "should list prefix");
    assert!(result.contains("logs/"), "should list prefix");
}

#[test]
fn s3_ls_exact_sorted_output() {
    let output = "PRE zeta/\n2024-01-01 00:00:00 +10 a.txt\nPRE alpha/\nPRE zeta/\n2024-01-01 00:00:00 x b.txt";
    assert_eq!(filter_s3_ls(output), "1 objects, 10 bytes\nalpha//\nzeta//");
}

#[test]
fn aws_json_listing_replaces_output_when_shorter() {
    let handler = AwsHandler;
    let output = "{\"clusterArns\": [\"arn:aws:ecs:us-east-1:123456789012:cluster/prod\"]}";
    let result = handler.filter(output, &args(&["aws", "ecs", "list-clusters"]));
    assert_eq!(result, "prod");
}

#[test]
fn aws_generic_list_uses_first_fields() {
    let json = arr(vec![obj(vec![("b", n(2)), ("a", s("x")), ("c", Json::Bool(true)), ("d", Json::Null)])]);
    let result = extract_aws_resources("rds", "describe-db-instances", &json).unwrap();
    assert_eq!(result, "a=x\tb=2\tc=true\td=-");
}

// ── diff ─────────────────────────────────────────────────────────────────────

#[test]
fn passthrough_when_empty() {
    let h = DiffHandler;
    let input = "";
    assert_eq!(h.filter(input, &no_args()), input);
}

#[test]
fn passthrough_when_no_diff_lines() {
    let h = DiffHandler;
    let input = "some random text\nanother line";
    assert_eq!(h.filter(input, &no_args()), input);
}

#[test]
fn strips_index_lines() {
    let h = DiffHandler;
    let input = "diff --git a/foo.rs b/foo.rs\nindex abc123..def456 100644\n--- a/foo.rs\n+++ b/foo.rs\n@@ -1,3 +1,3 @@\n-old\n+new";
    let result = h.filter(input, &no_args());
    assert!(!result.contains("index abc123"), "index line should be stripped");
    assert!(result.contains("diff --git"));
    assert!(result.contains("-old"));
    assert!(result.contains("+new"));
}

#[test]
fn strips_no_newline_at_end_of_file() {
    let h = DiffHandler;
    let input = "diff --git a/foo.rs b/foo.rs\n--- a/foo.rs\n+++ b/foo.rs\n@@ -1,1 +1,1 @@\n-old\n+new\n\\ No newline at end of file";
    let result = h.filter(input, &no_args());
    assert!(!result.contains("\\ No newline"), "no-newline notice should be stripped");
}

#[test]
fn limits_to_five_hunks_and_emits_summary() {
    let h = DiffHandler;
    let mut input = String::from("diff --git a/foo.rs b/foo.rs\n--- a/foo.rs\n+++ b/foo.rs\n");
    for i in 1..=8usize {
        input.push_str(&format!("@@ -{i},1 +{i},1 @@\n-old{i}\n+new{i}\n"));
    }
    let result = h.filter(input.as_str(), &no_args());
    let hunk_headers = result.lines().filter(|l| l.starts_with("@@")).count();
    assert_eq!(hunk_headers, 5, "should keep exactly 5 hunks");
    assert!(result.contains("[+3 more hunks]"), "should emit remaining hunk count; got:\n{result}");
}

#[test]
fn keeps_up_to_two_context_lines_per_hunk() {
    let h = DiffHandler;
    let input = "diff --git a/foo.rs b/foo.rs\n--- a/foo.rs\n+++ b/foo.rs\n@@ -1,6 +1,6 @@\n context1\n context2\n context3\n context4\n-old\n+new";
    let result = h.filter(input, &no_args());
    let context_lines: Vec<&str> = result.lines().filter(|l| l.starts_with(' ')).collect();
    assert!(context_lines.len() <= 2, "should keep at most 2 context lines per hunk; got {}", context_lines.len());
    assert!(result.contains("-old"));
    assert!(result.contains("+new"));
}

#[test]
fn diff_exact_context_output() {
    let h = DiffHandler;
    let input = "@@ -1 +1 @@\n a\n b\n c\n-x";
    assert_eq!(h.filter(input, &no_args()), "@@ -1 +1 @@\n a\n b\n-x");
}

// ── ls ───────────────────────────────────────────────────────────────────────

fn run_ls(output: &str) -> String {
    LsHandler.filter(output, &[])
}

#[test]
fn test_node_modules_filtered_out() {
    let result = run_ls("src/\nnode_modules/\npackage.json\nREADME.md\n");
    let lines: Vec<&str> = result.lines().collect();
    assert!(!lines.iter().any(|l| *l == "node_modules/"), "node_modules/ must not appear as entry, got: {}", result);
    assert!(result.contains("src/"), "src/ should be present, got: {}", result);
    assert!(result.contains("package.json"), "package.json should be present, got: {}", result);
}

#[test]
fn test_git_filtered_out() {
    let result = run_ls(".git/\nsrc/\nmain.rs\n");
    let lines: Vec<&str> = result.lines().collect();
    assert!(!lines.iter().any(|l| *l == ".git/"), "got: {}", result);
}

#[test]
fn test_target_filtered_out() {
    let result = run_ls("target/\nsrc/\nCargo.toml\n");
    let lines: Vec<&str> = result.lines().collect();
    assert!(!lines.iter().any(|l| *l == "target/"), "got: {}", result);
}

#[test]
fn test_extension_summary_shows_correct_counts() {
    let result = run_ls("a.rs\nb.rs\nc.rs\nCargo.toml\nWorkspace.toml\nREADME.md\nnotes.txt\n");
    assert!(result.contains("top:"), "should have extension summary, got: {}", result);
    assert!(result.contains(".rs"), "got: {}", result);
    assert!(result.contains(".toml"), "got: {}", result);
}

#[test]
fn test_extension_summary_not_shown_when_less_than_3_distinct() {
    let result = run_ls("a.rs\nb.rs\nc.toml\n");
    assert!(!result.contains("top:"), "should not have extension summary, got: {}", result);
}

#[test]
fn test_short_listing_under_40_works() {
    let result = run_ls("main.rs\nlib.rs\nCargo.toml\n");
    assert!(result.contains("main.rs"), "got: {}", result);
    assert!(result.contains("[0 dirs, 3 files]"), "got: {}", result);
}

#[test]
fn test_hidden_dirs_note_appended() {
    let result = run_ls("src/\nnode_modules/\ntarget/\npackage.json\n");
    assert!(result.contains("[hidden:"), "should have hidden note, got: {}", result);
    assert!(result.contains("node_modules"), "node_modules should appear in hidden note, got: {}", result);
    assert!(result.contains("target"), "target should appear in hidden note, got: {}", result);
    let lines: Vec<&str> = result.lines().collect();
    assert!(!lines.iter().any(|l| *l == "node_modules/" || *l == "target/"), "noise dirs must not appear as entries");
}

#[test]
fn ls_exact_listing_with_summary() {
    let result = run_ls("a.rs\nb.rs\nc.rs\nCargo.toml\nWorkspace.toml\nREADME.md\nsrc/\ntarget/\n");
    assert_eq!(
        result,
        "src/\nCargo.toml\nREADME.md\nWorkspace.toml\na.rs\nb.rs\nc.rs\n[1 dirs, 6 files]\ntop: .rs \u{d7}3, .toml \u{d7}2, .md \u{d7}1\n[hidden: target]"
    );
}

#[test]
fn ls_long_format_and_limit() {
    let mut out = String::from("total 8\n");
    for i in 0..45 {
        out.push_str(&format!("-rw-r--r-- 1 u g 0 Jan 1 00:00 f{:02}.txt\n", i));
    }
    out.push_str("drwxr-xr-x 2 u g 0 Jan 1 00:00 dir\n");
    let result = run_ls(&out);
    let lines: Vec<&str> = result.lines().collect();
    assert_eq!(lines[0], "dir/");
    assert_eq!(lines[1], "f00.txt");
    assert_eq!(lines[40], "[+6 more]");
    assert_eq!(lines[41], "[1 dirs, 45 files]");
}

// ── pytest ───────────────────────────────────────────────────────────────────

#[test]
fn tb_short_injected_by_default() {
    let result = PytestHandler.rewrite_args(&args(&["pytest"]));
    assert!(result.contains(&"--tb=short".to_string()));
    assert!(result.contains(&"-q".to_string()));
}

#[test]
fn tb_short_not_doubled_when_user_passes_tb_long() {
    let result = PytestHandler.rewrite_args(&args(&["pytest", "--tb=long"]));
    let count = result.iter().filter(|a| a.starts_with("--tb")).count();
    assert_eq!(count, 1, "should not add a second --tb flag");
    assert!(!result.contains(&"--tb=short".to_string()));
}

#[test]
fn tb_short_injected_alongside_v() {
    let result = PytestHandler.rewrite_args(&args(&["pytest", "-v"]));
    assert!(result.contains(&"--tb=short".to_string()), "should inject --tb=short even with -v");
    assert!(!result.contains(&"-q".to_string()), "should not inject -q when -v is present");
}

// ── rake ─────────────────────────────────────────────────────────────────────

#[test]
fn filter_keeps_failure_block_and_summary() {
    let output = "\
Run options: --seed 12345

# Running:

..F.

Finished in 0.001s, 4000.0 runs/s, 4000.0 assertions/s.

1) Failure:
FooTest#test_bar [test/foo_test.rb:10]:
Expected false to be truthy.

4 runs, 4 assertions, 1 failures, 0 errors, 0 skips
";
    let result = filter_minitest(output);
    assert!(result.contains("Failure:"), "should keep failure block");
    assert!(result.contains("Expected false"), "should keep failure detail");
    assert!(result.contains("4 runs,"), "should keep summary");
    assert!(!result.contains("Run options:"), "should drop run options");
    assert!(!result.contains("# Running:"), "should drop running header");
}

#[test]
fn filter_all_pass_returns_original() {
    let output = "...\n3 runs, 3 assertions, 0 failures, 0 errors, 0 skips\n";
    let result = filter_minitest(output);
    assert!(result.contains("3 runs,"), "should keep summary");
}

#[test]
fn minitest_without_matches_returns_output() {
    let output = "nothing to see\n";
    assert_eq!(filter_minitest(output), output);
}

// ── rspec ────────────────────────────────────────────────────────────────────

#[test]
fn rspec_rewrite_args_injects_format_json() {
    let out = RspecHandler.rewrite_args(&args(&["rspec", "spec/"]));
    assert!(out.contains(&"--format".to_string()));
    assert!(out.contains(&"json".to_string()));
}

#[test]
fn rspec_rewrite_args_does_not_duplicate_format() {
    let out = RspecHandler.rewrite_args(&args(&["rspec", "--format", "progress", "spec/"]));
    let count = out.iter().filter(|a| a.as_str() == "--format").count();
    assert_eq!(count, 1);
}

fn rspec_summary(total: u64, failed: u64, duration: Json) -> Json {
    obj(vec![
        ("example_count", n(total)),
        ("failure_count", n(failed)),
        ("pending_count", n(0)),
        ("duration", duration),
    ])
}

#[test]
fn parse_rspec_json_all_pass() {
    let json = obj(vec![
        ("examples", arr(vec![obj(vec![("status", s("passed")), ("full_description", s("Foo works"))])])),
        ("summary", rspec_summary(1, 0, decimal_number("0.42"))),
    ]);
    let result = parse_rspec_json(&json).unwrap();
    assert!(result.contains("1 examples, 0 failures"), "got: {}", result);
}

#[test]
fn parse_rspec_json_with_failure() {
    let json = obj(vec![
        (
            "examples",
            arr(vec![obj(vec![
                ("status", s("failed")),
                ("full_description", s("Foo fails")),
                ("location", s("spec/foo_spec.rb:10")),
                ("exception", obj(vec![("message", s("expected 1 got 2"))])),
            ])]),
        ),
        ("summary", rspec_summary(1, 1, decimal_number("0.1"))),
    ]);
    let result = parse_rspec_json(&json).unwrap();
    assert!(result.contains("FAIL: Foo fails"), "got: {}", result);
    assert!(result.contains("expected 1 got 2"), "got: {}", result);
    assert!(result.contains("1 examples, 1 failures"), "got: {}", result);
}

#[test]
fn rspec_exact_reports() {
    let pass = obj(vec![("examples", arr(vec![])), ("summary", rspec_summary(3, 0, decimal_number("0.5")))]);
    assert_eq!(parse_rspec_json(&pass).unwrap(), "[3 examples, 0 failures (0.50s)]");
    let fail = obj(vec![
        (
            "examples",
            arr(vec![obj(vec![
                ("status", s("failed")),
                ("full_description", s("X")),
                ("exception", obj(vec![("message", s("a\nb\nc\nd\ne\nf"))])),
            ])]),
        ),
        ("summary", rspec_summary(2, 1, decimal_number("1"))),
    ]);
    assert_eq!(
        parse_rspec_json(&fail).unwrap(),
        "FAIL: X\n  a\n  b\n  c\n  d\n  e\n  [... truncated ...]\n[2 examples, 1 failures (1.00s)]"
    );
    assert!(parse_rspec_json(&obj(vec![("summary", rspec_summary(1, 0, Json::Null))])).is_none());
}

#[test]
fn rspec_filter_reads_json_from_last_brace() {
    // The last `{` opens the nested summary object, so the candidate is not
    // valid JSON and the text report is used.
    let line = "{\"examples\":[],\"summary\":{\"example_count\":2,\"failure_count\":0,\"pending_count\":1,\"duration\":0.125}}";
    let output = format!("..\n{}", line);
    let result = RspecHandler.filter(&output, &no_args());
    assert_eq!(result, line);
}

#[test]
fn rspec_text_fallback() {
    let output = "Failure/Error: expect(x).to eq 1\n  expected 1\n\n3 examples, 1 failure\n";
    let result = RspecHandler.filter(output, &no_args());
    assert!(result.contains("Failure/Error:"));
    assert!(result.contains("3 examples, 1 failure"));
}

// ── rubocop ──────────────────────────────────────────────────────────────────

#[test]
fn rubocop_rewrite_args_injects_format_json() {
    let out = RubocopHandler.rewrite_args(&args(&["rubocop", "lib/"]));
    assert!(out.contains(&"--format".to_string()));
    assert!(out.contains(&"json".to_string()));
}

#[test]
fn rubocop_rewrite_args_does_not_duplicate_format() {
    let out = RubocopHandler.rewrite_args(&args(&["rubocop", "--format", "progress"]));
    let count = out.iter().filter(|a| a.as_str() == "--format").count();
    assert_eq!(count, 1);
}

#[test]
fn parse_json_no_offenses() {
    let json = obj(vec![
        ("files", arr(vec![])),
        ("summary", obj(vec![("inspected_file_count", n(5)), ("offense_count", n(0))])),
    ]);
    let result = parse_rubocop_json(&json).unwrap();
    assert!(result.contains("no offenses"), "got: {}", result);
}

#[test]
fn parse_json_groups_by_severity() {
    let offense = |sev: &str, msg: &str, cop: &str, line: u64| {
        obj(vec![
            ("severity", s(sev)),
            ("message", s(msg)),
            ("cop_name", s(cop)),
            ("location", obj(vec![("line", n(line))])),
        ])
    };
    let json = obj(vec![
        (
            "files",
            arr(vec![obj(vec![
                ("path", s("app/foo.rb")),
                (
                    "offenses",
                    arr(vec![
                        offense("error", "Syntax error", "Lint/Syntax", 10),
                        offense("convention", "Line is too long", "Layout/LineLength", 20),
                    ]),
                ),
            ])]),
        ),
        ("summary", obj(vec![("inspected_file_count", n(1)), ("offense_count", n(2))])),
    ]);
    let result = parse_rubocop_json(&json).unwrap();
    let err_pos = result.find("Syntax error").unwrap_or(usize::MAX);
    let conv_pos = result.find("Line is too long").unwrap_or(usize::MAX);
    assert!(err_pos < conv_pos, "errors should precede conventions");
    assert!(result.contains("2 offense(s)"), "got: {}", result);
    assert_eq!(
        result,
        "app/foo.rb:10: [error] Syntax error (Lint/Syntax)\napp/foo.rb:20: [convention] Line is too long (Layout/LineLength)\n[rubocop: 1 file(s) inspected, 2 offense(s)]"
    );
}

#[test]
fn rubocop_text_report() {
    let output = "lib/a.rb:1:1: C: Style/X: msg\nnoise\n1 file inspected, 1 offense detected";
    assert_eq!(
        RubocopHandler.filter(output, &no_args()),
        "lib/a.rb:1:1: C: Style/X: msg\n1 file inspected, 1 offense detected"
    );
}
