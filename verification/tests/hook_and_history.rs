use ccr::generative::{compress_prompt, reply_text, word_count};
use ccr::history::{history_entry, tally_history};
use ccr::hook::{command_hint, hook_payload};
use ccr::json::Json;

fn obj(fields: Vec<(&str, Json)>) -> Json {
    Json::Object(fields.into_iter().map(|(k, v)| (k.to_string(), v)).collect())
}

fn s(text: &str) -> Json {
    Json::Str(text.to_string())
}

#[test]
fn command_hint_is_first_word() {
    let input = obj(vec![("command", s("  cargo build --release"))]);
    assert_eq!(command_hint(&input), Some("cargo".to_string()));
}

#[test]
fn command_hint_absent_or_blank() {
    assert_eq!(command_hint(&obj(vec![])), None);
    assert_eq!(command_hint(&obj(vec![("command", s("   "))])), None);
    assert_eq!(command_hint(&obj(vec![("command", Json::Bool(true))])), None);
    assert_eq!(command_hint(&Json::Null), None);
}

#[test]
fn hook_payload_prefers_error() {
    assert_eq!(hook_payload("out", Some("boom")), Some("boom".to_string()));
    assert_eq!(hook_payload("out", None), Some("out".to_string()));
    assert_eq!(hook_payload("", None), None);
    assert_eq!(hook_payload("out", Some("")), None);
}

#[test]
fn history_entry_reads_command_and_bytes() {
    let v = obj(vec![
        ("tool_input", obj(vec![("command", s("git status"))])),
        ("tool_response", obj(vec![("output", s("héllo"))])),
    ]);
    assert_eq!(history_entry(&v), Some(("git".to_string(), 6)));
}

#[test]
fn history_entry_skips_ccr_and_missing() {
    let v = obj(vec![("tool_input", obj(vec![("command", s(" ccr run git status"))]))]);
    assert_eq!(history_entry(&v), None);
    let w = obj(vec![("tool_response", obj(vec![("output", s("x"))]))]);
    assert_eq!(history_entry(&w), None);
    let no_out = obj(vec![("tool_input", obj(vec![("command", s("ls -la"))]))]);
    assert_eq!(history_entry(&no_out), Some(("ls".to_string(), 0)));
}

#[test]
fn tally_history_counts_in_name_order() {
    let content = [
        "{\"tool_input\":{\"command\":\"ls -la\"},\"tool_response\":{\"output\":\"abc\"}}\n",
        "not json\n",
        "\n",
        "{\"tool_input\":{\"command\":\"cargo test\"},\"tool_response\":{\"output\":\"12345\"}}\n",
        "{\"tool_input\":{\"command\":\"ccr run ls\"},\"tool_response\":{\"output\":\"zzz\"}}\n",
        "{\"tool_input\":{\"command\":\"ls\"},\"tool_response\":{\"output\":\"de\"}}\n",
        "{\"tool_input\":{\"command\":\"ls\"}}\n",
    ]
    .concat();
    let mut tally: Vec<(String, u128, usize)> = Vec::new();
    tally_history(&mut tally, &content);
    assert_eq!(
        tally,
        vec![("cargo".to_string(), 5, 1), ("ls".to_string(), 5, 3)]
    );
    tally_history(&mut tally, "{\"tool_input\":{\"command\":\"awk 1\"},\"tool_response\":{\"output\":\"\"}}");
    assert_eq!(
        tally,
        vec![("awk".to_string(), 0, 1), ("cargo".to_string(), 5, 1), ("ls".to_string(), 5, 3)]
    );
}

#[test]
fn generative_prompt_and_reply() {
    assert_eq!(word_count("  one two\tthree\nfour  "), 4);
    assert_eq!(word_count("   "), 0);
    let p = compress_prompt("keep the port 8080", 3, 4);
    assert!(p.starts_with("Compress the following message to at most 3 words (60% of the original 4 words). You MUST preserve"));
    assert!(p.contains("restates the obvious. Be terse. Output only the compressed text, nothing else.\n\nMessage: keep the port 8080"));
    assert!(p.ends_with("Message: keep the port 8080"));
    assert_eq!(reply_text("\n  short answer \n"), "short answer");
}
