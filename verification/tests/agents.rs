use ccr::agents::openclaw::{
    generate_openclaw_rewrite_script, insert_hook_entry, register_hooks, remove_panda_entries,
    unregister_hooks,
};
use ccr::json::Json;

fn field<'a>(v: &'a Json, key: &str) -> Option<&'a Json> {
    match v {
        Json::Object(es) => es.iter().find(|(k, _)| k == key).map(|(_, x)| x),
        _ => None,
    }
}

fn hook_entries(root: &Json, event: &str) -> Vec<String> {
    let arr = field(field(root, "hooks").expect("hooks"), event).expect("event");
    match arr {
        Json::Array(items) => items
            .iter()
            .map(|e| match e {
                Json::Str(s) => s.clone(),
                _ => String::new(),
            })
            .collect(),
        _ => panic!("not an array"),
    }
}

#[test]
fn insert_and_remove_entries() {
    let mut root = Json::Object(vec![]);
    insert_hook_entry(&mut root, "preToolUse", "/usr/local/bin/panda-rewrite.sh");
    insert_hook_entry(&mut root, "postToolUse", "PANDA_AGENT=openclaw /usr/local/bin/panda hook");

    assert_eq!(hook_entries(&root, "preToolUse").len(), 1);
    assert_eq!(hook_entries(&root, "postToolUse").len(), 1);

    insert_hook_entry(&mut root, "preToolUse", "/usr/local/bin/panda-rewrite.sh");
    assert_eq!(hook_entries(&root, "preToolUse").len(), 1);

    remove_panda_entries(&mut root, "preToolUse");
    remove_panda_entries(&mut root, "postToolUse");

    assert!(hook_entries(&root, "preToolUse").is_empty());
    assert!(hook_entries(&root, "postToolUse").is_empty());
}

#[test]
fn remove_preserves_non_panda_entries() {
    let mut root = Json::Object(vec![(
        "hooks".to_string(),
        Json::Object(vec![(
            "preToolUse".to_string(),
            Json::Array(vec![
                Json::Str("/usr/bin/other-hook.sh".to_string()),
                Json::Str("/usr/local/bin/panda-rewrite.sh".to_string()),
            ]),
        )]),
    )]);
    remove_panda_entries(&mut root, "preToolUse");
    let arr = hook_entries(&root, "preToolUse");
    assert_eq!(arr.len(), 1);
    assert!(arr[0].contains("other-hook"));
}

#[test]
fn script_contains_jq_rewrite() {
    let script = generate_openclaw_rewrite_script("/usr/local/bin/panda");
    assert!(script.contains("/usr/local/bin/panda"));
    assert!(script.contains("rewrite"));
    assert!(script.contains("hookSpecificOutput"));
    assert!(script.contains("tool_input"));
}

#[test]
fn script_quotes_binary_and_ends_with_newline() {
    let script = generate_openclaw_rewrite_script("/opt/p");
    assert!(script.starts_with("#!/usr/bin/env bash\n"));
    assert!(script.contains("REWRITTEN=$(PANDA_SESSION_ID=$PPID \"/opt/p\" rewrite \"$CMD\" 2>/dev/null) || {"));
    assert!(script.contains("  echo '{\"decision\": \"allow\"}'\n"));
    assert!(script.ends_with("}'\n"));
}

#[test]
fn register_replaces_old_entries_and_keeps_others() {
    let mut root = Json::Object(vec![
        ("theme".to_string(), Json::Str("dark".to_string())),
        (
            "hooks".to_string(),
            Json::Object(vec![
                (
                    "preToolUse".to_string(),
                    Json::Array(vec![
                        Json::Str("/old/ccr-rewrite.sh".to_string()),
                        Json::Str("/usr/bin/lint.sh".to_string()),
                    ]),
                ),
                ("stop".to_string(), Json::Array(vec![Json::Str("bye".to_string())])),
            ]),
        ),
    ]);
    register_hooks(&mut root, "/h/panda-rewrite.sh", "/bin/panda");
    assert_eq!(hook_entries(&root, "preToolUse"), vec!["/usr/bin/lint.sh", "/h/panda-rewrite.sh"]);
    assert_eq!(
        hook_entries(&root, "postToolUse"),
        vec!["PANDA_SESSION_ID=$PPID PANDA_AGENT=openclaw /bin/panda hook"]
    );
    assert_eq!(hook_entries(&root, "stop"), vec!["bye"]);
    assert!(matches!(field(&root, "theme"), Some(Json::Str(s)) if s == "dark"));

    register_hooks(&mut root, "/h/panda-rewrite.sh", "/bin/panda");
    assert_eq!(hook_entries(&root, "preToolUse"), vec!["/usr/bin/lint.sh", "/h/panda-rewrite.sh"]);

    unregister_hooks(&mut root);
    assert_eq!(hook_entries(&root, "preToolUse"), vec!["/usr/bin/lint.sh"]);
    assert!(hook_entries(&root, "postToolUse").is_empty());
    assert_eq!(hook_entries(&root, "stop"), vec!["bye"]);
}
