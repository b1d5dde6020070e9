use ccr::handlers::{get_handler, is_known, HandlerKind};
use ccr::rewrite::rewrite_command;

#[test]
fn known_command_rewritten() {
    let result = rewrite_command("git status");
    assert_eq!(result, Some("ccr run git status".to_string()));
}

#[test]
fn unknown_command_not_rewritten() {
    let result = rewrite_command("some-unknown-tool --flag");
    assert_eq!(result, None);
}

#[test]
fn no_double_wrap() {
    let result = rewrite_command("ccr run git status");
    assert_eq!(result, None);
}

#[test]
fn compound_and() {
    let result = rewrite_command("cargo build && git push");
    assert_eq!(
        result,
        Some("ccr run cargo build && ccr run git push".to_string())
    );
}

#[test]
fn compound_mixed() {
    let result = rewrite_command("some-tool && git status");
    assert_eq!(result, Some("some-tool && ccr run git status".to_string()));
}

#[test]
fn compound_no_known() {
    let result = rewrite_command("tool-a && tool-b");
    assert_eq!(result, None);
}

#[test]
fn compound_or_and_semicolon() {
    assert_eq!(
        rewrite_command("ls || echo hi"),
        Some("ccr run ls || echo hi".to_string())
    );
    assert_eq!(
        rewrite_command("cd x; grep -n foo src"),
        Some("cd x; ccr run grep -n foo src".to_string())
    );
}

#[test]
fn every_segment_of_mixed_compound_is_rewritten() {
    assert_eq!(
        rewrite_command("cd src && cargo build; ls"),
        Some("cd src && ccr run cargo build; ccr run ls".to_string())
    );
    assert_eq!(
        rewrite_command("tool-a && tool-b || git status"),
        Some("tool-a && tool-b || ccr run git status".to_string())
    );
    assert_eq!(rewrite_command("ccr run ls && ccr run git status"), None);
    assert_eq!(rewrite_command("a; b || c && d"), None);
}

#[test]
fn rewritten_command_is_not_rewritten_again() {
    for c in ["git status", "tool-a && cargo build && ls", "x || git push", "cd a; ls -la; make"] {
        let r = rewrite_command(c).expect("rewritten");
        assert_eq!(rewrite_command(&r), None, "{}", r);
    }
}

#[test]
fn tab_before_ampersands_is_no_operator() {
    let once = rewrite_command("git status || \t&& ls");
    assert_eq!(once, Some("ccr run git status || && ls".to_string()));
    assert_eq!(
        rewrite_command("ccr run git status || && ls"),
        Some("ccr run git status || && ccr run ls".to_string())
    );
}

#[test]
fn single_command_is_trimmed_before_wrapping() {
    assert_eq!(
        rewrite_command("   kubectl get pods  "),
        Some("ccr run kubectl get pods".to_string())
    );
    assert_eq!(rewrite_command("   "), None);
    assert_eq!(rewrite_command("ccr run"), None);
}

#[test]
fn registry_knows_aliases() {
    assert!(is_known("docker-compose"));
    assert!(is_known("pip3"));
    assert!(is_known("printenv"));
    assert!(is_known("rg"));
    assert!(matches!(get_handler("rake"), Some(HandlerKind::Rake)));
    assert!(matches!(get_handler("bundle"), Some(HandlerKind::Rake)));
    assert!(matches!(get_handler("rspec"), Some(HandlerKind::Rspec)));
    assert!(matches!(get_handler("rubocop"), Some(HandlerKind::Rubocop)));
    assert!(matches!(get_handler("bun"), Some(HandlerKind::Jest)));
    assert!(matches!(get_handler("poetry"), Some(HandlerKind::Pip)));
    assert!(matches!(get_handler("k"), Some(HandlerKind::Kubectl)));
    assert!(matches!(get_handler("gcloud"), Some(HandlerKind::Aws)));
    assert!(!is_known("Rake"));
    assert!(!is_known("Git"));
    assert!(matches!(get_handler("cat"), Some(HandlerKind::Read)));
    assert!(matches!(get_handler("tofu"), Some(HandlerKind::Terraform)));
    assert!(get_handler("").is_none());
}
