use ccr::handlers::env::EnvHandler;
use ccr::handlers::python::PythonHandler;
use ccr::handlers::read::ReadHandler;
use ccr::handlers::tree::TreeHandler;
use ccr::handlers::Handler;
use ccr::summarizer::summarize_message_with;

fn no_args() -> Vec<String> {
    Vec::new()
}

fn numbered(n: usize) -> Vec<String> {
    (0..n).map(|i| format!("line {}", i)).collect()
}

// ── messages ─────────────────────────────────────────────────────────────────

#[test]
fn message_headtail_without_ranking() {
    let text = "One alpha. Two beta. Three gamma. Four delta. Five epsilon.";
    let r = summarize_message_with(text, 2, None, false);
    assert_eq!(r.output, "One alpha. Five epsilon.");
    assert_eq!(r.sentences_in, 5);
    assert_eq!(r.sentences_out, 2);
}

#[test]
fn message_within_budget_unchanged() {
    let text = "One alpha. Two beta. Three gamma.";
    let r = summarize_message_with(text, 3, Some(&[]), false);
    assert_eq!(r.output, text);
    assert_eq!(r.sentences_in, 3);
    assert_eq!(r.sentences_out, 3);
    let e = summarize_message_with("", 1, None, true);
    assert_eq!(e.output, "");
    assert_eq!(e.sentences_in, 0);
    assert_eq!(e.sentences_out, 0);
}

#[test]
fn message_ranked_keeps_user_hard_sentences() {
    let text = "Plain one. Is this a question? Plain three. Call process_batch now. Plain five. You MUST stop.";
    let r = summarize_message_with(text, 4, Some(&[0, 2, 4]), false);
    assert_eq!(
        r.output,
        "Plain one. Is this a question? Call process_batch now. You MUST stop."
    );
    assert_eq!(r.sentences_in, 6);
    assert_eq!(r.sentences_out, 4);
}

#[test]
fn message_ranked_assistant_keeps_numbers() {
    let text = "Intro text here. Nothing notable. Revenue grew 12 percent. Another plain one. Final plain one.";
    let a = summarize_message_with(text, 2, Some(&[]), true);
    assert_eq!(a.output, "Revenue grew 12 percent.");
    assert_eq!(a.sentences_out, 1);
    let u = summarize_message_with(text, 2, Some(&[]), false);
    assert_eq!(u.output, "");
    assert_eq!(u.sentences_out, 0);
    let ranked = summarize_message_with(text, 2, Some(&[4, 0]), true);
    assert_eq!(ranked.output, "Revenue grew 12 percent. Final plain one.");
}

// ── env ──────────────────────────────────────────────────────────────────────

#[test]
fn env_redacts_sensitive_keys_and_sorts() {
    let output = "b_token=abc\nA=1\nnoeq\nPATH=/bin\napi_key=zzz";
    assert_eq!(
        EnvHandler.filter(output, &no_args()),
        "A=1\nPATH=/bin\napi_key=[redacted]\nb_token=[redacted]"
    );
}

#[test]
fn env_caps_at_forty_vars() {
    let lines: Vec<String> = (0..42).map(|i| format!("V{:02}={}", i, i)).collect();
    let out = EnvHandler.filter(&lines.join("\n"), &no_args());
    let got: Vec<&str> = out.lines().collect();
    assert_eq!(got.len(), 41);
    assert_eq!(got[0], "V00=0");
    assert_eq!(got[39], "V39=39");
    assert_eq!(got[40], "[+2 more env vars]");
}

// ── python ───────────────────────────────────────────────────────────────────

#[test]
fn python_short_output_unchanged() {
    let output = numbered(50).join("\n");
    assert_eq!(PythonHandler.filter(&output, &no_args()), output);
}

#[test]
fn python_long_output_keeps_traceback() {
    let mut lines = numbered(60);
    lines.push("Traceback (most recent call last):".to_string());
    lines.push("  File \"x.py\", line 1".to_string());
    lines.push("ValueError: bad".to_string());
    let output = lines.join("\n");
    assert_eq!(
        PythonHandler.filter(&output, &no_args()),
        "Traceback (most recent call last):\n  File \"x.py\", line 1\nValueError: bad"
    );
}

#[test]
fn python_long_output_without_traceback_is_summarized() {
    let output = numbered(60).join("\n");
    let out = PythonHandler.filter(&output, &no_args());
    let got: Vec<&str> = out.lines().collect();
    assert_eq!(got.len(), 41);
    assert_eq!(got[0], "line 0");
    assert_eq!(got[20], "[... 20 lines omitted ...]");
    assert_eq!(got[40], "line 59");
}

// ── read ─────────────────────────────────────────────────────────────────────

#[test]
fn read_short_file_unchanged() {
    let output = numbered(100).join("\n");
    assert_eq!(ReadHandler.filter(&output, &no_args()), output);
}

#[test]
fn read_medium_file_head_and_tail() {
    let output = numbered(150).join("\n");
    let out = ReadHandler.filter(&output, &no_args());
    let got: Vec<&str> = out.lines().collect();
    assert_eq!(got.len(), 81);
    assert_eq!(got[59], "line 59");
    assert_eq!(got[60], "[... 70 lines omitted ...]");
    assert_eq!(got[61], "line 130");
    assert_eq!(got[80], "line 149");
}

// ── tree ─────────────────────────────────────────────────────────────────────

#[test]
fn tree_short_output_unchanged() {
    let output = numbered(30).join("\n");
    assert_eq!(TreeHandler.filter(&output, &no_args()), output);
}

#[test]
fn tree_long_output_keeps_summary() {
    let mut lines = numbered(39);
    lines.push("3 directories, 36 files".to_string());
    let out = TreeHandler.filter(&lines.join("\n"), &no_args());
    let mut expected = numbered(25);
    expected.push("[... 14 more entries]".to_string());
    expected.push("3 directories, 36 files".to_string());
    assert_eq!(out, expected.join("\n"));

    let plain = numbered(40);
    let out2 = TreeHandler.filter(&plain.join("\n"), &no_args());
    let mut expected2 = numbered(25);
    expected2.push("[... 15 more entries]".to_string());
    assert_eq!(out2, expected2.join("\n"));
}
