use ccr::ansi::strip_ansi;
use ccr::summarizer::{summarize, summarize_with};
use ccr::tokens::count_tokens;

// ── ANSI escape removal ──────────────────────────────────────────────────────

#[test]
fn strip_basic_color_codes() {
    assert_eq!(strip_ansi("\x1b[32mgreen\x1b[0m"), "green");
}

#[test]
fn strip_cursor_movement() {
    assert_eq!(strip_ansi("\x1b[2J\x1b[Hclear"), "clear");
}

#[test]
fn strip_nested_escape_sequences() {
    assert_eq!(strip_ansi("\x1b[1m\x1b[31mbold red\x1b[0m"), "bold red");
}

#[test]
fn passthrough_plain_text() {
    assert_eq!(strip_ansi("hello world"), "hello world");
}

#[test]
fn empty_string() {
    assert_eq!(strip_ansi(""), "");
}

#[test]
fn strip_charset_and_single_char_escapes() {
    assert_eq!(strip_ansi("a\x1b(Bb\x1b=c"), "abc");
}

// ── token counting ───────────────────────────────────────────────────────────

#[test]
fn empty_string_is_zero_tokens() {
    assert_eq!(count_tokens(""), Some(0));
}

#[test]
fn known_string_token_count() {
    let count = count_tokens("hello world").unwrap();
    assert!(count > 0);
    assert!(count <= 5);
}

#[test]
fn count_increases_with_longer_input() {
    let short = count_tokens("hello").unwrap();
    let long = count_tokens("hello world this is a longer sentence with many more words").unwrap();
    assert!(long > short);
}

#[test]
fn unicode_text_counted() {
    let count = count_tokens("こんにちは世界").unwrap();
    assert!(count > 0);
}

#[test]
fn token_count_gives_up_on_huge_whitespace_run() {
    let text = " ".repeat(1_000_001) + "a";
    assert_eq!(count_tokens(&text), None);
}

// ── line summarisation ───────────────────────────────────────────────────────

fn numbered(n: usize, prefix: &str) -> Vec<String> {
    (0..n).map(|i| format!("{}{}", prefix, i)).collect()
}

#[test]
fn short_input_not_summarized() {
    let input = numbered(50, "line ").join("\n");
    let result = summarize(&input, 60);
    assert!(result.lines_out <= 50 + 1);
    assert_eq!(result.output, input);
}

#[test]
fn long_input_summarized() {
    let input = numbered(500, "line ").join("\n");
    let result = summarize(&input, 60);
    assert!(result.output.contains("lines omitted"));
    assert!(result.output.lines().count() < 500);
}

#[test]
fn error_lines_always_kept() {
    let mut lines = numbered(250, "noise line ");
    lines[125] = "error[E0308]: mismatched types".to_string();
    let input = lines.join("\n");
    let result = summarize(&input, 60);
    assert!(result.output.contains("error[E0308]: mismatched types"));
}

#[test]
fn warning_lines_always_kept() {
    let mut lines = numbered(250, "noise line ");
    lines[200] = "warning: unused variable `x`".to_string();
    let input = lines.join("\n");
    let result = summarize(&input, 60);
    assert!(result.output.contains("warning: unused variable `x`"));
}

#[test]
fn single_line_input() {
    let result = summarize("just one line", 60);
    assert!(result.output.contains("just one line"));
}

#[test]
fn omission_line_counts_correctly() {
    let input = numbered(500, "line ").join("\n");
    let result = summarize(&input, 60);
    assert!(result.output.contains("lines omitted"));
}

#[test]
fn configurable_budget() {
    let input = numbered(100, "line ").join("\n");
    let result = summarize(&input, 10);
    assert!(result.output.lines().count() <= 100);
}

#[test]
fn summarize_by_position_exact_shape() {
    let mut lines = numbered(10, "l");
    lines[5] = "FATAL: disk".to_string();
    let input = lines.join("\n");
    let result = summarize(&input, 4);
    assert_eq!(result.output, "l0\nl1\n[... 3 lines omitted ...]\nFATAL: disk\n[... 3 lines omitted ...]\nl9");
    assert_eq!(result.lines_in, 10);
    assert_eq!(result.lines_out, 6);
    assert_eq!(result.omitted, 4);
}

#[test]
fn headtail_exact_shape() {
    let input = numbered(10, "l").join("\n");
    let result = summarize_with(&input, 4, None);
    assert_eq!(result.lines_in, 10);
    assert_eq!(result.output, "l0\nl1\n[... 6 lines omitted ...]\nl8\nl9");
}

#[test]
fn ranking_keeps_chosen_lines_in_order() {
    let input = numbered(10, "l").join("\n");
    let ranking: Vec<usize> = vec![7, 2, 5, 0, 1, 3, 4, 6, 8, 9];
    let result = summarize_with(&input, 3, Some(&ranking));
    assert!(result.output.contains("l2"));
    assert!(result.output.contains("l5"));
    assert!(result.output.contains("l7"));
    assert!(!result.output.contains("l9"));
}
