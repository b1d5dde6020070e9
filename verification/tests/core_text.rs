use ccr::sentence::split_sentences;
use ccr::simhash::{dedup_near_duplicates, dedup_str, fnv1a, hamming, simhash, HAMMING_THRESHOLD};
use ccr::whitespace::{normalize, GlobalConfig};

// ── sentences ────────────────────────────────────────────────────────────────

#[test]
fn splits_basic_sentences() {
    let s = split_sentences("Hello world. This is a test. It works!");
    assert_eq!(s.len(), 3);
    assert_eq!(s[0], "Hello world.");
    assert_eq!(s[2], "It works!");
}

#[test]
fn splits_on_newline() {
    let s = split_sentences("First line\nSecond line\nThird line");
    assert_eq!(s.len(), 3);
}

#[test]
fn splits_on_question_mark() {
    let s = split_sentences("What is this? It is a test.");
    assert_eq!(s.len(), 2);
}

#[test]
fn handles_empty() {
    assert!(split_sentences("").is_empty());
}

#[test]
fn handles_single_sentence_no_terminal() {
    let s = split_sentences("just a fragment");
    assert_eq!(s.len(), 1);
    assert_eq!(s[0], "just a fragment");
}

#[test]
fn preserves_code_tokens() {
    let s = split_sentences("Use `budget_ratio = 0.20` for tier 2. This is important.");
    assert!(s[0].contains("budget_ratio"));
    assert_eq!(s.len(), 2);
}

#[test]
fn skips_blank_segments() {
    let s = split_sentences("  \n  \nHello.\n  ");
    assert_eq!(s.len(), 1);
    assert_eq!(s[0], "Hello.");
}

#[test]
fn sentences_are_trimmed_and_spaces_after_terminal_skipped() {
    let s = split_sentences("One.   Two!\tThree?  ");
    assert_eq!(s, vec!["One.", "Two!", "Three?"]);
}

#[test]
fn terminal_inside_token_does_not_split() {
    let s = split_sentences("see src/main.rs for v0.1.2 details");
    assert_eq!(s, vec!["see src/main.rs for v0.1.2 details"]);
}

// ── simhash ──────────────────────────────────────────────────────────────────

#[test]
fn simhash_same_string_stable() {
    let line = "2024-03-27 10:00:01 INFO [worker-1] Processing request id=1234";
    assert_eq!(simhash(line), simhash(line));
}

#[test]
fn simhash_near_duplicate_small_distance() {
    let a = simhash("2024-03-27 10:00:01 INFO [worker-1] Processing request id=1234");
    let b = simhash("2024-03-27 10:00:02 INFO [worker-1] Processing request id=1235");
    assert!(
        hamming(a, b) <= HAMMING_THRESHOLD,
        "hamming was {}, expected <= {}",
        hamming(a, b),
        HAMMING_THRESHOLD
    );
}

#[test]
fn simhash_distinct_content_large_distance() {
    let a = simhash("error: type mismatch expected bool found &str");
    let b = simhash("Compiling myproject v0.1.0 /home/user/project");
    assert!(hamming(a, b) > 5, "hamming was {}", hamming(a, b));
}

#[test]
fn simhash_of_blank_line_is_zero() {
    assert_eq!(simhash(""), 0);
    assert_eq!(simhash("   \t "), 0);
}

#[test]
fn simhash_single_token_is_its_fnv1a_hash() {
    // One token: every bit votes alone, so the SimHash equals the token's FNV-1a hash.
    // FNV-1a("a") = 0xaf63dc4c8601ec8c.
    assert_eq!(simhash("a"), 0xaf63dc4c8601ec8c);
    assert_eq!(simhash("  a  "), 0xaf63dc4c8601ec8c);
}

#[test]
fn hamming_exact_values() {
    assert_eq!(hamming(0, 0), 0);
    assert_eq!(hamming(0, u64::MAX), 64);
    assert_eq!(hamming(0b1011, 0b0110), 3);
    assert_eq!(hamming(0b0110, 0b1011), 3);
}

#[test]
fn dedup_collapses_repeated_log_lines() {
    let lines: Vec<&str> = (0..20)
        .map(|_| "2024-03-27 10:00:01 INFO server heartbeat ok")
        .collect();
    let result = dedup_near_duplicates(&lines, HAMMING_THRESHOLD);
    assert!(
        result.len() <= 2,
        "expected ≤ 2 lines, got {}: {:?}",
        result.len(),
        result
    );
    assert!(result[0].contains("heartbeat"));
    if result.len() == 2 {
        assert!(
            result[1].contains("similar lines omitted"),
            "marker missing: {:?}",
            result[1]
        );
    }
}

#[test]
fn dedup_preserves_critical_lines() {
    let base = "error: connection refused (os error 111)";
    let lines: Vec<&str> = vec![base; 5];
    let result = dedup_near_duplicates(&lines, HAMMING_THRESHOLD);
    assert_eq!(result.len(), 5, "got: {:?}", result);
}

#[test]
fn dedup_short_distinct_input_unchanged() {
    let lines = vec!["line one", "line two", "line three"];
    let result = dedup_near_duplicates(&lines, HAMMING_THRESHOLD);
    let has_marker = result.iter().any(|l| l.contains("similar lines omitted"));
    assert!(!has_marker, "unexpected marker in {:?}", result);
}

#[test]
fn dedup_empty_input() {
    let result = dedup_near_duplicates(&[], HAMMING_THRESHOLD);
    assert!(result.is_empty());
}

#[test]
fn dedup_marker_count_accurate() {
    let lines: Vec<&str> = vec!["INFO heartbeat ok"; 10];
    let result = dedup_near_duplicates(&lines, HAMMING_THRESHOLD);
    assert_eq!(result.len(), 2, "got: {:?}", result);
    assert_eq!(result[1], "[9 similar lines omitted]");
}

#[test]
fn dedup_zero_threshold_exact_only() {
    let lines = vec![
        "2024-03-27 10:00:01 INFO heartbeat",
        "2024-03-27 10:00:02 INFO heartbeat",
        "something completely different",
    ];
    let result = dedup_near_duplicates(&lines, 0);
    assert!(!result.is_empty());
}

#[test]
fn dedup_preserves_distinct_lines() {
    let lines = vec![
        "Compiling foo v0.1.0",
        "Compiling bar v0.2.0",
        "error: type mismatch",
        "warning: unused variable `x`",
        "   --> src/main.rs:10:5",
    ];
    let result = dedup_near_duplicates(&lines, HAMMING_THRESHOLD);
    assert!(result.len() >= 2, "got: {:?}", result);
    assert!(result.iter().any(|l| l.contains("error:")));
    assert!(result.iter().any(|l| l.contains("warning:")));
}

#[test]
fn dedup_str_wrapper() {
    let text = "INFO ok\nINFO ok\nINFO ok";
    let result = dedup_str(text, HAMMING_THRESHOLD);
    let lines: Vec<&str> = result.lines().collect();
    assert!(lines.len() <= 2);
}

#[test]
fn dedup_keeps_order_and_counts_each_group() {
    let lines = vec!["alpha beta", "zzz", "alpha beta", "FATAL boom", "alpha beta"];
    let result = dedup_near_duplicates(&lines, 0);
    assert_eq!(
        result,
        vec!["alpha beta", "[2 similar lines omitted]", "zzz", "FATAL boom"]
    );
}

#[test]
fn dedup_critical_line_never_absorbed_by_earlier_one() {
    let lines = vec!["Warning disk", "Warning disk"];
    let result = dedup_near_duplicates(&lines, 64);
    assert_eq!(result, vec!["Warning disk", "Warning disk"]);
}

// ── whitespace ───────────────────────────────────────────────────────────────

fn cfg() -> GlobalConfig {
    GlobalConfig::default()
}

#[test]
fn collapse_multiple_blank_lines() {
    let input = "a\n\n\n\nb";
    assert_eq!(normalize(input, &cfg()), "a\n\nb");
}

#[test]
fn trim_trailing_spaces_per_line() {
    let input = "hello   \nworld  ";
    assert_eq!(normalize(input, &cfg()), "hello\nworld");
}

#[test]
fn deduplicate_consecutive_lines() {
    let input = "foo\nfoo\nfoo\nbar";
    assert_eq!(normalize(input, &cfg()), "foo\nbar");
}

#[test]
fn preserve_intentional_indent() {
    let input = "  indented\n    more";
    let result = normalize(input, &cfg());
    assert!(result.contains("  indented"));
    assert!(result.contains("    more"));
}

#[test]
fn empty_input() {
    assert_eq!(normalize("", &cfg()), "");
}

#[test]
fn normalize_without_dedup_keeps_repeats() {
    let config = GlobalConfig { deduplicate_lines: false };
    assert_eq!(normalize("foo\nfoo  \r\n\n \nbar", &config), "foo\nfoo\n\nbar");
}

#[test]
fn normalize_twice_is_normalize_once() {
    let inputs = ["a  \n\n\n b\t\nb\t\nc", "x\r\ny \r\n\r\n\r\nz", "  \n  \nq", "same\nsame\n\nsame"];
    for input in inputs {
        for dedup in [true, false] {
            let c = GlobalConfig { deduplicate_lines: dedup };
            let once = normalize(input, &c);
            assert!(!once.ends_with('\n'));
            assert_eq!(normalize(&once, &c), once);
        }
    }
}

#[test]
fn hamming_laws_on_values() {
    let (a, b, c) = (0xdead_beef_u64, 0x1234_5678_9abc_def0_u64, 0x0f0f_0f0f_0f0f_0f0f_u64);
    assert_eq!(hamming(a, b), (a ^ b).count_ones());
    assert!(hamming(a, b) <= hamming(a, c) + hamming(c, b));
    assert_eq!(hamming(a, a), 0);
    assert!(hamming(a, a ^ 1) > 0);
}

#[test]
fn simhash_ignores_token_order_and_uniform_repetition() {
    assert_eq!(simhash("alpha beta gamma"), simhash("gamma  alpha\tbeta"));
    assert_eq!(simhash("alpha beta"), simhash("beta alpha alpha beta"));
    assert_eq!(simhash("x y z"), simhash("z z z y y y x x x"));
}

#[test]
fn fnv1a_values_and_append() {
    assert_eq!(fnv1a(&[]), 0xcbf2_9ce4_8422_2325);
    assert_eq!(fnv1a(b"a"), 0xaf63_dc4c_8601_ec8c);
    let bytes = b"hello";
    let more = [&bytes[..], &[b'!']].concat();
    assert_eq!(fnv1a(&more), (fnv1a(bytes) ^ b'!' as u64).wrapping_mul(0x0000_0100_0000_01b3));
}
