use jevr::pipeline::{
    candidate_list, check_limits, config_source, grep_keywords, head_text, is_blank,
    ConfigSource, LimitError, HEAD_LINES,
};
use jevr::text::trim;

#[test]
fn blank_queries_are_detected() {
    assert!(is_blank("   "));
    assert!(is_blank(""));
    assert!(is_blank("\t\n \u{3000}"));
    assert!(!is_blank("  where is the retry loop? "));
}

#[test]
fn trim_removes_unicode_whitespace_at_both_ends_only() {
    assert_eq!(trim("  a b \t"), "a b");
    assert_eq!(trim("\u{2003}x\u{2003}"), "x");
    assert_eq!(trim("   "), "");
    assert_eq!(trim("xy"), "xy");
}

#[test]
fn limits_report_zero_concurrency_first() {
    assert_eq!(check_limits(0, 0, 0, 0), Err(LimitError::Concurrency));
    assert_eq!(check_limits(32, 0, 10, 25), Err(LimitError::Counts));
    assert_eq!(check_limits(32, 30, 0, 25), Err(LimitError::Counts));
    assert_eq!(check_limits(32, 30, 10, 0), Err(LimitError::Counts));
    assert_eq!(check_limits(32, 30, 10, 25), Ok(()));
    assert_eq!(check_limits(1, 1, 1, 1), Ok(()));
}

#[test]
fn grep_keywords_split_variants_at_commas() {
    let variants = vec![
        "retry, backoff ,".to_string(),
        "  jitter ".to_string(),
        ",,".to_string(),
    ];
    assert_eq!(grep_keywords(&variants), vec!["retry", "backoff", "jitter"]);
    assert!(grep_keywords(&[]).is_empty());
}

#[test]
fn candidate_files_list_one_path_per_line() {
    assert_eq!(
        candidate_list("src/a.rs\r\n\n  src/b.rs  \n   \nsrc/c.rs"),
        vec!["src/a.rs", "src/b.rs", "src/c.rs"]
    );
    assert!(candidate_list("").is_empty());
}

#[test]
fn heads_keep_the_first_twenty_five_lines() {
    assert_eq!(HEAD_LINES, 25);
    let text: String = (1..=40).map(|i| format!("l{i}\n")).collect();
    let expected = (1..=25).map(|i| format!("l{i}")).collect::<Vec<_>>().join("\n");
    assert_eq!(head_text(&text), expected);
    assert_eq!(head_text("a\r\nb"), "a\nb");
    assert_eq!(head_text(""), "");
}

#[test]
fn the_first_configuration_file_found_wins() {
    assert_eq!(config_source(true, true, true), ConfigSource::Explicit);
    assert_eq!(config_source(false, true, true), ConfigSource::Repo);
    assert_eq!(config_source(false, false, true), ConfigSource::User);
    assert_eq!(config_source(false, false, false), ConfigSource::Defaults);
}
