use jevr::expansion::{variants, MAX_VARIANTS};

#[test]
fn keywords_pass_through_capped_at_four() {
    let keywords: Vec<String> = ["a", "b", "c", "d", "e"]
        .iter()
        .map(|s| s.to_string())
        .collect();
    assert_eq!(variants("ignored", &keywords), keywords[..4].to_vec());
}

#[test]
fn fallback_strips_stopwords() {
    assert_eq!(
        variants("where does the websocket reconnection happen?", &[]),
        vec!["websocket reconnection"]
    );
}

#[test]
fn all_stopword_concept_falls_back_to_itself() {
    assert_eq!(variants("where is it", &[]), vec!["where is it"]);
}

#[test]
fn fewer_keywords_than_the_cap_pass_through_whole() {
    let keywords = vec!["retry, backoff".to_string(), "jitter".to_string()];
    assert_eq!(variants("anything", &keywords), keywords);
    assert_eq!(MAX_VARIANTS, 4);
}

#[test]
fn stopword_fallback_collapses_whitespace_runs() {
    assert_eq!(
        variants("  How   does\tthe   Retry   Backoff work ", &[]),
        vec!["Retry Backoff work"]
    );
}

#[test]
fn there_are_always_one_to_four_variants() {
    let many: Vec<String> = (0..9).map(|i| format!("k{i}")).collect();
    assert_eq!(variants("q", &many).len(), 4);
    assert_eq!(variants("", &[]).len(), 1);
    assert_eq!(variants("", &[]), vec![""]);
    assert_eq!(variants("the", &[]), vec!["the"]);
}
