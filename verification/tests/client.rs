use jevr::jev::client::{
    cache_file_name, error_detail, is_retryable, next_step, retry_delay, AttemptOutcome,
    NextStep, BASE_DELAY_MS, DETAIL_CHARS, MAX_RETRIES,
};
use std::time::Duration;

#[test]
fn retries_use_exponential_backoff() {
    assert_eq!(MAX_RETRIES, 3);
    assert_eq!(Duration::from_millis(retry_delay(0)), Duration::from_millis(250));
    assert_eq!(Duration::from_millis(retry_delay(1)), Duration::from_millis(500));
    assert_eq!(Duration::from_millis(retry_delay(2)), Duration::from_millis(1000));
}

#[test]
fn cache_path_is_deterministic_and_off_without_dir() {
    let a = cache_file_name("{\"x\":1}");
    let b = cache_file_name("{\"x\":1}");
    assert_eq!(a, b);
    assert_ne!(a, cache_file_name("{\"x\":2}"));
}

#[test]
fn cache_file_name_is_the_hex_sha256_of_the_body() {
    assert_eq!(
        cache_file_name(""),
        "e3b0c44298fc1c149afbf4c8996fb92427ae41e4649b934ca495991b7852b855.json"
    );
    assert_eq!(
        cache_file_name("abc"),
        "ba7816bf8f01cfea414140de5dae2223b00361a396177a9cb410ff61f20015ad.json"
    );
}

#[test]
fn only_timeouts_rate_limits_and_server_errors_are_retried() {
    assert!(is_retryable(408));
    assert!(is_retryable(429));
    assert!(is_retryable(500));
    assert!(is_retryable(503));
    assert!(is_retryable(599));
    assert!(!is_retryable(400));
    assert!(!is_retryable(401));
    assert!(!is_retryable(404));
    assert!(!is_retryable(600));
}

#[test]
fn retry_policy_waits_then_gives_up_after_the_last_attempt() {
    assert_eq!(BASE_DELAY_MS, 250);
    assert!(matches!(next_step(0, AttemptOutcome::Success), NextStep::Done));
    assert!(matches!(next_step(0, AttemptOutcome::Status(404)), NextStep::Fail));
    assert!(matches!(next_step(3, AttemptOutcome::Status(401)), NextStep::Fail));
    assert!(matches!(
        next_step(0, AttemptOutcome::Status(503)),
        NextStep::RetryAfter(250)
    ));
    assert!(matches!(
        next_step(1, AttemptOutcome::Transport),
        NextStep::RetryAfter(500)
    ));
    assert!(matches!(
        next_step(2, AttemptOutcome::Status(429)),
        NextStep::RetryAfter(1000)
    ));
    assert!(matches!(
        next_step(3, AttemptOutcome::Status(429)),
        NextStep::GiveUp
    ));
    assert!(matches!(next_step(3, AttemptOutcome::Transport), NextStep::GiveUp));
}

#[test]
fn a_request_that_always_fails_transiently_makes_four_attempts() {
    let mut attempts = 0;
    let mut waited = Vec::new();
    let mut retry = 0;
    loop {
        attempts += 1;
        match next_step(retry, AttemptOutcome::Transport) {
            NextStep::RetryAfter(ms) => {
                waited.push(ms);
                retry += 1;
            }
            NextStep::GiveUp => break,
            _ => panic!("unexpected step"),
        }
    }
    assert_eq!(attempts, 4);
    assert_eq!(waited, vec![250, 500, 1000]);
}

#[test]
fn error_detail_keeps_the_first_five_hundred_characters() {
    assert_eq!(DETAIL_CHARS, 500);
    let body = "é".repeat(600);
    assert_eq!(error_detail(&body), "é".repeat(500));
    assert_eq!(error_detail("short"), "short");
}
