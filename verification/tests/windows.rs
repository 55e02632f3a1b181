use jevr::windows::{
    push_bounded_windows, utf8_chunks, window_batches, windows, CodeWindow,
    MAX_REQUEST_SOURCE_BYTES, MAX_WINDOWS_PER_REQUEST, MAX_WINDOW_BYTES, OVERLAP, WINDOW,
};

#[test]
fn windows_have_one_based_ranges_and_overlap() {
    let text = (1..=180)
        .map(|i| i.to_string())
        .collect::<Vec<_>>()
        .join("\n");
    let result = windows(&text);
    assert_eq!((result[0].start, result[0].end), (1, 100));
    assert_eq!((result[1].start, result[1].end), (81, 180));
}

#[test]
fn large_minified_files_are_split_into_bounded_requests() {
    let text = "é".repeat(MAX_WINDOW_BYTES * 8);
    let windows = windows(&text);
    assert!(windows.len() > 1);
    assert_eq!(
        windows
            .iter()
            .map(|window| window.snippet.as_str())
            .collect::<String>(),
        text
    );
    assert!(windows.iter().all(|window| {
        window.start == 1
            && window.end == 1
            && window.snippet.len() <= MAX_WINDOW_BYTES
            && window.snippet.is_char_boundary(window.snippet.len())
    }));
    assert!(window_batches(&windows).iter().all(|batch| {
        batch.len() <= MAX_WINDOWS_PER_REQUEST
            && batch
                .iter()
                .map(|window| window.snippet.len())
                .sum::<usize>()
                <= MAX_REQUEST_SOURCE_BYTES
    }));
}

#[test]
fn window_constants_are_the_measured_envelope() {
    assert_eq!(WINDOW, 100);
    assert_eq!(OVERLAP, 20);
    assert_eq!(MAX_WINDOW_BYTES, 12_000);
    assert_eq!(MAX_REQUEST_SOURCE_BYTES, 24_000);
    assert_eq!(MAX_WINDOWS_PER_REQUEST, 24);
}

#[test]
fn empty_text_has_no_windows() {
    assert!(windows("").is_empty());
}

#[test]
fn short_text_is_one_window_with_its_lines() {
    let result = windows("a\r\nb\nc\n");
    assert_eq!(result.len(), 1);
    assert_eq!((result[0].start, result[0].end), (1, 3));
    assert_eq!(result[0].snippet, "a\nb\nc");
}

#[test]
fn third_window_starts_eighty_lines_after_the_second() {
    let text = (1..=300)
        .map(|i| i.to_string())
        .collect::<Vec<_>>()
        .join("\n");
    let ranges: Vec<(usize, usize)> = windows(&text).iter().map(|w| (w.start, w.end)).collect();
    assert_eq!(ranges, vec![(1, 100), (81, 180), (161, 260), (241, 300)]);
}

#[test]
fn chunks_respect_the_cap_and_char_boundaries() {
    let chunks = utf8_chunks("aé€😀b", 4);
    assert_eq!(chunks, vec!["aé", "€", "😀", "b"]);
    assert_eq!(utf8_chunks("", 3), Vec::<&str>::new());
    assert_eq!(utf8_chunks("abcdefg", 3), vec!["abc", "def", "g"]);
}

#[test]
fn oversized_line_becomes_its_own_chunk_windows() {
    let long = "x".repeat(MAX_WINDOW_BYTES + 5);
    let lines = vec!["first", long.as_str(), "last"];
    let mut result: Vec<CodeWindow> = Vec::new();
    push_bounded_windows(&mut result, &lines, 7);
    let ranges: Vec<(usize, usize, usize)> = result
        .iter()
        .map(|w| (w.start, w.end, w.snippet.len()))
        .collect();
    assert_eq!(
        ranges,
        vec![(7, 7, 5), (8, 8, MAX_WINDOW_BYTES), (8, 8, 5), (9, 9, 4)]
    );
}

#[test]
fn lines_pack_until_the_byte_cap() {
    let line = "y".repeat(5_000);
    let lines = vec![line.as_str(), line.as_str(), line.as_str()];
    let mut result: Vec<CodeWindow> = Vec::new();
    push_bounded_windows(&mut result, &lines, 1);
    let ranges: Vec<(usize, usize, usize)> = result
        .iter()
        .map(|w| (w.start, w.end, w.snippet.len()))
        .collect();
    assert_eq!(ranges, vec![(1, 2, 10_001), (3, 3, 5_000)]);
}

#[test]
fn batches_split_at_the_window_count_cap() {
    let ws: Vec<CodeWindow> = (0..50)
        .map(|i| CodeWindow {
            start: i + 1,
            end: i + 1,
            snippet: "z".to_string(),
        })
        .collect();
    let sizes: Vec<usize> = window_batches(&ws).iter().map(|b| b.len()).collect();
    assert_eq!(sizes, vec![24, 24, 2]);
}

#[test]
fn batches_split_at_the_byte_cap() {
    let big = "w".repeat(10_000);
    let ws: Vec<CodeWindow> = (0..5)
        .map(|i| CodeWindow {
            start: i + 1,
            end: i + 1,
            snippet: big.clone(),
        })
        .collect();
    let sizes: Vec<usize> = window_batches(&ws).iter().map(|b| b.len()).collect();
    assert_eq!(sizes, vec![2, 2, 1]);
    assert!(window_batches(&[]).is_empty());
}

#[test]
fn every_run_of_twenty_one_lines_lies_in_one_window() {
    let text = (1..=300)
        .map(|i| format!("line {i}"))
        .collect::<Vec<_>>()
        .join("\n");
    let ranges: Vec<(usize, usize)> = windows(&text).iter().map(|w| (w.start, w.end)).collect();
    for a in 1..=(300 - OVERLAP) {
        let b = a + OVERLAP;
        assert!(
            ranges.iter().any(|&(s, e)| s <= a && b <= e),
            "lines {a}..={b} straddle every window"
        );
    }
    for pair in ranges.windows(2) {
        assert_eq!(pair[1].0, pair[0].1 - OVERLAP + 1);
        assert!(pair[0].1 - pair[0].0 < WINDOW);
    }
}
