use jevr::output::{result_location, select_mode, snippet_block, Mode};

fn snippets_output(snippet: &str, cap: usize) -> String {
    let lines = snippet.lines().count();
    format!(
        "{}  0.95\n{}",
        result_location("src/lib.rs", Some((10, 10 + lines - 1))),
        snippet_block("src/lib.rs", 10, 10 + lines - 1, snippet, cap)
    )
}

#[test]
fn long_snippets_are_capped_with_a_read_pointer() {
    let snippet: String = (0..40).map(|i| format!("line{i}\n")).collect();
    let out = snippets_output(snippet.trim_end(), 3);
    assert!(out.contains("10: line0"));
    assert!(out.contains("12: line2"));
    assert!(!out.contains("13: line3"));
    assert!(out.contains("... 37 more lines through 49 (Read src/lib.rs:13-49 for the rest)"));
}

#[test]
fn short_snippets_print_whole_without_a_marker() {
    let out = snippets_output("only\ntwo", 25);
    assert!(out.contains("10: only"));
    assert!(out.contains("11: two"));
    assert!(!out.contains("more lines"));
}

#[test]
fn snippet_block_is_exact() {
    assert_eq!(
        snippet_block("a.rs", 5, 7, "x\ny\nz", 2),
        "5: x\n6: y\n... 1 more lines through 7 (Read a.rs:7-7 for the rest)\n\n"
    );
    assert_eq!(snippet_block("a.rs", 5, 6, "x\ny", 2), "5: x\n6: y\n\n");
    assert_eq!(snippet_block("a.rs", 1, 1, "", 2), "\n");
}

#[test]
fn locations_name_the_best_window() {
    assert_eq!(result_location("src/lib.rs", Some((12, 140))), "src/lib.rs:12-140");
    assert_eq!(result_location("notes.md", None), "notes.md");
}

#[test]
fn snippets_flag_wins_over_json() {
    assert_eq!(select_mode(true, true), Mode::Snippets);
    assert_eq!(select_mode(false, true), Mode::Json);
    assert_eq!(select_mode(false, false), Mode::PathsOnly);
}
