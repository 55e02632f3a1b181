use jevr::candidates::{select_grep_hits, union_candidates};

#[test]
fn union_deduplicates_across_variants_and_grep() {
    let variants = vec![
        vec!["a.rs".to_string(), "b.rs".to_string()],
        vec!["b.rs".to_string(), "c.rs".to_string()],
    ];
    let grep = vec!["c.rs".to_string(), "d.rs".to_string()];
    assert_eq!(
        union_candidates(&variants, &grep),
        vec!["a.rs", "b.rs", "c.rs", "d.rs"]
    );
}

#[test]
fn union_of_nothing_is_empty() {
    assert!(union_candidates(&[], &[]).is_empty());
}

#[test]
fn union_sorts_unordered_input() {
    let variants = vec![vec!["z.rs".to_string(), "m.rs".to_string(), "a.rs".to_string()]];
    assert_eq!(union_candidates(&variants, &[]), vec!["a.rs", "m.rs", "z.rs"]);
}

#[test]
fn grep_hits_keep_only_walked_files_once_and_sorted() {
    let outputs = vec![
        "src/b.rs\nvendor/x.rs\nsrc/a.rs\n".to_string(),
        "src/a.rs\nREADME.md".to_string(),
        String::new(),
    ];
    let walked = vec![
        "src/a.rs".to_string(),
        "src/b.rs".to_string(),
        "README.md".to_string(),
        "src/c.rs".to_string(),
    ];
    assert_eq!(
        select_grep_hits(&outputs, &walked),
        vec!["README.md", "src/a.rs", "src/b.rs"]
    );
}

#[test]
fn grep_hits_without_walked_files_are_empty() {
    let outputs = vec!["src/a.rs\n".to_string()];
    assert!(select_grep_hits(&outputs, &[]).is_empty());
}

#[test]
fn union_ignores_order_and_repetition() {
    let a = union_candidates(
        &[vec!["b.rs".to_string(), "a.rs".to_string()], vec!["c.rs".to_string()]],
        &["a.rs".to_string()],
    );
    let b = union_candidates(
        &[vec!["c.rs".to_string(), "c.rs".to_string()]],
        &["a.rs".to_string(), "b.rs".to_string()],
    );
    assert_eq!(a, b);
    assert_eq!(a, vec!["a.rs", "b.rs", "c.rs"]);
}
