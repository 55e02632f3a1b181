use jevr::jev::schemas::Question;
use jevr::verify::{all_failed, batch_questions, build_batches, content_key, group_by_file};
use jevr::walk::FileKind;

#[test]
fn batches_carry_the_file_and_kind_of_every_window() {
    let text = (1..=300).map(|i| format!("{i}\n")).collect::<String>();
    let batches = build_batches("src/x.rs", FileKind::Code, &text);
    assert_eq!(batches.len(), 1);
    assert_eq!(batches[0].file, "src/x.rs");
    assert_eq!(batches[0].kind, FileKind::Code);
    let ranges: Vec<(usize, usize)> = batches[0].windows.iter().map(|w| (w.start, w.end)).collect();
    assert_eq!(ranges, vec![(1, 100), (81, 180), (161, 260), (241, 300)]);
}

#[test]
fn empty_files_make_no_batches() {
    assert!(build_batches("empty.md", FileKind::Doc, "").is_empty());
}

#[test]
fn documents_travel_under_a_text_key() {
    assert_eq!(content_key(FileKind::Doc), "text");
    assert_eq!(content_key(FileKind::Code), "code");
}

#[test]
fn every_batch_asks_one_question_per_window_and_the_file_question_twice() {
    let qs = batch_questions(FileKind::Doc, 2);
    let keys: Vec<&str> = qs.iter().map(|(k, _)| k.as_str()).collect();
    assert_eq!(keys, vec!["window_0", "window_1", "file", "file_b"]);
    match &qs[1].1 {
        Question::Noul { instructions, .. } => {
            assert!(instructions.starts_with("Is the text in `windows[1].text`"))
        }
        _ => panic!("expected a noul"),
    }
    match (&qs[2].1, &qs[3].1) {
        (
            Question::Noul { instructions: a, .. },
            Question::Noul { instructions: b, .. },
        ) => {
            assert_eq!(a, b);
            assert!(a.contains("the document at `file`"));
        }
        _ => panic!("expected nouls"),
    }
    let code = batch_questions(FileKind::Code, 0);
    assert_eq!(code.len(), 2);
    match &code[0].1 {
        Question::Noul { instructions, .. } => assert!(instructions.contains("the file at `file`")),
        _ => panic!("expected a noul"),
    }
}

#[test]
fn outcomes_group_by_file_in_sorted_order_keeping_arrival_order() {
    let files: Vec<String> = ["b.rs", "a.md", "b.rs", "c.rs", "a.md", "b.rs"]
        .iter()
        .map(|s| s.to_string())
        .collect();
    let groups = group_by_file(&files);
    assert_eq!(
        groups,
        vec![
            ("a.md".to_string(), vec![1, 4]),
            ("b.rs".to_string(), vec![0, 2, 5]),
            ("c.rs".to_string(), vec![3]),
        ]
    );
    assert!(group_by_file(&[]).is_empty());
}

#[test]
fn a_file_errors_only_when_every_batch_failed() {
    let failed = vec![true, false, true, true];
    assert!(all_failed(&[0, 2, 3], &failed));
    assert!(!all_failed(&[0, 1, 3], &failed));
    assert!(all_failed(&[], &failed));
}
