use jevr::jev::questions::{
    doc_file_membership, doc_window_membership, file_ids, file_membership, listwise_rank,
    window_membership,
};
use jevr::jev::schemas::Question;

fn noul(q: Question) -> (String, String, String) {
    match q {
        Question::Noul {
            instructions,
            criteria: Some(c),
        } => (instructions, c.true_means, c.false_means),
        _ => panic!("expected a noul with criteria"),
    }
}

#[test]
fn doc_questions_serialize_with_text_paths_and_coverage_criteria() {
    let (instructions, true_means, false_means) = noul(doc_window_membership(3));
    assert_eq!(
        instructions,
        "Is the text in `windows[3].text` from the document at `file` part \
         of the material that covers `concept`, either addressing it directly \
         or serving as its dedicated supporting content (definitions, \
         examples, configuration, references)?"
    );
    assert_eq!(
        true_means,
        "Covers the concept, or is a definition/example/configuration/reference \
         that exists specifically to support it"
    );
    assert_eq!(
        false_means,
        "Merely mentions it in passing, or touches the concept incidentally \
         while covering something else"
    );

    let (file_instructions, file_true, file_false) = noul(doc_file_membership());
    assert_eq!(
        file_instructions,
        "Considering all windows shown, is the document at `file` part of the \
         material that covers `concept`, including its dedicated supporting \
         content?"
    );
    assert_eq!((file_true, file_false), (true_means, false_means));
}

#[test]
fn listwise_rank_keeps_the_code_phrasing_byte_identical_without_docs() {
    match listwise_rank(vec!["f0".to_string()], false) {
        Question::Choice { instructions, .. } => assert_eq!(
            instructions,
            "Which file in `files` most likely implements what `concept` describes?"
        ),
        _ => panic!("expected a choice"),
    }
    match listwise_rank(vec!["f0".to_string()], true) {
        Question::Choice { instructions, .. } => assert_eq!(
            instructions,
            "Which file in `files` most likely contains what `concept` describes?"
        ),
        _ => panic!("expected a choice"),
    }
}

#[test]
fn code_questions_use_the_membership_phrasing() {
    let (instructions, true_means, false_means) = noul(window_membership(12));
    assert_eq!(
        instructions,
        "Is the code in `windows[12].code` from the file at `file` part of the subsystem \
         responsible for `concept`, either implementing it directly or serving as its \
         dedicated supporting code (features, buffers, configuration, data access)?"
    );
    assert_eq!(
        true_means,
        "Implements the concept, or is configuration/data/feature code that exists \
         specifically to support it"
    );
    assert_eq!(
        false_means,
        "Merely imports, logs, mentions it in a comment, or touches the concept \
         incidentally while doing something else"
    );
    let (file_instructions, _, _) = noul(file_membership());
    assert_eq!(
        file_instructions,
        "Considering all windows shown, is the file at `file` part of the subsystem \
         responsible for `concept`, including its dedicated supporting code?"
    );
}

#[test]
fn rerank_options_are_the_sorted_file_ids_without_descriptions() {
    let ids = file_ids(12);
    assert_eq!(ids[0], "f0");
    assert_eq!(ids[11], "f11");
    assert_eq!(ids.len(), 12);
    match listwise_rank(ids, false) {
        Question::Choice { criteria, .. } => {
            let keys: Vec<&str> = criteria.iter().map(|(k, _)| k.as_str()).collect();
            assert_eq!(
                keys,
                vec!["f0", "f1", "f10", "f11", "f2", "f3", "f4", "f5", "f6", "f7", "f8", "f9"]
            );
            assert!(criteria.iter().all(|(_, d)| d.is_none()));
        }
        _ => panic!("expected a choice"),
    }
}

#[test]
fn duplicate_rerank_ids_collapse_to_one_option() {
    match listwise_rank(vec!["f1".to_string(), "f0".to_string(), "f1".to_string()], true) {
        Question::Choice { criteria, .. } => {
            let keys: Vec<&str> = criteria.iter().map(|(k, _)| k.as_str()).collect();
            assert_eq!(keys, vec!["f0", "f1"]);
        }
        _ => panic!("expected a choice"),
    }
}
