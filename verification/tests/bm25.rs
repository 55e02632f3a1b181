use jevr::bm25::{tokenize, Bm25Index};

#[test]
fn tokenizer_splits_snake_camel_and_acronyms() {
    assert_eq!(
        tokenize("sendCampaign snake_case HTTPResponse"),
        vec![
            "send",
            "campaign",
            "sendcampaign",
            "snake",
            "case",
            "snake_case",
            "http",
            "response",
            "httpresponse",
        ]
    );
}

#[test]
fn tokenizer_keeps_non_ascii_prose_words_whole() {
    assert_eq!(tokenize("Café in Zürich"), vec!["café", "in", "zürich"]);
}

#[test]
fn tokenizer_drops_numbers_and_oversized_blobs() {
    let blob = "x".repeat(41);
    assert_eq!(
        tokenize(&format!("42 {blob} v2ray")),
        vec!["v", "ray", "v2ray"]
    );
}

#[test]
fn tokenizer_keeps_a_forty_character_identifier() {
    let word = "y".repeat(40);
    assert_eq!(tokenize(&word), vec![word.clone()]);
}

#[test]
fn tokenizer_of_empty_and_punctuation_only_text_is_empty() {
    assert!(tokenize("").is_empty());
    assert!(tokenize("  ,;  (){} ").is_empty());
}

#[test]
fn tokenizer_lowercases_plain_words_without_parts() {
    assert_eq!(tokenize("Hello WORLD"), vec!["hello", "world"]);
}

fn corpus() -> Vec<(String, String)> {
    vec![
        (
            "kelly.py".to_string(),
            "def kelly_criterion(bankroll): pass".to_string(),
        ),
        ("fees.py".to_string(), "def taker_fee(): pass".to_string()),
        ("misc.py".to_string(), "unrelated content entirely".to_string()),
    ]
}

#[test]
fn index_counts_documents_and_lengths() {
    let index = Bm25Index::build(corpus());
    assert_eq!(index.num_docs(), 3);
    assert_eq!(index.path(0), "kelly.py");
    assert_eq!(index.path(2), "misc.py");
    // "def kelly criterion kelly_criterion bankroll pass" + "kelly py"
    assert_eq!(index.doc_len(0), 8);
    // "unrelated content entirely" + "misc py"
    assert_eq!(index.doc_len(2), 5);
}

#[test]
fn postings_list_documents_in_order_with_term_frequencies() {
    let index = Bm25Index::build(corpus());
    assert_eq!(index.postings("def").unwrap(), &vec![(0, 1), (1, 1)]);
    assert_eq!(index.postings("kelly").unwrap(), &vec![(0, 2)]);
    assert_eq!(index.postings("py").unwrap(), &vec![(0, 1), (1, 1), (2, 1)]);
    assert!(index.postings("zzz").is_none());
}

#[test]
fn path_tokens_are_indexed_with_the_content() {
    let docs = vec![
        ("src/circuit_breaker.py".to_string(), "x = 1".to_string()),
        ("src/other.py".to_string(), "y = 2".to_string()),
    ];
    let index = Bm25Index::build(docs);
    assert_eq!(index.postings("circuit").unwrap(), &vec![(0, 1)]);
    assert_eq!(index.postings("breaker").unwrap(), &vec![(0, 1)]);
    assert_eq!(index.postings("src").unwrap(), &vec![(0, 1), (1, 1)]);
}

#[test]
fn query_terms_are_sorted_and_distinct() {
    assert_eq!(
        Bm25Index::query_terms("kelly criterion bet size kelly"),
        vec!["bet", "criterion", "kelly", "size"]
    );
    assert!(Bm25Index::query_terms("zzz-no-such-term").contains(&"zzz".to_string()));
}

#[test]
fn tokenizer_drops_numbers_in_any_script() {
    assert_eq!(
        tokenize("٤٢ and ½ plus ① or Ⅻ"),
        vec!["and", "plus", "or"]
    );
    assert_eq!(tokenize("x٤٢"), vec!["x٤٢"]);
    assert!(tokenize("٤٢_٣").is_empty());
}

#[test]
fn checked_build_indexes_an_ordinary_corpus() {
    let index = Bm25Index::try_build(corpus()).expect("small corpus fits");
    assert_eq!(index.num_docs(), 3);
    assert_eq!(index.postings("kelly").unwrap(), &vec![(0, 2)]);
    assert_eq!(Bm25Index::try_build(Vec::new()).map(|i| i.num_docs()), Some(0));
}
