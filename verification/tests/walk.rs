use jevr::walk::{
    is_code_extension, is_doc_extension, is_searchable, is_skipped_dir, kind_of, FileKind,
};

#[test]
fn kind_follows_the_extension_and_defaults_to_code() {
    assert_eq!(kind_of("docs/guide.md"), FileKind::Doc);
    assert_eq!(kind_of("notes.TXT"), FileKind::Code);
    assert_eq!(kind_of("src/main.rs"), FileKind::Code);
    assert_eq!(kind_of("Makefile"), FileKind::Code);
}

#[test]
fn generated_and_dependency_directories_are_skipped() {
    assert!(is_skipped_dir("project/node_modules"));
    assert!(is_skipped_dir("project/target"));
    assert!(!is_skipped_dir("project/src"));
}

#[test]
fn skip_list_matches_whole_names_only() {
    assert!(is_skipped_dir(".git"));
    assert!(is_skipped_dir("a/b/__pycache__"));
    assert!(!is_skipped_dir("project/targets"));
    assert!(!is_skipped_dir("project/Target"));
    assert!(!is_skipped_dir(""));
}

#[test]
fn extension_lists_are_case_sensitive() {
    assert!(is_code_extension("rs"));
    assert!(is_code_extension("toml"));
    assert!(!is_code_extension("RS"));
    assert!(!is_code_extension("md"));
    assert!(is_doc_extension("md"));
    assert!(is_doc_extension("asciidoc"));
    assert!(!is_doc_extension("pdf"));
    assert!(!is_doc_extension("MD"));
}

#[test]
fn only_code_and_document_files_are_searchable() {
    assert!(is_searchable("src/lib.rs"));
    assert!(is_searchable("docs/GUIDE.md"));
    assert!(!is_searchable("report.pdf"));
    assert!(!is_searchable("Makefile"));
    assert!(!is_searchable(".gitignore"));
}

#[test]
fn the_extension_follows_the_last_dot_of_the_file_name() {
    assert_eq!(kind_of("book.v2.md"), FileKind::Doc);
    assert_eq!(kind_of("docs.md/readme"), FileKind::Code);
    assert_eq!(kind_of(".md"), FileKind::Code);
    assert!(is_searchable("a/b/c.tar.rs"));
    assert!(!is_searchable("notes."));
    assert!(!is_searchable(".rs"));
    assert!(is_searchable("dir/.hidden.rs"));
}
