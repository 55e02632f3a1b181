//! File kinds and the walk's filters.
//!
//! Dependency and build-output directories are skipped; a file's kind
//! selects which Jev question set verifies it (code membership vs document
//! coverage). Extensions are compared case-sensitively.

use vstd::prelude::*;
use crate::text::{chars_of, str_in, str_views, string_from_chars};

verus! {

broadcast use vstd::string::group_string_axioms;

/// Directory names whose subtrees are never walked.
pub const SKIP_DIRS: [&'static str; 12] = [
    ".git", ".next", ".venv", "__pycache__", "build", "coverage", "dist", "node_modules", "out",
    "target", "vendor", "venv",
];

/// Source-code extensions.
pub const CODE_EXTENSIONS: [&'static str; 25] = [
    "rs", "js", "jsx", "ts", "tsx", "py", "go", "java", "kt", "kts", "rb", "php", "c", "h", "cpp",
    "hpp", "cs", "swift", "scala", "sh", "sql", "yaml", "yml", "json", "toml",
];

/// Prose/document extensions (binary formats such as PDF are excluded).
pub const DOC_EXTENSIONS: [&'static str; 12] = [
    "adoc", "asciidoc", "htm", "html", "markdown", "md", "mdx", "org", "rst", "tex", "text", "txt",
];

/// Content kind of a searchable file.
#[derive(Clone, Copy, PartialEq, Eq, Debug, Structural)]
pub enum FileKind {
    Code,
    Doc,
}

/// The last component that `Path::file_name` finds in a path.
pub uninterp spec fn path_file_name(path: Seq<char>) -> Option<Seq<char>>;

pub open spec fn string_option_view(o: Option<String>) -> Option<Seq<char>> {
    match o {
        Some(s) => Some(s@),
        None => None,
    }
}

/// Index of the last `.` of a file name, or -1 when it has none.
pub open spec fn last_dot(name: Seq<char>) -> int
    decreases name.len(),
{
    if name.len() == 0 {
        -1
    } else if name.last() == '.' {
        name.len() - 1
    } else {
        last_dot(name.drop_last())
    }
}

/// The extension of a path with the given file name, by the rules that
/// `Path::extension` documents: none without a file name, none when the
/// name has no `.` or its only `.` leads it, otherwise the part after the
/// last `.`.
pub open spec fn path_extension(path: Seq<char>) -> Option<Seq<char>> {
    match path_file_name(path) {
        Some(name) => if last_dot(name) <= 0 {
            None
        } else {
            Some(name.skip(last_dot(name) + 1))
        },
        None => None,
    }
}

/// The extension of `path`: what follows the last `.` of its file name,
/// none when the name has no `.` or only a leading one (the rules that
/// `Path::extension` documents).
fn extension_of(path: &str) -> (e: Option<String>)
    ensures
        string_option_view(e) == path_extension(path@),
{
    match file_name_of(path) {
        Some(name) => {
            let cs = chars_of(name.as_str());
            let ghost n = cs@;
            let mut i: usize = cs.len();
            proof {
                assert(n.take(n.len() as int) =~= n);
            }
            while i > 0 && cs[i - 1] != '.'
                invariant
                    n == cs@,
                    i <= n.len(),
                    last_dot(n) == last_dot(n.take(i as int)),
                decreases i,
            {
                proof {
                    assert(n.take(i as int).drop_last() =~= n.take(i - 1));
                }
                i -= 1;
            }
            proof {
                if i > 0 {
                    assert(n.take(i as int).last() == n[i - 1]);
                } else {
                    assert(n.take(0) =~= Seq::<char>::empty());
                }
            }
            if i <= 1 {
                None
            } else {
                let ext = string_from_chars(&cs[i..cs.len()]);
                proof {
                    assert(ext@ =~= n.skip(last_dot(n) + 1));
                }
                Some(ext)
            }
        },
        None => None,
    }
}

/// Calls `std::path::Path::file_name` on `path`; the contract claims only
/// that the result is a fixed function of the path's characters.
#[verifier::external_body]
fn file_name_of(path: &str) -> (n: Option<String>)
    ensures
        string_option_view(n) == path_file_name(path@),
{
    match std::path::Path::new(path).file_name() {
        Some(name) => name.to_str().map(str::to_owned),
        None => None,
    }
}

pub open spec fn code_extensions() -> Seq<Seq<char>> {
    str_views(CODE_EXTENSIONS@)
}

pub open spec fn doc_extensions() -> Seq<Seq<char>> {
    str_views(DOC_EXTENSIONS@)
}

pub open spec fn skip_dirs() -> Seq<Seq<char>> {
    str_views(SKIP_DIRS@)
}

/// The kind a path's extension selects: documents by their extension,
/// everything else (unknown or missing extensions included) code.
pub open spec fn spec_kind_of(path: Seq<char>) -> FileKind {
    match path_extension(path) {
        Some(ext) => if doc_extensions().contains(ext) {
            FileKind::Doc
        } else {
            FileKind::Code
        },
        None => FileKind::Code,
    }
}

/// Kind by extension; unknown or missing extensions default to Code.
pub fn kind_of(path: &str) -> (k: FileKind)
    ensures
        k == spec_kind_of(path@),
{
    match extension_of(path) {
        Some(ext) => if is_doc_extension(ext.as_str()) {
            FileKind::Doc
        } else {
            FileKind::Code
        },
        None => FileKind::Code,
    }
}

/// Whether the last component of `path` names a skipped directory.
pub fn is_skipped_dir(path: &str) -> (b: bool)
    ensures
        b == (path_file_name(path@) matches Some(name) && skip_dirs().contains(name)),
{
    match file_name_of(path) {
        Some(name) => str_in(name.as_str(), &SKIP_DIRS),
        None => false,
    }
}

/// Whether `extension` is a source-code extension.
pub fn is_code_extension(extension: &str) -> (b: bool)
    ensures
        b == code_extensions().contains(extension@),
{
    str_in(extension, &CODE_EXTENSIONS)
}

/// Whether `extension` is a prose/document extension.
pub fn is_doc_extension(extension: &str) -> (b: bool)
    ensures
        b == doc_extensions().contains(extension@),
{
    str_in(extension, &DOC_EXTENSIONS)
}

/// Whether a walked file is searchable: code or document by extension.
pub fn is_searchable(path: &str) -> (b: bool)
    ensures
        b == (path_extension(path@) matches Some(ext) && (code_extensions().contains(ext)
            || doc_extensions().contains(ext))),
{
    match extension_of(path) {
        Some(ext) => is_code_extension(ext.as_str()) || is_doc_extension(ext.as_str()),
        None => false,
    }
}

} // verus!
