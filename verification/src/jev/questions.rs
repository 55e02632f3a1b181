//! Question builders.
//!
//! Subsystem-membership phrasing with the concept referenced by a backticked
//! state path; the concept string lives in the request state, never inside
//! the instructions. Documents get their own coverage phrasing, under a
//! `text` state key, so the instructions never call prose "code".

use vstd::prelude::*;
use crate::candidates::union_candidates;
use crate::jev::schemas::{CriteriaView, NoulCriteria, Question, QuestionView};
use crate::text::{decimal, decimal_string, strictly_sorted, strings_view};

verus! {

broadcast use vstd::string::group_string_axioms;

pub const WINDOW_QUESTION_HEAD: &'static str = "Is the code in `windows[";

pub const WINDOW_QUESTION_TAIL: &'static str = "].code` from the file at `file` part of the subsystem responsible for `concept`, either implementing it directly or serving as its dedicated supporting code (features, buffers, configuration, data access)?";

pub const FILE_QUESTION: &'static str = "Considering all windows shown, is the file at `file` part of the subsystem responsible for `concept`, including its dedicated supporting code?";

pub const MEMBERSHIP_TRUE: &'static str = "Implements the concept, or is configuration/data/feature code that exists specifically to support it";

pub const MEMBERSHIP_FALSE: &'static str = "Merely imports, logs, mentions it in a comment, or touches the concept incidentally while doing something else";

pub const DOC_WINDOW_QUESTION_HEAD: &'static str = "Is the text in `windows[";

pub const DOC_WINDOW_QUESTION_TAIL: &'static str = "].text` from the document at `file` part of the material that covers `concept`, either addressing it directly or serving as its dedicated supporting content (definitions, examples, configuration, references)?";

pub const DOC_FILE_QUESTION: &'static str = "Considering all windows shown, is the document at `file` part of the material that covers `concept`, including its dedicated supporting content?";

pub const DOC_MEMBERSHIP_TRUE: &'static str = "Covers the concept, or is a definition/example/configuration/reference that exists specifically to support it";

pub const DOC_MEMBERSHIP_FALSE: &'static str = "Merely mentions it in passing, or touches the concept incidentally while covering something else";

pub const RANK_CODE_QUESTION: &'static str = "Which file in `files` most likely implements what `concept` describes?";

pub const RANK_DOC_QUESTION: &'static str = "Which file in `files` most likely contains what `concept` describes?";

pub open spec fn membership_criteria_view() -> CriteriaView {
    CriteriaView { true_means: MEMBERSHIP_TRUE@, false_means: MEMBERSHIP_FALSE@ }
}

pub open spec fn doc_membership_criteria_view() -> CriteriaView {
    CriteriaView { true_means: DOC_MEMBERSHIP_TRUE@, false_means: DOC_MEMBERSHIP_FALSE@ }
}

/// Per-window code Noul: subsystem membership of one window, dedicated
/// supporting code included.
pub fn window_membership(window_index: usize) -> (q: Question)
    ensures
        q@ == (QuestionView::Noul {
            instructions: WINDOW_QUESTION_HEAD@ + decimal(window_index as nat)
                + WINDOW_QUESTION_TAIL@,
            criteria: Some(membership_criteria_view()),
        }),
{
    let mut instructions = WINDOW_QUESTION_HEAD.to_owned();
    let index = decimal_string(window_index);
    instructions.append(index.as_str());
    instructions.append(WINDOW_QUESTION_TAIL);
    Question::Noul { instructions, criteria: Some(membership_criteria()) }
}

/// File-level code Noul over all windows shown.
pub fn file_membership() -> (q: Question)
    ensures
        q@ == (QuestionView::Noul {
            instructions: FILE_QUESTION@,
            criteria: Some(membership_criteria_view()),
        }),
{
    Question::Noul { instructions: FILE_QUESTION.to_owned(), criteria: Some(membership_criteria()) }
}

fn membership_criteria() -> (c: NoulCriteria)
    ensures
        c@ == membership_criteria_view(),
{
    NoulCriteria { true_means: MEMBERSHIP_TRUE.to_owned(), false_means: MEMBERSHIP_FALSE.to_owned() }
}

/// Per-window document Noul: the coverage phrasing.
pub fn doc_window_membership(window_index: usize) -> (q: Question)
    ensures
        q@ == (QuestionView::Noul {
            instructions: DOC_WINDOW_QUESTION_HEAD@ + decimal(window_index as nat)
                + DOC_WINDOW_QUESTION_TAIL@,
            criteria: Some(doc_membership_criteria_view()),
        }),
{
    let mut instructions = DOC_WINDOW_QUESTION_HEAD.to_owned();
    let index = decimal_string(window_index);
    instructions.append(index.as_str());
    instructions.append(DOC_WINDOW_QUESTION_TAIL);
    Question::Noul { instructions, criteria: Some(doc_membership_criteria()) }
}

/// File-level document Noul over all windows shown.
pub fn doc_file_membership() -> (q: Question)
    ensures
        q@ == (QuestionView::Noul {
            instructions: DOC_FILE_QUESTION@,
            criteria: Some(doc_membership_criteria_view()),
        }),
{
    Question::Noul {
        instructions: DOC_FILE_QUESTION.to_owned(),
        criteria: Some(doc_membership_criteria()),
    }
}

fn doc_membership_criteria() -> (c: NoulCriteria)
    ensures
        c@ == doc_membership_criteria_view(),
{
    NoulCriteria {
        true_means: DOC_MEMBERSHIP_TRUE.to_owned(),
        false_means: DOC_MEMBERSHIP_FALSE.to_owned(),
    }
}

/// The option ids `f0`, `f1`, … of `n` rerank candidates.
pub open spec fn file_id(i: nat) -> Seq<char> {
    seq!['f'] + decimal(i)
}

/// Ids `f0..f{n-1}` for `n` files.
pub fn file_ids(n: usize) -> (ids: Vec<String>)
    ensures
        strings_view(ids@) == Seq::new(n as nat, |i: int| file_id(i as nat)),
{
    let mut ids: Vec<String> = Vec::new();
    let mut i: usize = 0;
    while i < n
        invariant
            i <= n,
            strings_view(ids@) == Seq::new(i as nat, |k: int| file_id(k as nat)),
        decreases n - i,
    {
        let mut id = "f".to_owned();
        let digits = decimal_string(i);
        proof {
            reveal_strlit("f");
        }
        id.append(digits.as_str());
        proof {
            assert(id@ =~= file_id(i as nat));
            crate::text::lemma_strings_view_push(ids@, id);
            assert(strings_view(ids@.push(id)) =~= Seq::new(
                (i + 1) as nat,
                |k: int| file_id(k as nat),
            ));
        }
        ids.push(id);
        i += 1;
    }
    ids
}

/// The keys of a Choice's criteria.
pub open spec fn choice_keys(criteria: Seq<(Seq<char>, Option<Seq<char>>)>) -> Seq<Seq<char>> {
    criteria.map_values(|e: (Seq<char>, Option<Seq<char>>)| e.0)
}

/// Listwise rerank: one Choice whose options are the candidate file ids
/// (sorted, each once, without descriptions). `any_doc` swaps "implements"
/// for the content-neutral "contains".
pub fn listwise_rank(file_ids: Vec<String>, any_doc: bool) -> (q: Question)
    ensures
        q@ matches QuestionView::Choice { instructions, criteria } && {
            &&& instructions == if any_doc {
                RANK_DOC_QUESTION@
            } else {
                RANK_CODE_QUESTION@
            }
            &&& strictly_sorted(choice_keys(criteria))
            &&& forall|x: Seq<char>| choice_keys(criteria).contains(x) <==> strings_view(file_ids@).contains(x)
            &&& forall|i: int| 0 <= i < criteria.len() ==> (#[trigger] criteria[i]).1 is None
        },
{
    let lists = vec![file_ids];
    let none: Vec<String> = Vec::new();
    let keys = union_candidates(&lists, &none);
    proof {
        assert forall|x: Seq<char>| strings_view(keys@).contains(x) <==> strings_view(lists@[0]@).contains(x) by {
            if strings_view(keys@).contains(x) {
                assert(crate::candidates::in_lists(lists@, x) || crate::candidates::in_strings(none@, x));
                if crate::candidates::in_lists(lists@, x) {
                    let (p, k) = choose|p: int, k: int| 0 <= p < lists@.len() && 0 <= k < lists@[p]@.len() && (#[trigger] lists@[p]@[k])@ == x;
                    assert(strings_view(lists@[0]@)[k] == x);
                }
            }
            if strings_view(lists@[0]@).contains(x) {
                let k = choose|k: int| 0 <= k < strings_view(lists@[0]@).len() && strings_view(lists@[0]@)[k] == x;
                assert(lists@[0]@[k]@ == x);
                assert(crate::candidates::in_lists(lists@, x));
            }
        }
    }
    let mut criteria: Vec<(String, Option<String>)> = Vec::new();
    let mut i: usize = 0;
    while i < keys.len()
        invariant
            i <= keys@.len(),
            criteria@.len() == i,
            forall|k: int| 0 <= k < i ==> (#[trigger] criteria@[k]).0@ == keys@[k]@ && criteria@[k].1 is None,
        decreases keys@.len() - i,
    {
        criteria.push((keys[i].clone(), None));
        i += 1;
    }
    let instructions = if any_doc {
        RANK_DOC_QUESTION.to_owned()
    } else {
        RANK_CODE_QUESTION.to_owned()
    };
    let q = Question::Choice { instructions, criteria };
    proof {
        let cv = criteria@.map_values(|e: (String, Option<String>)| (e.0@, crate::jev::schemas::option_view(e.1)));
        assert(choice_keys(cv) =~= strings_view(keys@));
        assert(file_ids@ == lists@[0]@);
    }
    q
}

} // verus!
