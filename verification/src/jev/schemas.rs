//! The question and usage shapes of the System One wire format.
//!
//! Only the two primitives the pipeline uses exist: Noul for membership
//! verification, Choice for the listwise rerank. The serde mirror that puts
//! them on the wire lives with the HTTP client.

use vstd::prelude::*;

verus! {

/// Noul criteria: what a true and a false answer mean.
pub struct NoulCriteria {
    /// Wire key "true".
    pub true_means: String,
    /// Wire key "false".
    pub false_means: String,
}

/// One question of a request.
#[allow(inconsistent_fields)]
pub enum Question {
    Noul { instructions: String, criteria: Option<NoulCriteria> },
    Choice {
        instructions: String,
        /// Option key → description, keys strictly increasing (`None` when
        /// the key text is self-describing).
        criteria: Vec<(String, Option<String>)>,
    },
}

/// Token usage reported with a response.
pub struct Usage {
    pub input_tokens: u64,
    pub output_tokens: u64,
}

/// The character content of Noul criteria.
pub struct CriteriaView {
    pub true_means: Seq<char>,
    pub false_means: Seq<char>,
}

/// The character content of a question.
#[allow(inconsistent_fields)]
pub enum QuestionView {
    Noul { instructions: Seq<char>, criteria: Option<CriteriaView> },
    Choice { instructions: Seq<char>, criteria: Seq<(Seq<char>, Option<Seq<char>>)> },
}

impl View for NoulCriteria {
    type V = CriteriaView;

    open spec fn view(&self) -> CriteriaView {
        CriteriaView { true_means: self.true_means@, false_means: self.false_means@ }
    }
}

pub open spec fn option_view(o: Option<String>) -> Option<Seq<char>> {
    match o {
        Some(s) => Some(s@),
        None => None,
    }
}

impl View for Question {
    type V = QuestionView;

    open spec fn view(&self) -> QuestionView {
        match self {
            Question::Noul { instructions, criteria } => QuestionView::Noul {
                instructions: instructions@,
                criteria: match criteria {
                    Some(c) => Some(c@),
                    None => None,
                },
            },
            Question::Choice { instructions, criteria } => QuestionView::Choice {
                instructions: instructions@,
                criteria: criteria@.map_values(
                    |e: (String, Option<String>)| (e.0@, option_view(e.1)),
                ),
            },
        }
    }
}

} // verus!
