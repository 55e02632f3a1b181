//! Stage 2 work units: one request-sized batch of windows from a single file,
//! and the questions one batch asks.

use vstd::prelude::*;
use crate::jev::questions::{
    doc_file_membership, doc_window_membership, file_membership, window_membership,
};
use crate::jev::schemas::{Question, QuestionView};
use crate::candidates::{in_lists, in_strings, union_candidates};
use crate::text::{decimal, decimal_string, str_eq, strictly_sorted, strings_view, text_lines};
use crate::walk::FileKind;
use crate::windows::{
    batch_bounds, text_windows, window_batches, windows, windows_view, CodeWindow,
};

verus! {

broadcast use vstd::string::group_string_axioms;

/// One request-sized unit of work: ≤24 windows / ≤24 KB from a single file.
/// The kind selects the question set: code membership vs document coverage.
pub struct WindowBatch {
    pub file: String,
    pub kind: FileKind,
    pub windows: Vec<CodeWindow>,
}

/// Split one file's text into request-sized batches of overlapping windows.
pub fn build_batches(file: &str, kind: FileKind, text: &str) -> (batches: Vec<WindowBatch>)
    requires
        text_lines(text@).len() < usize::MAX,
    ensures
        batches@.len() == batch_bounds(text_windows(text@)).len(),
        forall|i: int|
            0 <= i < batches@.len() ==> {
                &&& (#[trigger] batches@[i]).file@ == file@
                &&& batches@[i].kind == kind
                &&& windows_view(batches@[i].windows@) == text_windows(text@).subrange(
                    batch_bounds(text_windows(text@))[i].0,
                    batch_bounds(text_windows(text@))[i].1,
                )
            },
{
    let all = windows(text);
    let chunks = window_batches(&all);
    let ghost tw = text_windows(text@);
    let ghost bs = batch_bounds(windows_view(all@));
    let mut batches: Vec<WindowBatch> = Vec::new();
    let mut i: usize = 0;
    proof {
        crate::windows::law_window_batches_partition(windows_view(all@));
    }
    while i < chunks.len()
        invariant
            windows_view(all@) == tw,
            bs == batch_bounds(tw),
            chunks@.len() == bs.len(),
            forall|k: int| 0 <= k < chunks@.len() ==> chunks@[k]@ == all@.subrange(bs[k].0, bs[k].1),
            crate::windows::bounds_partition(bs, 0, tw.len() as int),
            i <= chunks@.len(),
            batches@.len() == i,
            forall|k: int|
                0 <= k < i ==> {
                    &&& (#[trigger] batches@[k]).file@ == file@
                    &&& batches@[k].kind == kind
                    &&& windows_view(batches@[k].windows@) == tw.subrange(bs[k].0, bs[k].1)
                },
        decreases chunks@.len() - i,
    {
        let chunk = chunks[i];
        let ghost c = chunk@;
        let mut copy: Vec<CodeWindow> = Vec::new();
        let mut j: usize = 0;
        while j < chunk.len()
            invariant
                c == chunk@,
                j <= c.len(),
                windows_view(copy@) == windows_view(c).take(j as int),
            decreases c.len() - j,
        {
            let w = chunk[j].duplicate();
            proof {
                assert(windows_view(copy@.push(w)) =~= windows_view(copy@).push(w@));
                assert(windows_view(c).take(j as int + 1) =~= windows_view(c).take(j as int).push(
                    c[j as int]@,
                ));
            }
            copy.push(w);
            j += 1;
        }
        proof {
            assert(windows_view(c).take(j as int) =~= windows_view(c));
            assert(0 <= bs[i as int].0 <= bs[i as int].1 <= tw.len()) by {
                crate::windows::lemma_bounds_in_range(bs, tw.len() as int, i as int);
            }
            assert(windows_view(c) =~= tw.subrange(bs[i as int].0, bs[i as int].1));
        }
        batches.push(WindowBatch { file: file.to_owned(), kind, windows: copy });
        i += 1;
    }
    batches
}

/// The state key under which window text travels: `text` for documents,
/// `code` for code.
pub fn content_key(kind: FileKind) -> (k: &'static str)
    ensures
        k@ == if kind == FileKind::Doc {
            "text"@
        } else {
            "code"@
        },
{
    if kind == FileKind::Doc {
        "text"
    } else {
        "code"
    }
}

/// The question key of window `i` of a batch.
pub open spec fn window_key(i: nat) -> Seq<char> {
    "window_"@ + decimal(i)
}

/// The questions one batch asks: a Noul per window (`window_0`, …) and the
/// file-level Noul twice (`file`, `file_b`), whose two independent draws
/// are averaged. Documents get the coverage phrasing.
pub fn batch_questions(kind: FileKind, window_count: usize) -> (qs: Vec<(String, Question)>)
    ensures
        qs@.len() == window_count + 2,
        forall|i: int|
            0 <= i < window_count ==> (#[trigger] qs@[i]).0@ == window_key(i as nat) && qs@[i].1@
                == (if kind == FileKind::Doc {
                doc_window_membership_view(i as nat)
            } else {
                window_membership_view(i as nat)
            }),
        qs@[window_count as int].0@ == "file"@,
        qs@[window_count + 1].0@ == "file_b"@,
        qs@[window_count as int].1@ == file_question_view(kind),
        qs@[window_count + 1].1@ == file_question_view(kind),
{
    let mut qs: Vec<(String, Question)> = Vec::new();
    let mut i: usize = 0;
    while i < window_count
        invariant
            i <= window_count,
            qs@.len() == i,
            forall|k: int|
                0 <= k < i ==> (#[trigger] qs@[k]).0@ == window_key(k as nat) && qs@[k].1@ == (if kind
                    == FileKind::Doc {
                    doc_window_membership_view(k as nat)
                } else {
                    window_membership_view(k as nat)
                }),
        decreases window_count - i,
    {
        let mut key = "window_".to_owned();
        let digits = decimal_string(i);
        key.append(digits.as_str());
        let q = if kind == FileKind::Doc {
            doc_window_membership(i)
        } else {
            window_membership(i)
        };
        qs.push((key, q));
        i += 1;
    }
    let f1 = if kind == FileKind::Doc {
        doc_file_membership()
    } else {
        file_membership()
    };
    let f2 = if kind == FileKind::Doc {
        doc_file_membership()
    } else {
        file_membership()
    };
    qs.push(("file".to_owned(), f1));
    qs.push(("file_b".to_owned(), f2));
    qs
}

/// The positions `k` with `files[k] == name`, increasing.
pub open spec fn positions_of(files: Seq<Seq<char>>, name: Seq<char>) -> Seq<usize>
    decreases files.len(),
{
    if files.len() == 0 {
        seq![]
    } else {
        positions_of(files.drop_last(), name) + if files.last() == name {
            seq![(files.len() - 1) as usize]
        } else {
            Seq::<usize>::empty()
        }
    }
}

/// Batch outcomes grouped by file, for the per-file verdicts: each file
/// once, in sorted order, with the positions of its outcomes in the order
/// they arrived.
pub fn group_by_file(files: &[String]) -> (groups: Vec<(String, Vec<usize>)>)
    ensures
        strictly_sorted(strings_view(groups@.map_values(|g: (String, Vec<usize>)| g.0))),
        forall|x: Seq<char>|
            strings_view(groups@.map_values(|g: (String, Vec<usize>)| g.0)).contains(x)
                <==> strings_view(files@).contains(x),
        forall|g: int|
            0 <= g < groups@.len() ==> (#[trigger] groups@[g]).1@ == positions_of(
                strings_view(files@),
                groups@[g].0@,
            ),
{
    let none: Vec<Vec<String>> = Vec::new();
    let names = union_candidates(&none, files);
    let ghost fv = strings_view(files@);
    let mut groups: Vec<(String, Vec<usize>)> = Vec::new();
    let mut g: usize = 0;
    while g < names.len()
        invariant
            fv == strings_view(files@),
            g <= names@.len(),
            groups@.len() == g,
            forall|i: int| 0 <= i < g ==> (#[trigger] groups@[i]).0@ == names@[i]@,
            forall|i: int| 0 <= i < g ==> (#[trigger] groups@[i]).1@ == positions_of(fv, names@[i]@),
        decreases names@.len() - g,
    {
        let name = names[g].as_str();
        let mut hits: Vec<usize> = Vec::new();
        let mut k: usize = 0;
        proof {
            assert(fv.take(0) =~= Seq::<Seq<char>>::empty());
        }
        while k < files.len()
            invariant
                fv == strings_view(files@),
                k <= files@.len(),
                hits@ == positions_of(fv.take(k as int), name@),
            decreases files@.len() - k,
        {
            proof {
                assert(fv.take(k as int + 1).drop_last() =~= fv.take(k as int));
                assert(fv[k as int] == files@[k as int]@);
            }
            if str_eq(files[k].as_str(), name) {
                hits.push(k);
            }
            k += 1;
        }
        proof {
            assert(fv.take(k as int) =~= fv);
        }
        groups.push((names[g].clone(), hits));
        g += 1;
    }
    proof {
        let gv = strings_view(groups@.map_values(|e: (String, Vec<usize>)| e.0));
        assert(gv =~= strings_view(names@));
        assert forall|x: Seq<char>| gv.contains(x) <==> fv.contains(x) by {
            assert(strings_view(names@).contains(x) <==> (in_lists(none@, x) || in_strings(files@, x)));
            assert(!in_lists(none@, x));
            if in_strings(files@, x) {
                let j = choose|j: int| 0 <= j < files@.len() && (#[trigger] files@[j])@ == x;
                assert(fv[j] == x);
            }
            if fv.contains(x) {
                let j = choose|j: int| 0 <= j < fv.len() && fv[j] == x;
                assert(files@[j]@ == x);
            }
        }
    }
    groups
}

/// Whether every one of a file's batches failed: only then does its
/// verdict carry an error, since one successful batch clears it.
pub fn all_failed(positions: &[usize], failed: &[bool]) -> (b: bool)
    requires
        forall|j: int| 0 <= j < positions@.len() ==> (#[trigger] positions@[j]) < failed@.len(),
    ensures
        b == (forall|j: int| 0 <= j < positions@.len() ==> failed@[#[trigger] positions@[j] as int]),
{
    let mut i: usize = 0;
    while i < positions.len()
        invariant
            i <= positions@.len(),
            forall|j: int| 0 <= j < positions@.len() ==> (#[trigger] positions@[j]) < failed@.len(),
            forall|j: int| 0 <= j < i ==> failed@[#[trigger] positions@[j] as int],
        decreases positions@.len() - i,
    {
        if !failed[positions[i]] {
            return false;
        }
        i += 1;
    }
    true
}

pub open spec fn window_membership_view(i: nat) -> QuestionView {
    QuestionView::Noul {
        instructions: crate::jev::questions::WINDOW_QUESTION_HEAD@ + decimal(i)
            + crate::jev::questions::WINDOW_QUESTION_TAIL@,
        criteria: Some(crate::jev::questions::membership_criteria_view()),
    }
}

pub open spec fn doc_window_membership_view(i: nat) -> QuestionView {
    QuestionView::Noul {
        instructions: crate::jev::questions::DOC_WINDOW_QUESTION_HEAD@ + decimal(i)
            + crate::jev::questions::DOC_WINDOW_QUESTION_TAIL@,
        criteria: Some(crate::jev::questions::doc_membership_criteria_view()),
    }
}

pub open spec fn file_question_view(kind: FileKind) -> QuestionView {
    if kind == FileKind::Doc {
        QuestionView::Noul {
            instructions: crate::jev::questions::DOC_FILE_QUESTION@,
            criteria: Some(crate::jev::questions::doc_membership_criteria_view()),
        }
    } else {
        QuestionView::Noul {
            instructions: crate::jev::questions::FILE_QUESTION@,
            criteria: Some(crate::jev::questions::membership_criteria_view()),
        }
    }
}

} // verus!
