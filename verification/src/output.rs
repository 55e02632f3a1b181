//! Output modes and the text of a `--snippets` block.
//!
//! The default mode prints `path:start-end  score` lines; `--snippets` adds
//! the window body with per-line numbers, capped so a result set cannot flood
//! a calling agent's tool-output budget; `--json` emits the full verdicts.

use vstd::prelude::*;
use vstd::string::StringExecFns;
use crate::text::{decimal, decimal_string, lines_of, strings_view, text_lines};

verus! {

broadcast use vstd::string::group_string_axioms;

/// How results are rendered.
#[derive(Clone, Copy, PartialEq, Eq, Debug, Structural)]
pub enum Mode {
    PathsOnly,
    Snippets,
    Json,
}

/// The mode the flags select: `--snippets` wins over `--json`; neither
/// gives the compact path list.
pub fn select_mode(snippets: bool, json: bool) -> (m: Mode)
    ensures
        m == if snippets {
            Mode::Snippets
        } else if json {
            Mode::Json
        } else {
            Mode::PathsOnly
        },
{
    if snippets {
        Mode::Snippets
    } else if json {
        Mode::Json
    } else {
        Mode::PathsOnly
    }
}

/// Where a result points: `path:start-end` for its best window, the bare
/// path when it has none.
pub open spec fn location_text(file: Seq<char>, window: Option<(usize, usize)>) -> Seq<char> {
    match window {
        Some((start, end)) => file + ":"@ + decimal(start as nat) + "-"@ + decimal(end as nat),
        None => file,
    }
}

/// The location part of a result line (the score follows it).
pub fn result_location(file: &str, window: Option<(usize, usize)>) -> (s: String)
    ensures
        s@ == location_text(file@, window),
{
    let mut out = String::new();
    out.append(file);
    match window {
        Some((start, end)) => {
            out.append(":");
            let a = decimal_string(start);
            out.append(a.as_str());
            out.append("-");
            let b = decimal_string(end);
            out.append(b.as_str());
        },
        None => {},
    }
    proof {
        assert(out@ =~= location_text(file@, window));
    }
    out
}

/// Lines numbered from `first`, each as `N: line` and a newline.
pub open spec fn numbered_lines(ls: Seq<Seq<char>>, first: nat) -> Seq<char>
    decreases ls.len(),
{
    if ls.len() == 0 {
        seq![]
    } else {
        numbered_lines(ls.drop_last(), first) + decimal((first + ls.len() - 1) as nat) + ": "@
            + ls.last() + "\n"@
    }
}

/// Snippet numbering: a single line `l` numbered `n` prints as `n: l` and a
/// newline, and the numbering of two runs of lines in a row continues
/// where the first run stopped.
pub proof fn law_snippet_numbering_continues(ls1: Seq<Seq<char>>, ls2: Seq<Seq<char>>, first: nat, l: Seq<char>)
    ensures
        numbered_lines(seq![l], first) == decimal(first) + ": "@ + l + "\n"@,
        numbered_lines(ls1 + ls2, first) == numbered_lines(ls1, first) + numbered_lines(
            ls2,
            first + ls1.len(),
        ),
    decreases ls2.len(),
{
    assert(seq![l].drop_last() =~= Seq::<Seq<char>>::empty());
    assert(numbered_lines(Seq::<Seq<char>>::empty(), first) =~= Seq::<char>::empty());
    assert(numbered_lines(seq![l], first) =~= decimal(first) + ": "@ + l + "\n"@);
    if ls2.len() == 0 {
        assert(ls1 + ls2 =~= ls1);
        assert(numbered_lines(ls1, first) + numbered_lines(ls2, first + ls1.len()) =~= numbered_lines(ls1, first));
    } else {
        law_snippet_numbering_continues(ls1, ls2.drop_last(), first, l);
        assert((ls1 + ls2).drop_last() =~= ls1 + ls2.drop_last());
        assert((ls1 + ls2).last() == ls2.last());
    }
}

/// The pointer printed under a capped snippet.
pub open spec fn more_lines_marker(file: Seq<char>, start: nat, end: nat, total: nat, cap: nat) -> Seq<char> {
    "... "@ + decimal((total - cap) as nat) + " more lines through "@ + decimal(end) + " (Read "@
        + file + ":"@ + decimal(start + cap) + "-"@ + decimal(end) + " for the rest)\n"@
}

/// The body of one `--snippets` result: the first `cap` lines of the
/// snippet numbered from `start`, a pointer to the rest when there is more,
/// and a blank line.
pub open spec fn snippet_block_text(
    file: Seq<char>,
    start: nat,
    end: nat,
    snippet: Seq<char>,
    cap: nat,
) -> Seq<char> {
    let ls = text_lines(snippet);
    let shown = if ls.len() < cap {
        ls.len()
    } else {
        cap
    };
    numbered_lines(ls.take(shown as int), start) + (if ls.len() > cap {
        more_lines_marker(file, start, end, ls.len(), cap)
    } else {
        seq![]
    }) + "\n"@
}

/// The body of one `--snippets` result (everything after its header line).
pub fn snippet_block(file: &str, start: usize, end: usize, snippet: &str, snippet_lines: usize) -> (s: String)
    requires
        text_lines(snippet@).len() > snippet_lines ==> start + snippet_lines <= usize::MAX,
        start + (if text_lines(snippet@).len() < snippet_lines {
            text_lines(snippet@).len() as int
        } else {
            snippet_lines as int
        }) <= usize::MAX + 1,
    ensures
        s@ == snippet_block_text(file@, start as nat, end as nat, snippet@, snippet_lines as nat),
{
    let lines = lines_of(snippet);
    let ghost ls = text_lines(snippet@);
    let total = lines.len();
    let shown = if total < snippet_lines {
        total
    } else {
        snippet_lines
    };
    let mut out = String::new();
    let mut offset: usize = 0;
    proof {
        assert(ls.take(0) =~= Seq::<Seq<char>>::empty());
    }
    while offset < shown
        invariant
            strings_view(lines@) == ls,
            total == ls.len(),
            shown <= total,
            start + shown <= usize::MAX + 1,
            offset <= shown,
            out@ == numbered_lines(ls.take(offset as int), start as nat),
        decreases shown - offset,
    {
        let number = decimal_string(start + offset);
        out.append(number.as_str());
        out.append(": ");
        out.append(lines[offset].as_str());
        out.append("\n");
        proof {
            assert(ls.take(offset as int + 1).drop_last() =~= ls.take(offset as int));
            assert(strings_view(lines@)[offset as int] == lines@[offset as int]@);
            assert(out@ =~= numbered_lines(ls.take(offset as int + 1), start as nat));
        }
        offset += 1;
    }
    if total > snippet_lines {
        out.append("... ");
        let more = decimal_string(total - snippet_lines);
        out.append(more.as_str());
        out.append(" more lines through ");
        let through = decimal_string(end);
        out.append(through.as_str());
        out.append(" (Read ");
        out.append(file);
        out.append(":");
        let from = decimal_string(start + snippet_lines);
        out.append(from.as_str());
        out.append("-");
        out.append(through.as_str());
        out.append(" for the rest)\n");
    }
    out.append("\n");
    proof {
        assert(out@ =~= snippet_block_text(file@, start as nat, end as nat, snippet@, snippet_lines as nat));
    }
    out
}

} // verus!
