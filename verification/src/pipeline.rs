//! The pure decisions of the command-line pipeline: query and limit
//! validation, the keywords handed to `git grep`, candidate-list files, and
//! the file heads shown to the listwise reranker.

use vstd::prelude::*;
use crate::text::{
    chars_of, join_with, lemma_split_pieces_join, lemma_split_pieces_nonempty,
    lemma_split_pieces_push, lemma_split_pieces_shape, lemma_split_pieces_whole,
    lemma_strings_view_push,
    lemma_trimmed_idempotent, lines_of, split_pieces, string_from_chars, strings_view,
    text_lines, trim, trim_bounds, trimmed,
};
use crate::windows::joined;

verus! {

broadcast use vstd::string::group_string_axioms;

/// Lines of a file's head shown to the listwise reranker.
pub const HEAD_LINES: usize = 25;

/// Whether a query holds nothing but whitespace (a usage error).
pub fn is_blank(query: &str) -> (b: bool)
    ensures
        b == (trimmed(query@).len() == 0),
{
    let cs = chars_of(query);
    let (a, b) = trim_bounds(cs.as_slice());
    a == b
}

/// Where the configuration comes from.
#[derive(Clone, Copy, PartialEq, Eq, Debug, Structural)]
pub enum ConfigSource {
    /// The `--config` file, which must exist.
    Explicit,
    /// `.jevr.yaml` in the searched root.
    Repo,
    /// `~/.config/jevr.yaml`.
    User,
    /// The built-in defaults.
    Defaults,
}

/// The first configuration source that applies: an explicit file, else the
/// root's dotfile if it exists, else the user-level file if it exists,
/// else the defaults.
pub fn config_source(explicit: bool, repo_file_exists: bool, user_file_exists: bool) -> (c: ConfigSource)
    ensures
        c == (if explicit {
            ConfigSource::Explicit
        } else if repo_file_exists {
            ConfigSource::Repo
        } else if user_file_exists {
            ConfigSource::User
        } else {
            ConfigSource::Defaults
        }),
{
    if explicit {
        ConfigSource::Explicit
    } else if repo_file_exists {
        ConfigSource::Repo
    } else if user_file_exists {
        ConfigSource::User
    } else {
        ConfigSource::Defaults
    }
}

/// A configured count that must be at least one but is zero.
#[derive(Clone, Copy, PartialEq, Eq, Debug, Structural)]
pub enum LimitError {
    /// `concurrency` is zero.
    Concurrency,
    /// `candidate_cap`, `top_k` or `snippet_lines` is zero.
    Counts,
}

/// Checks the configured counts in the order the command line reports them.
pub fn check_limits(concurrency: usize, candidate_cap: usize, top_k: usize, snippet_lines: usize) -> (r: Result<(), LimitError>)
    ensures
        r == (if concurrency == 0 {
            Err(LimitError::Concurrency)
        } else if candidate_cap == 0 || top_k == 0 || snippet_lines == 0 {
            Err(LimitError::Counts)
        } else {
            Ok(())
        }),
{
    if concurrency == 0 {
        Err(LimitError::Concurrency)
    } else if candidate_cap == 0 || top_k == 0 || snippet_lines == 0 {
        Err(LimitError::Counts)
    } else {
        Ok(())
    }
}

/// The trimmed pieces that are not empty, in order.
pub open spec fn kept_trimmed(ps: Seq<Seq<char>>) -> Seq<Seq<char>>
    decreases ps.len(),
{
    if ps.len() == 0 {
        seq![]
    } else {
        kept_trimmed(ps.drop_last()) + if trimmed(ps.last()).len() > 0 {
            seq![trimmed(ps.last())]
        } else {
            Seq::<Seq<char>>::empty()
        }
    }
}

pub proof fn lemma_kept_trimmed_push(ps: Seq<Seq<char>>, x: Seq<char>)
    ensures
        kept_trimmed(ps.push(x)) == kept_trimmed(ps) + if trimmed(x).len() > 0 {
            seq![trimmed(x)]
        } else {
            Seq::<Seq<char>>::empty()
        },
{
    assert(ps.push(x).drop_last() =~= ps);
}

/// Kept pieces are never blank and carry no surrounding whitespace: every
/// candidate path of a candidates file and every `git grep` keyword is
/// non-empty and already trimmed.
pub proof fn law_kept_pieces_are_trimmed_and_non_empty(ps: Seq<Seq<char>>)
    ensures
        forall|k: Seq<char>| #[trigger] kept_trimmed(ps).contains(k) ==> k.len() > 0 && trimmed(k) == k,
    decreases ps.len(),
{
    if ps.len() > 0 {
        law_kept_pieces_are_trimmed_and_non_empty(ps.drop_last());
        lemma_trimmed_idempotent(ps.last());
        let prev = kept_trimmed(ps.drop_last());
        let tail = if trimmed(ps.last()).len() > 0 {
            seq![trimmed(ps.last())]
        } else {
            Seq::<Seq<char>>::empty()
        };
        assert forall|k: Seq<char>| #[trigger] kept_trimmed(ps).contains(k) implies k.len() > 0 && trimmed(k) == k by {
            let i = choose|i: int| 0 <= i < kept_trimmed(ps).len() && kept_trimmed(ps)[i] == k;
            if i < prev.len() {
                assert(prev[i] == k);
                assert(prev.contains(k));
            } else {
                assert(tail[i - prev.len()] == k);
            }
        }
    }
}

pub open spec fn comma_sep() -> spec_fn(char) -> bool {
    |c: char| c == ','
}

/// The keywords handed to `git grep`: every variant split at commas, each
/// piece trimmed, empty pieces dropped.
pub open spec fn grep_keywords_of(vs: Seq<Seq<char>>) -> Seq<Seq<char>>
    decreases vs.len(),
{
    if vs.len() == 0 {
        seq![]
    } else {
        grep_keywords_of(vs.drop_last()) + kept_trimmed(split_pieces(vs.last(), comma_sep()))
    }
}

/// The `git grep` keywords of one variant are its pieces between commas,
/// trimmed, blank ones dropped: the pieces hold no comma and, joined with
/// commas, give the variant back (so spaces inside a piece stay); a
/// variant without a comma gives exactly its trimmed text, unless blank.
pub proof fn law_grep_keywords_split_only_at_commas(v: Seq<char>)
    ensures
        join_with(split_pieces(v, comma_sep()), ',') == v,
        forall|i: int, j: int|
            0 <= i < split_pieces(v, comma_sep()).len() && 0 <= j < split_pieces(v, comma_sep())[i].len()
                ==> #[trigger] split_pieces(v, comma_sep())[i][j] != ',',
        grep_keywords_of(seq![v]) == kept_trimmed(split_pieces(v, comma_sep())),
        (forall|k: int| 0 <= k < v.len() ==> #[trigger] v[k] != ',') ==> grep_keywords_of(seq![v]) == (
        if trimmed(v).len() > 0 {
            seq![trimmed(v)]
        } else {
            Seq::<Seq<char>>::empty()
        }),
{
    let sep = comma_sep();
    lemma_split_pieces_shape(v, sep);
    lemma_split_pieces_join(v, sep, ',');
    assert(seq![v].drop_last() =~= Seq::<Seq<char>>::empty());
    assert(grep_keywords_of(seq![v]) == grep_keywords_of(Seq::<Seq<char>>::empty()) + kept_trimmed(
        split_pieces(v, sep),
    ));
    assert(grep_keywords_of(seq![v]) =~= kept_trimmed(split_pieces(v, sep)));
    if forall|k: int| 0 <= k < v.len() ==> #[trigger] v[k] != ',' {
        lemma_split_pieces_whole(v, sep);
        lemma_kept_trimmed_push(Seq::<Seq<char>>::empty(), v);
        assert(Seq::<Seq<char>>::empty().push(v) =~= seq![v]);
        assert(kept_trimmed(Seq::<Seq<char>>::empty()) =~= Seq::<Seq<char>>::empty());
    }
}

/// Appends the trimmed non-empty comma-separated pieces of `s` to `out`.
fn push_comma_pieces(out: &mut Vec<String>, s: &str)
    ensures
        strings_view(final(out)@) == strings_view(old(out)@) + kept_trimmed(
            split_pieces(s@, comma_sep()),
        ),
{
    let cs = chars_of(s);
    let ghost t = cs@;
    let ghost base = strings_view(out@);
    let mut start: usize = 0;
    let mut i: usize = 0;
    proof {
        assert(t.take(0) =~= Seq::<char>::empty());
        assert(base + kept_trimmed(Seq::<Seq<char>>::empty()) =~= base);
    }
    while i < cs.len()
        invariant
            t == cs@,
            start <= i <= t.len(),
            split_pieces(t.take(i as int), comma_sep()).len() >= 1,
            split_pieces(t.take(i as int), comma_sep()).last() == t.subrange(start as int, i as int),
            strings_view(out@) == base + kept_trimmed(
                split_pieces(t.take(i as int), comma_sep()).drop_last(),
            ),
        decreases t.len() - i,
    {
        let ghost prev = split_pieces(t.take(i as int), comma_sep());
        proof {
            assert(t.take(i as int + 1) =~= t.take(i as int).push(t[i as int]));
            lemma_split_pieces_push(t.take(i as int), t[i as int], comma_sep());
        }
        if cs[i] == ',' {
            let piece = &cs[start..i];
            let (a, b) = trim_bounds(piece);
            proof {
                let next = split_pieces(t.take(i as int + 1), comma_sep());
                assert(next.drop_last() =~= prev);
                assert(prev =~= prev.drop_last().push(prev.last()));
                lemma_kept_trimmed_push(prev.drop_last(), prev.last());
                assert(piece@ =~= prev.last());
                lemma_split_pieces_nonempty(t.take(i as int + 1), comma_sep());
                assert(t.subrange(i as int + 1, i as int + 1) =~= Seq::<char>::empty());
            }
            if a < b {
                let word = string_from_chars(&cs[start + a..start + b]);
                proof {
                    assert(word@ =~= piece@.subrange(a as int, b as int));
                    lemma_strings_view_push(out@, word);
                }
                out.push(word);
            }
            proof {
                assert(strings_view(out@) =~= base + kept_trimmed(prev));
            }
            start = i + 1;
        } else {
            proof {
                let next = split_pieces(t.take(i as int + 1), comma_sep());
                assert(next.drop_last() =~= prev.drop_last());
                assert(t.subrange(start as int, i as int + 1) =~= t.subrange(
                    start as int,
                    i as int,
                ).push(t[i as int]));
            }
        }
        i += 1;
    }
    let ghost all = split_pieces(t, comma_sep());
    proof {
        assert(t.take(t.len() as int) =~= t);
        assert(all =~= all.drop_last().push(all.last()));
        lemma_kept_trimmed_push(all.drop_last(), all.last());
    }
    let piece = &cs[start..cs.len()];
    let (a, b) = trim_bounds(piece);
    proof {
        assert(piece@ =~= all.last());
    }
    if a < b {
        let word = string_from_chars(&cs[start + a..start + b]);
        proof {
            assert(word@ =~= piece@.subrange(a as int, b as int));
            lemma_strings_view_push(out@, word);
        }
        out.push(word);
    }
    proof {
        assert(strings_view(out@) =~= base + kept_trimmed(all));
    }
}

/// The keywords handed to `git grep`: each variant's comma-separated
/// pieces, trimmed, empty ones dropped, in order.
pub fn grep_keywords(variants: &[String]) -> (r: Vec<String>)
    ensures
        strings_view(r@) == grep_keywords_of(strings_view(variants@)),
{
    let ghost vs = strings_view(variants@);
    let mut r: Vec<String> = Vec::new();
    let mut i: usize = 0;
    proof {
        assert(vs.take(0) =~= Seq::<Seq<char>>::empty());
        assert(strings_view(r@) =~= Seq::<Seq<char>>::empty());
    }
    while i < variants.len()
        invariant
            vs == strings_view(variants@),
            i <= variants@.len(),
            strings_view(r@) == grep_keywords_of(vs.take(i as int)),
        decreases variants@.len() - i,
    {
        proof {
            assert(vs.take(i as int + 1).drop_last() =~= vs.take(i as int));
            assert(vs[i as int] == variants@[i as int]@);
        }
        push_comma_pieces(&mut r, variants[i].as_str());
        i += 1;
    }
    proof {
        assert(vs.take(i as int) =~= vs);
    }
    r
}

/// The candidate paths of a candidates file: one per line, trimmed, blank
/// lines skipped.
pub fn candidate_list(text: &str) -> (r: Vec<String>)
    ensures
        strings_view(r@) == kept_trimmed(text_lines(text@)),
{
    let lines = lines_of(text);
    let ghost ls = strings_view(lines@);
    let mut r: Vec<String> = Vec::new();
    let mut i: usize = 0;
    proof {
        assert(ls.take(0) =~= Seq::<Seq<char>>::empty());
        assert(strings_view(r@) =~= Seq::<Seq<char>>::empty());
    }
    while i < lines.len()
        invariant
            ls == strings_view(lines@),
            i <= lines@.len(),
            strings_view(r@) == kept_trimmed(ls.take(i as int)),
        decreases lines@.len() - i,
    {
        let t = trim(lines[i].as_str());
        proof {
            assert(ls.take(i as int + 1) =~= ls.take(i as int).push(ls[i as int]));
            assert(ls[i as int] == lines@[i as int]@);
            lemma_kept_trimmed_push(ls.take(i as int), ls[i as int]);
        }
        if !t.as_str().is_empty() {
            proof {
                lemma_strings_view_push(r@, t);
            }
            r.push(t);
        }
        proof {
            assert(strings_view(r@) =~= kept_trimmed(ls.take(i as int + 1)));
        }
        i += 1;
    }
    proof {
        assert(ls.take(i as int) =~= ls);
    }
    r
}

/// The first `HEAD_LINES` lines of a file (fewer when it is shorter).
pub open spec fn head_of(text: Seq<char>) -> Seq<char> {
    let ls = text_lines(text);
    joined(ls.take(if ls.len() < HEAD_LINES { ls.len() as int } else { HEAD_LINES as int }))
}

/// The head of a file shown to the listwise reranker: its first
/// `HEAD_LINES` lines joined with `\n`.
pub fn head_text(text: &str) -> (h: String)
    ensures
        h@ == head_of(text@),
{
    let lines = lines_of(text);
    let ghost ls = strings_view(lines@);
    let n = if lines.len() < HEAD_LINES {
        lines.len()
    } else {
        HEAD_LINES
    };
    let mut out: Vec<char> = Vec::new();
    let mut i: usize = 0;
    proof {
        assert(ls.take(0) =~= Seq::<Seq<char>>::empty());
    }
    while i < n
        invariant
            ls == strings_view(lines@),
            n <= lines@.len(),
            i <= n,
            out@ == joined(ls.take(i as int)),
        decreases n - i,
    {
        if i > 0 {
            out.push('\n');
        }
        let mut more = chars_of(lines[i].as_str());
        proof {
            assert(ls[i as int] == lines@[i as int]@);
            assert(ls.take(i as int + 1).drop_last() =~= ls.take(i as int));
            if i == 0 {
                assert(out@ + more@ =~= more@);
            }
        }
        out.append(&mut more);
        i += 1;
    }
    string_from_chars(out.as_slice())
}

} // verus!
