//! 100/20 line windowing, UTF-8-safe byte caps and request batching.
//!
//! Overlapping windows keep a match that straddles one boundary whole inside
//! the neighbor; the byte caps bound each request under the measured
//! 24-window / 24 KB envelope.

use vstd::prelude::*;
use vstd::string::{StringExecFns, StringSliceAdditionalSpecFns};
use vstd::utf8::encode_utf8;
use crate::text::{
    byte_len, char_utf8_len, char_width, chars_of, join_with, lemma_char_utf8_len_bounds,
    lemma_encode_utf8_concat, lemma_encode_utf8_injective, lemma_prefix_is_char_boundary,
    lemma_utf8_len_concat, lemma_utf8_len_push, lines_of, str_views, strings_view, text_lines,
    utf8_len,
};

verus! {

broadcast use vstd::string::group_string_axioms;

/// Lines per verification window.
pub const WINDOW: usize = 100;

/// Lines shared between adjacent windows.
pub const OVERLAP: usize = 20;

/// Hard byte cap for a single window.
pub const MAX_WINDOW_BYTES: usize = 12000;

/// Max source bytes per request.
pub const MAX_REQUEST_SOURCE_BYTES: usize = 24000;

/// Max windows per request.
pub const MAX_WINDOWS_PER_REQUEST: usize = 24;

// ---------------------------------------------------------------------------
// UTF-8-safe chunking
// ---------------------------------------------------------------------------

/// Number of leading characters of `s` whose encoding fits in `budget` bytes.
pub open spec fn fit_prefix_len(s: Seq<char>, budget: int) -> nat
    decreases s.len(),
{
    if s.len() == 0 || char_utf8_len(s[0]) > budget {
        0
    } else {
        1 + fit_prefix_len(s.drop_first(), budget - char_utf8_len(s[0]))
    }
}

/// Greedy split of `s` into pieces of at most `max` bytes: each piece is the
/// longest prefix of what is left that fits.
pub open spec fn greedy_chunks(s: Seq<char>, max: int) -> Seq<Seq<char>>
    decreases s.len(),
{
    if s.len() == 0 {
        seq![]
    } else {
        let k = fit_prefix_len(s, max);
        if k == 0 {
            seq![s]
        } else {
            proof {
                lemma_fit_prefix_len(s, max);
            }
            seq![s.take(k as int)] + greedy_chunks(s.skip(k as int), max)
        }
    }
}

/// Every character of `s` fits in `max` bytes on its own.
pub open spec fn chars_fit(s: Seq<char>, max: int) -> bool {
    forall|i: int| 0 <= i < s.len() ==> char_utf8_len(s[i]) <= max
}

pub proof fn lemma_fit_prefix_len(s: Seq<char>, budget: int)
    ensures
        fit_prefix_len(s, budget) <= s.len(),
        budget >= 0 ==> utf8_len(s.take(fit_prefix_len(s, budget) as int)) <= budget,
        fit_prefix_len(s, budget) < s.len() ==> utf8_len(
            s.take(fit_prefix_len(s, budget) as int),
        ) + char_utf8_len(s[fit_prefix_len(s, budget) as int]) > budget,
        s.len() > 0 && char_utf8_len(s[0]) <= budget ==> fit_prefix_len(s, budget) > 0,
    decreases s.len(),
{
    let k = fit_prefix_len(s, budget);
    if s.len() == 0 {
        assert(s.take(0) =~= Seq::<char>::empty());
    } else if char_utf8_len(s[0]) > budget {
        assert(s.take(0) =~= Seq::<char>::empty());
    } else {
        let w = char_utf8_len(s[0]);
        let t = s.drop_first();
        lemma_fit_prefix_len(t, budget - w);
        assert(s.take(k as int) =~= seq![s[0]] + t.take(k - 1));
        lemma_utf8_len_concat(seq![s[0]], t.take(k - 1));
        lemma_utf8_len_push(Seq::<char>::empty(), s[0]);
        assert(Seq::<char>::empty().push(s[0]) =~= seq![s[0]]);
        assert(utf8_len(Seq::<char>::empty()) == 0);
        if k < s.len() {
            assert(s[k as int] == t[k - 1]);
        }
    }
}

/// Split-off pieces of a string at the end of a character prefix have the
/// prefix and the suffix as their characters.
proof fn lemma_split_views(s: &str, j: int, a: &str, b: &str)
    requires
        0 <= j <= s@.len(),
        a.spec_bytes() == s.spec_bytes().subrange(0, utf8_len(s@.take(j)) as int),
        b.spec_bytes() == s.spec_bytes().subrange(
            utf8_len(s@.take(j)) as int,
            s.spec_bytes().len() as int,
        ),
    ensures
        a@ == s@.take(j),
        b@ == s@.skip(j),
{
    assert(s@ =~= s@.take(j) + s@.skip(j));
    lemma_encode_utf8_concat(s@.take(j), s@.skip(j));
    assert(encode_utf8(s@) == encode_utf8(s@.take(j)) + encode_utf8(s@.skip(j)));
    assert(encode_utf8(a@) =~= encode_utf8(s@.take(j)));
    assert(encode_utf8(b@) =~= encode_utf8(s@.skip(j)));
    lemma_encode_utf8_injective(a@, s@.take(j));
    lemma_encode_utf8_injective(b@, s@.skip(j));
}

/// Split `text` into chunks of at most `max_bytes` without breaking UTF-8
/// character boundaries (each chunk is the longest prefix of what is left
/// that fits).
pub fn utf8_chunks(text: &str, max_bytes: usize) -> (chunks: Vec<&str>)
    requires
        chars_fit(text@, max_bytes as int),
    ensures
        str_views(chunks@) == greedy_chunks(text@, max_bytes as int),
{
    let cs = chars_of(text);
    let ghost s = cs@;
    let mut chunks: Vec<&str> = Vec::new();
    let mut rest: &str = text;
    let mut i: usize = 0;
    proof {
        assert(s.skip(0) =~= s);
    }
    while i < cs.len()
        invariant
            s == cs@,
            s == text@,
            chars_fit(s, max_bytes as int),
            i <= s.len(),
            rest@ == s.skip(i as int),
            str_views(chunks@) + greedy_chunks(s.skip(i as int), max_bytes as int) == greedy_chunks(
                s,
                max_bytes as int,
            ),
        decreases s.len() - i,
    {
        let ghost r = s.skip(i as int);
        let mut k: usize = i;
        let mut bytes: usize = 0;
        proof {
            assert(s.subrange(i as int, i as int) =~= Seq::<char>::empty());
            assert(s.skip(k as int) =~= r);
        }
        while k < cs.len() && char_width(cs[k]) <= max_bytes - bytes
            invariant
                s == cs@,
                i <= k <= s.len(),
                r == s.skip(i as int),
                bytes <= max_bytes,
                bytes == utf8_len(s.subrange(i as int, k as int)),
                fit_prefix_len(r, max_bytes as int) == (k - i) + fit_prefix_len(
                    s.skip(k as int),
                    max_bytes - bytes,
                ),
            decreases s.len() - k,
        {
            let w = char_width(cs[k]);
            proof {
                let t = s.skip(k as int);
                assert(t[0] == s[k as int]);
                assert(t.drop_first() =~= s.skip(k as int + 1));
                assert(s.subrange(i as int, k as int + 1) =~= s.subrange(i as int, k as int).push(
                    s[k as int],
                ));
                lemma_utf8_len_push(s.subrange(i as int, k as int), s[k as int]);
            }
            bytes = bytes + w;
            k = k + 1;
        }
        proof {
            assert(fit_prefix_len(s.skip(k as int), max_bytes - bytes) == 0);
            assert(r.take(k - i) =~= s.subrange(i as int, k as int));
            lemma_fit_prefix_len(r, max_bytes as int);
            lemma_prefix_is_char_boundary(rest@, (k - i) as int);
        }
        let (head, tail) = rest.split_at(bytes);
        proof {
            lemma_split_views(rest, (k - i) as int, head, tail);
            assert(r.skip(k - i) =~= s.skip(k as int));
            assert(str_views(chunks@.push(head)) =~= str_views(chunks@).push(head@));
            assert(greedy_chunks(r, max_bytes as int) == seq![r.take((k - i) as int)]
                + greedy_chunks(r.skip((k - i) as int), max_bytes as int));
            assert(str_views(chunks@).push(head@) + greedy_chunks(s.skip(k as int), max_bytes as int)
                =~= str_views(chunks@) + greedy_chunks(r, max_bytes as int));
        }
        chunks.push(head);
        rest = tail;
        i = k;
    }
    proof {
        assert(s.skip(i as int) =~= Seq::<char>::empty());
        assert(str_views(chunks@) + Seq::<Seq<char>>::empty() =~= str_views(chunks@));
    }
    chunks
}


// ---------------------------------------------------------------------------
// Windows of a slice of lines
// ---------------------------------------------------------------------------

/// One verification window: 1-based line range plus its text.
#[derive(Clone)]
pub struct CodeWindow {
    pub start: usize,
    pub end: usize,
    pub snippet: String,
}

impl View for CodeWindow {
    type V = (int, int, Seq<char>);

    open spec fn view(&self) -> (int, int, Seq<char>) {
        (self.start as int, self.end as int, self.snippet@)
    }
}

impl CodeWindow {
    /// A copy of this window.
    pub fn duplicate(&self) -> (w: CodeWindow)
        ensures
            w@ == self@,
    {
        CodeWindow { start: self.start, end: self.end, snippet: self.snippet.clone() }
    }
}

pub open spec fn windows_view(v: Seq<CodeWindow>) -> Seq<(int, int, Seq<char>)> {
    v.map_values(|w: CodeWindow| w@)
}

/// Lines joined with `\n`.
pub open spec fn joined(ls: Seq<Seq<char>>) -> Seq<char>
    decreases ls.len(),
{
    if ls.len() == 0 {
        seq![]
    } else if ls.len() == 1 {
        ls[0]
    } else {
        joined(ls.drop_last()) + seq!['\n'] + ls.last()
    }
}

/// A window's text is its lines with exactly one `\n` between neighbours.
pub proof fn law_joined_is_newline_separated(ls: Seq<Seq<char>>)
    ensures
        joined(ls) == join_with(ls, '\n'),
    decreases ls.len(),
{
    if ls.len() > 1 {
        law_joined_is_newline_separated(ls.drop_last());
    }
}

pub open spec fn line_fits(l: Seq<char>) -> bool {
    utf8_len(l) <= MAX_WINDOW_BYTES
}

/// The window holding `ls[0..k]` can take line `k` as well.
pub open spec fn group_extends(ls: Seq<Seq<char>>, k: int) -> bool {
    &&& 0 <= k < ls.len()
    &&& line_fits(ls[k])
    &&& utf8_len(joined(ls.take(k))) + 1 + utf8_len(ls[k]) <= MAX_WINDOW_BYTES
}

/// Number of lines of the window that starts at `ls[0]`, once it holds `k`.
pub open spec fn group_len_from(ls: Seq<Seq<char>>, k: int) -> int
    decreases ls.len() - k,
{
    if group_extends(ls, k) {
        group_len_from(ls, k + 1)
    } else {
        k
    }
}

/// The one-line windows of an oversized line, one per UTF-8-safe chunk.
pub open spec fn chunk_windows(line: int, l: Seq<char>) -> Seq<(int, int, Seq<char>)> {
    greedy_chunks(l, MAX_WINDOW_BYTES as int).map_values(|c: Seq<char>| (line, line, c))
}

/// Windows of consecutive lines numbered from `first`: an oversized line
/// becomes its own chunk windows; otherwise lines are packed greedily into
/// one window while the joined text stays within `MAX_WINDOW_BYTES`.
pub open spec fn bounded_windows(ls: Seq<Seq<char>>, first: int) -> Seq<(int, int, Seq<char>)>
    decreases ls.len(),
{
    if ls.len() == 0 {
        seq![]
    } else if !line_fits(ls[0]) {
        chunk_windows(first, ls[0]) + bounded_windows(ls.drop_first(), first + 1)
    } else {
        let k = group_len_from(ls, 1);
        proof {
            lemma_group_len_bounds(ls, 1);
        }
        seq![(first, first + k - 1, joined(ls.take(k)))] + bounded_windows(ls.skip(k), first + k)
    }
}

pub proof fn lemma_group_len_bounds(ls: Seq<Seq<char>>, k: int)
    requires
        1 <= k <= ls.len(),
    ensures
        k <= group_len_from(ls, k) <= ls.len(),
    decreases ls.len() - k,
{
    if group_extends(ls, k) {
        lemma_group_len_bounds(ls, k + 1);
    }
}

proof fn lemma_joined_push(ls: Seq<Seq<char>>, l: Seq<char>)
    requires
        ls.len() > 0,
    ensures
        joined(ls.push(l)) == joined(ls) + seq!['\n'] + l,
{
    assert(ls.push(l).drop_last() =~= ls);
}

proof fn lemma_all_chars_fit(l: Seq<char>)
    ensures
        chars_fit(l, MAX_WINDOW_BYTES as int),
{
    assert forall|i: int| 0 <= i < l.len() implies char_utf8_len(l[i]) <= MAX_WINDOW_BYTES by {
        lemma_char_utf8_len_bounds(l[i]);
    }
}

/// Append windows for one line-slice, splitting whenever the byte cap would
/// be exceeded so no single window can blow past `MAX_WINDOW_BYTES`.
#[verifier::spinoff_prover]
#[verifier::rlimit(60)]
pub fn push_bounded_windows(result: &mut Vec<CodeWindow>, lines: &[&str], first_line: usize)
    requires
        first_line + lines@.len() <= usize::MAX + 1,
    ensures
        windows_view(final(result)@) == windows_view(old(result)@) + bounded_windows(
            str_views(lines@),
            first_line as int,
        ),
{
    let ghost ls = str_views(lines@);
    let ghost f = first_line as int;
    let ghost total = windows_view(result@) + bounded_windows(ls, f);
    let mut snippet = String::new();
    let mut start: usize = first_line;
    let mut end: usize = first_line;
    let mut has_lines = false;
    let mut offset: usize = 0;
    proof {
        reveal_strlit("\n");
        assert(ls.skip(0) =~= ls);
    }
    while offset < lines.len()
        invariant
            ls == str_views(lines@),
            f == first_line,
            first_line + lines@.len() <= usize::MAX + 1,
            offset <= ls.len(),
            total == windows_view(old(result)@) + bounded_windows(ls, f),
            "\n"@ == seq!['\n'],
            !has_lines ==> windows_view(result@) + bounded_windows(ls.skip(offset as int), f + offset)
                == total,
            !has_lines ==> snippet@ == Seq::<char>::empty(),
            has_lines ==> {
                &&& f <= start < f + offset
                &&& end == f + offset - 1
                &&& snippet@ == joined(ls.subrange(start - f, offset as int))
                &&& utf8_len(snippet@) <= MAX_WINDOW_BYTES
                &&& line_fits(ls[start - f])
                &&& group_len_from(ls.skip(start - f), 1) == group_len_from(
                    ls.skip(start - f),
                    offset - (start - f),
                )
                &&& windows_view(result@) + bounded_windows(ls.skip(start - f), start as int)
                    == total
            },
        decreases ls.len() - offset,
    {
        let line = lines[offset];
        let line_number = first_line + offset;
        let ghost o = offset as int;
        proof {
            assert(ls[o] == line@);
        }
        let line_len = byte_len(line);
        if line_len > MAX_WINDOW_BYTES {
            if has_lines {
                let ghost g = start - f;
                proof {
                    let t = ls.skip(g);
                    assert(t[o - g] == ls[o]);
                    assert(!group_extends(t, o - g));
                    assert(group_len_from(t, o - g) == o - g);
                    assert(t.take(o - g) =~= ls.subrange(g, o));
                    assert(t.skip(o - g) =~= ls.skip(o));
                    assert(t[0] == ls[g]);
                }
                let w = CodeWindow { start, end, snippet };
                proof {
                    let t = ls.skip(g);
                    assert(windows_view(result@.push(w)) =~= windows_view(result@).push(w@));
                    assert(bounded_windows(t, start as int) == seq![(start as int, start as int + (o - g) - 1, joined(t.take(o - g)))] + bounded_windows(t.skip(o - g), start + (o - g)));
                    assert(windows_view(result@).push(w@) + bounded_windows(ls.skip(o), f + o) =~= windows_view(result@) + bounded_windows(t, start as int));
                }
                result.push(w);
                snippet = String::new();
                has_lines = false;
            }
            proof {
                lemma_all_chars_fit(line@);
                assert(windows_view(result@) + bounded_windows(ls.skip(o), f + o) == total);
            }
            let parts = utf8_chunks(line, MAX_WINDOW_BYTES);
            let ghost before = windows_view(result@);
            let ghost cw = chunk_windows(line_number as int, line@);
            let mut p: usize = 0;
            while p < parts.len()
                invariant
                    str_views(parts@) == greedy_chunks(line@, MAX_WINDOW_BYTES as int),
                    cw == chunk_windows(line_number as int, line@),
                    p <= parts@.len(),
                    windows_view(result@) == before + cw.take(p as int),
                decreases parts@.len() - p,
            {
                let w = CodeWindow { start: line_number, end: line_number, snippet: parts[p].to_owned() };
                proof {
                    assert(str_views(parts@)[p as int] == parts@[p as int]@);
                    assert(windows_view(result@.push(w)) =~= windows_view(result@).push(w@));
                    assert(cw.take(p as int + 1) =~= cw.take(p as int).push(cw[p as int]));
                }
                result.push(w);
                p += 1;
            }
            proof {
                assert(cw.take(p as int) =~= cw);
                let t = ls.skip(o);
                assert(t[0] == ls[o]);
                assert(t.drop_first() =~= ls.skip(o + 1));
                assert(!line_fits(t[0]));
                assert(bounded_windows(t, f + o) == chunk_windows(f + o, t[0]) + bounded_windows(t.drop_first(), f + o + 1));
                assert(windows_view(result@) + bounded_windows(ls.skip(o + 1), f + o + 1) =~= before + bounded_windows(t, f + o));
            }
            offset += 1;
            continue;
        }
        let added = if has_lines { line_len + 1 } else { line_len };
        let cur = byte_len(snippet.as_str());
        if has_lines && cur + added > MAX_WINDOW_BYTES {
            let ghost g = start - f;
            proof {
                let t = ls.skip(g);
                assert(t[o - g] == ls[o]);
                assert(t.take(o - g) =~= ls.subrange(g, o));
                assert(!group_extends(t, o - g));
                assert(group_len_from(t, o - g) == o - g);
                assert(t.skip(o - g) =~= ls.skip(o));
                assert(t[0] == ls[g]);
            }
            let w = CodeWindow { start, end, snippet };
            proof {
                let t = ls.skip(g);
                assert(windows_view(result@.push(w)) =~= windows_view(result@).push(w@));
                assert(bounded_windows(t, start as int) == seq![(start as int, start as int + (o - g) - 1, joined(t.take(o - g)))] + bounded_windows(t.skip(o - g), start + (o - g)));
                assert(windows_view(result@).push(w@) + bounded_windows(ls.skip(o), f + o) =~= windows_view(result@) + bounded_windows(t, start as int));
            }
            result.push(w);
            snippet = String::new();
            has_lines = false;
        }
        if has_lines {
            let ghost g = start - f;
            proof {
                let t = ls.skip(g);
                assert(t[o - g] == ls[o]);
                assert(t.take(o - g) =~= ls.subrange(g, o));
                assert(utf8_len(snippet@) + 1 + utf8_len(line@) <= MAX_WINDOW_BYTES);
                assert(line_fits(t[o - g]));
                assert(group_extends(t, o - g));
                assert(group_len_from(t, o - g) == group_len_from(t, o - g + 1));
                assert(ls.subrange(g, o + 1) =~= ls.subrange(g, o).push(ls[o]));
                lemma_joined_push(ls.subrange(g, o), ls[o]);
                lemma_utf8_len_concat(snippet@, seq!['\n']);
                lemma_utf8_len_concat(snippet@ + seq!['\n'], line@);
                lemma_utf8_len_push(Seq::<char>::empty(), '\n');
                assert(Seq::<char>::empty().push('\n') =~= seq!['\n']);
                assert(utf8_len(Seq::<char>::empty()) == 0);
            }
            snippet.append("\n");
        } else {
            start = line_number;
            proof {
                assert(ls.subrange(o, o) =~= Seq::<Seq<char>>::empty());
                assert(ls.skip(o)[0] == ls[o]);
                assert(ls.subrange(o, o + 1) =~= seq![ls[o]]);
                assert(snippet@ =~= Seq::<char>::empty());
            }
        }
        snippet.append(line);
        end = line_number;
        has_lines = true;
        proof {
            if start == line_number {
                assert(snippet@ =~= line@);
            }
        }
        offset += 1;
    }
    if has_lines {
        let ghost g = start - f;
        proof {
            let t = ls.skip(g);
            lemma_group_len_bounds(t, offset - g);
            assert(group_len_from(t, offset - g) == offset - g);
            assert(t.take(offset - g) =~= ls.subrange(g, offset as int));
            assert(t.skip(offset - g) =~= Seq::<Seq<char>>::empty());
            assert(t[0] == ls[g]);
        }
        let w = CodeWindow { start, end, snippet };
        proof {
            let t = ls.skip(g);
            assert(windows_view(result@.push(w)) =~= windows_view(result@).push(w@));
            assert(bounded_windows(t, start as int) == seq![(start as int, start as int + (offset - g) - 1, joined(t.take(offset - g)))] + bounded_windows(t.skip(offset - g), start + (offset - g)));
            assert(bounded_windows(t.skip(offset - g), start + (offset - g)) == Seq::<(int, int, Seq<char>)>::empty());
            assert(windows_view(result@).push(w@) =~= windows_view(result@) + bounded_windows(t, start as int));
        }
        result.push(w);
    } else {
        proof {
            assert(ls.skip(offset as int) =~= Seq::<Seq<char>>::empty());
            assert(windows_view(result@) + bounded_windows(ls.skip(offset as int), f + offset) =~= windows_view(result@));
        }
    }
}


// ---------------------------------------------------------------------------
// Windows of a whole text
// ---------------------------------------------------------------------------

/// Windows from line index `s` on: up to `WINDOW` lines each, the next one
/// starting `OVERLAP` lines before the end of the previous.
pub open spec fn windows_from(ls: Seq<Seq<char>>, s: int) -> Seq<(int, int, Seq<char>)>
    decreases ls.len() - s,
{
    if s < 0 || s >= ls.len() {
        seq![]
    } else {
        let e = if s + WINDOW < ls.len() {
            s + WINDOW
        } else {
            ls.len() as int
        };
        bounded_windows(ls.subrange(s, e), s + 1) + if e == ls.len() {
            seq![]
        } else {
            windows_from(ls, e - OVERLAP)
        }
    }
}

/// The windows of a text.
pub open spec fn text_windows(t: Seq<char>) -> Seq<(int, int, Seq<char>)> {
    windows_from(text_lines(t), 0)
}

/// Split `text` into overlapping ~100-line windows with 1-based line ranges.
pub fn windows(text: &str) -> (result: Vec<CodeWindow>)
    requires
        text_lines(text@).len() < usize::MAX,
    ensures
        windows_view(result@) == text_windows(text@),
{
    let owned = lines_of(text);
    let ghost ls = text_lines(text@);
    let mut lines: Vec<&str> = Vec::new();
    let mut i: usize = 0;
    while i < owned.len()
        invariant
            strings_view(owned@) == ls,
            i <= owned@.len(),
            str_views(lines@) == ls.take(i as int),
        decreases owned@.len() - i,
    {
        let l = owned[i].as_str();
        proof {
            assert(strings_view(owned@)[i as int] == owned@[i as int]@);
            assert(str_views(lines@.push(l)) =~= str_views(lines@).push(l@));
            assert(ls.take(i as int + 1) =~= ls.take(i as int).push(ls[i as int]));
        }
        lines.push(l);
        i += 1;
    }
    proof {
        assert(ls.take(i as int) =~= ls);
    }
    let mut result: Vec<CodeWindow> = Vec::new();
    let mut start: usize = 0;
    let n = lines.len();
    proof {
        assert(windows_view(result@) =~= Seq::<(int, int, Seq<char>)>::empty());
    }
    while start < n
        invariant
            n == ls.len(),
            n < usize::MAX,
            str_views(lines@) == ls,
            start <= n,
            windows_view(result@) + windows_from(ls, start as int) == windows_from(ls, 0),
        decreases n - start,
    {
        let end = if n - start > WINDOW {
            start + WINDOW
        } else {
            n
        };
        let ghost before = windows_view(result@);
        let slice = &lines[start..end];
        proof {
            assert(str_views(slice@) =~= ls.subrange(start as int, end as int));
        }
        push_bounded_windows(&mut result, slice, start + 1);
        if end == n {
            proof {
                assert(windows_view(result@) =~= before + windows_from(ls, start as int));
                assert(windows_from(ls, n as int) == Seq::<(int, int, Seq<char>)>::empty());
                assert(windows_view(result@) + windows_from(ls, n as int) =~= windows_view(result@));
            }
            start = n;
        } else {
            proof {
                assert(windows_view(result@) + windows_from(ls, end - OVERLAP) =~= before
                    + windows_from(ls, start as int));
            }
            start = end - OVERLAP;
        }
    }
    proof {
        assert(windows_view(result@) + windows_from(ls, start as int) =~= windows_view(result@));
    }
    result
}

// ---------------------------------------------------------------------------
// Request batches
// ---------------------------------------------------------------------------

/// Source bytes of windows `s..e`.
pub open spec fn span_bytes(ws: Seq<(int, int, Seq<char>)>, s: int, e: int) -> int
    decreases e - s,
{
    if e <= s {
        0
    } else {
        span_bytes(ws, s, e - 1) + utf8_len(ws[e - 1].2)
    }
}

/// Windows `s..e` fit one request.
pub open spec fn batch_fits(ws: Seq<(int, int, Seq<char>)>, s: int, e: int) -> bool {
    e - s <= MAX_WINDOWS_PER_REQUEST && span_bytes(ws, s, e) <= MAX_REQUEST_SOURCE_BYTES
}

/// End of the batch that starts at `s` and already holds `s..e`: it grows
/// while the next window still fits.
pub open spec fn batch_end_from(ws: Seq<(int, int, Seq<char>)>, s: int, e: int) -> int
    decreases ws.len() - e,
{
    if e < ws.len() && batch_fits(ws, s, e + 1) {
        batch_end_from(ws, s, e + 1)
    } else {
        e
    }
}

/// Index ranges of the batches from window `s` on.
pub open spec fn batch_bounds_from(ws: Seq<(int, int, Seq<char>)>, s: int) -> Seq<(int, int)>
    decreases ws.len() - s,
{
    if s < 0 || s >= ws.len() {
        seq![]
    } else {
        let e = batch_end_from(ws, s, s + 1);
        proof {
            lemma_batch_end_bounds(ws, s, s + 1);
        }
        seq![(s, e)] + batch_bounds_from(ws, e)
    }
}

/// Index ranges of the request batches of a window list.
pub open spec fn batch_bounds(ws: Seq<(int, int, Seq<char>)>) -> Seq<(int, int)> {
    batch_bounds_from(ws, 0)
}

pub proof fn lemma_batch_end_bounds(ws: Seq<(int, int, Seq<char>)>, s: int, e: int)
    requires
        e <= ws.len(),
    ensures
        e <= batch_end_from(ws, s, e) <= ws.len(),
    decreases ws.len() - e,
{
    if e < ws.len() && batch_fits(ws, s, e + 1) {
        lemma_batch_end_bounds(ws, s, e + 1);
    }
}

/// Group windows into request-sized batches bounded by both window count and
/// total source bytes.
pub fn window_batches(windows: &[CodeWindow]) -> (batches: Vec<&[CodeWindow]>)
    ensures
        batches@.len() == batch_bounds(windows_view(windows@)).len(),
        forall|i: int|
            0 <= i < batches@.len() ==> batches@[i]@ == windows@.subrange(
                batch_bounds(windows_view(windows@))[i].0,
                batch_bounds(windows_view(windows@))[i].1,
            ),
{
    let ghost ws = windows_view(windows@);
    let mut batches: Vec<&[CodeWindow]> = Vec::new();
    let ghost mut bs: Seq<(int, int)> = seq![];
    let mut start: usize = 0;
    let mut bytes: usize = 0;
    let mut index: usize = 0;
    let n = windows.len();
    while index < n
        invariant
            n == windows@.len(),
            ws == windows_view(windows@),
            start <= index <= n,
            index == start ==> bytes == 0,
            bytes == span_bytes(ws, start as int, index as int),
            index > start + 1 ==> batch_fits(ws, start as int, index as int),
            index > start ==> batch_end_from(ws, start as int, start + 1) == batch_end_from(
                ws,
                start as int,
                index as int,
            ),
            batches@.len() == bs.len(),
            forall|i: int| 0 <= i < batches@.len() ==> batches@[i]@ == windows@.subrange(bs[i].0, bs[i].1),
            index == start ==> bs + batch_bounds_from(ws, start as int) == batch_bounds(ws),
            index > start ==> bs + batch_bounds_from(ws, start as int) == batch_bounds(ws),
        decreases n - index,
    {
        let len = byte_len(windows[index].snippet.as_str());
        proof {
            assert(ws[index as int].2 == windows@[index as int].snippet@);
        }
        if index > start && (index - start >= MAX_WINDOWS_PER_REQUEST || bytes
            > MAX_REQUEST_SOURCE_BYTES || len > MAX_REQUEST_SOURCE_BYTES - bytes) {
            proof {
                assert(!batch_fits(ws, start as int, index + 1));
                assert(batch_end_from(ws, start as int, index as int) == index);
                lemma_batch_end_bounds(ws, start as int, start + 1);
                assert(batch_bounds_from(ws, start as int) == seq![(start as int, index as int)]
                    + batch_bounds_from(ws, index as int));
            }
            let batch = &windows[start..index];
            proof {
                bs = bs.push((start as int, index as int));
                assert(bs + batch_bounds_from(ws, index as int) =~= bs.drop_last() + batch_bounds_from(
                    ws,
                    start as int,
                ));
            }
            batches.push(batch);
            start = index;
            bytes = 0;
        } else if index > start {
            proof {
                assert(batch_fits(ws, start as int, index + 1));
                assert(batch_end_from(ws, start as int, index as int) == batch_end_from(
                    ws,
                    start as int,
                    index + 1,
                ));
            }
        }
        proof {
            assert(span_bytes(ws, start as int, index + 1) == span_bytes(ws, start as int, index as int)
                + utf8_len(ws[index as int].2));
            assert(span_bytes(ws, start as int, index + 1) == bytes + len);
        }
        bytes = bytes + len;
        index += 1;
        proof {
            if index == start + 1 {
                assert(span_bytes(ws, start as int, start as int) == 0);
            }
        }
    }
    if start < n {
        proof {
            lemma_batch_end_bounds(ws, start as int, start + 1);
            assert(batch_end_from(ws, start as int, n as int) == n);
            assert(batch_bounds_from(ws, n as int) == Seq::<(int, int)>::empty());
            assert(batch_bounds_from(ws, start as int) == seq![(start as int, n as int)]
                + batch_bounds_from(ws, n as int));
        }
        let batch = &windows[start..n];
        proof {
            bs = bs.push((start as int, n as int));
            assert(bs =~= batch_bounds(ws));
        }
        batches.push(batch);
    } else {
        proof {
            assert(bs + batch_bounds_from(ws, start as int) =~= bs);
        }
    }
    batches
}


// ---------------------------------------------------------------------------
// Laws
// ---------------------------------------------------------------------------

/// Every piece holds at most `max` bytes.
pub open spec fn pieces_within(cs: Seq<Seq<char>>, max: int) -> bool {
    forall|i: int| 0 <= i < cs.len() ==> 0 < cs[i].len() && utf8_len(cs[i]) <= max
}

/// Each piece but the last would overflow `max` if it took the next
/// piece's first character.
pub open spec fn pieces_maximal(cs: Seq<Seq<char>>, max: int) -> bool {
    forall|i: int|
        0 <= i < cs.len() - 1 ==> utf8_len(cs[i]) + char_utf8_len(#[trigger] cs[i + 1][0]) > max
}

/// UTF-8-safe chunking loses nothing and breaks no character: the chunks
/// concatenate back to the text, each holds between one character and
/// `max` bytes, and each is as long as the cap allows.
pub proof fn law_utf8_chunks_partition_text(s: Seq<char>, max: int)
    requires
        chars_fit(s, max),
    ensures
        greedy_chunks(s, max).flatten() == s,
        pieces_within(greedy_chunks(s, max), max),
        pieces_maximal(greedy_chunks(s, max), max),
    decreases s.len(),
{
    let cs = greedy_chunks(s, max);
    if s.len() == 0 {
        assert(cs =~= Seq::<Seq<char>>::empty());
        assert(cs.flatten() =~= s);
    } else {
        lemma_fit_prefix_len(s, max);
        let k = fit_prefix_len(s, max) as int;
        let t = s.skip(k);
        assert(chars_fit(t, max)) by {
            assert forall|i: int| 0 <= i < t.len() implies char_utf8_len(t[i]) <= max by {
                assert(t[i] == s[i + k]);
            }
        }
        law_utf8_chunks_partition_text(t, max);
        let rest = greedy_chunks(t, max);
        assert(cs == seq![s.take(k)] + rest);
        assert((seq![s.take(k)] + rest).drop_first() =~= rest);
        assert(cs.flatten() == s.take(k) + rest.flatten());
        assert(s.take(k) + t =~= s);
        assert forall|i: int| 0 <= i < cs.len() implies 0 < cs[i].len() && utf8_len(cs[i]) <= max by {
            if i > 0 {
                assert(cs[i] == rest[i - 1]);
            }
        }
        assert forall|i: int| 0 <= i < cs.len() - 1 implies utf8_len(cs[i]) + char_utf8_len(
            #[trigger] cs[i + 1][0],
        ) > max by {
            if i > 0 {
                assert(cs[i] == rest[i - 1]);
                assert(cs[i + 1] == rest[i]);
            } else {
                assert(t.len() > 0);
                lemma_fit_prefix_len(t, max);
                assert(rest[0] == t.take(fit_prefix_len(t, max) as int));
                assert(cs[1] == rest[0]);
                assert(rest[0][0] == t[0]);
                assert(t[0] == s[k]);
            }
        }
    }
}

/// Every window text is within `MAX_WINDOW_BYTES`.
pub open spec fn windows_within_cap(ws: Seq<(int, int, Seq<char>)>) -> bool {
    forall|i: int| 0 <= i < ws.len() ==> utf8_len(#[trigger] ws[i].2) <= MAX_WINDOW_BYTES
}

/// Every window's 1-based line range lies within `lo..=hi`.
pub open spec fn windows_within_lines(ws: Seq<(int, int, Seq<char>)>, lo: int, hi: int) -> bool {
    forall|i: int| 0 <= i < ws.len() ==> lo <= (#[trigger] ws[i]).0 <= ws[i].1 <= hi
}

proof fn lemma_group_fits(ls: Seq<Seq<char>>, k: int)
    requires
        1 <= k <= ls.len(),
        utf8_len(joined(ls.take(k))) <= MAX_WINDOW_BYTES,
    ensures
        utf8_len(joined(ls.take(group_len_from(ls, k)))) <= MAX_WINDOW_BYTES,
    decreases ls.len() - k,
{
    if group_extends(ls, k) {
        assert(ls.take(k + 1) =~= ls.take(k).push(ls[k]));
        lemma_joined_push(ls.take(k), ls[k]);
        lemma_utf8_len_concat(joined(ls.take(k)), seq!['\n']);
        lemma_utf8_len_concat(joined(ls.take(k)) + seq!['\n'], ls[k]);
        lemma_utf8_len_push(Seq::<char>::empty(), '\n');
        assert(Seq::<char>::empty().push('\n') =~= seq!['\n']);
        assert(utf8_len(Seq::<char>::empty()) == 0);
        lemma_group_fits(ls, k + 1);
    }
}

/// No window of a line slice exceeds the byte cap, and each one's range
/// lies within the slice's line numbers.
pub proof fn law_bounded_windows_within_cap(ls: Seq<Seq<char>>, first: int)
    ensures
        windows_within_cap(bounded_windows(ls, first)),
        windows_within_lines(bounded_windows(ls, first), first, first + ls.len() - 1),
    decreases ls.len(),
{
    let ws = bounded_windows(ls, first);
    if ls.len() == 0 {
    } else if !line_fits(ls[0]) {
        lemma_all_chars_fit(ls[0]);
        law_utf8_chunks_partition_text(ls[0], MAX_WINDOW_BYTES as int);
        law_bounded_windows_within_cap(ls.drop_first(), first + 1);
        let cw = chunk_windows(first, ls[0]);
        let rest = bounded_windows(ls.drop_first(), first + 1);
        assert(ws == cw + rest);
        assert forall|i: int| 0 <= i < ws.len() implies utf8_len(#[trigger] ws[i].2)
            <= MAX_WINDOW_BYTES && first <= ws[i].0 <= ws[i].1 <= first + ls.len() - 1 by {
            if i < cw.len() {
                assert(ws[i] == cw[i]);
            } else {
                assert(ws[i] == rest[i - cw.len()]);
            }
        }
    } else {
        let k = group_len_from(ls, 1);
        lemma_group_len_bounds(ls, 1);
        assert(ls.take(1) =~= seq![ls[0]]);
        lemma_group_fits(ls, 1);
        law_bounded_windows_within_cap(ls.skip(k), first + k);
        let rest = bounded_windows(ls.skip(k), first + k);
        assert(ws == seq![(first, first + k - 1, joined(ls.take(k)))] + rest);
        assert forall|i: int| 0 <= i < ws.len() implies utf8_len(#[trigger] ws[i].2)
            <= MAX_WINDOW_BYTES && first <= ws[i].0 <= ws[i].1 <= first + ls.len() - 1 by {
            if i > 0 {
                assert(ws[i] == rest[i - 1]);
            }
        }
    }
}

proof fn lemma_windows_from_within(ls: Seq<Seq<char>>, s: int)
    requires
        0 <= s,
    ensures
        windows_within_cap(windows_from(ls, s)),
        windows_within_lines(windows_from(ls, s), 1, ls.len() as int),
    decreases ls.len() - s,
{
    if s < ls.len() {
        let e = if s + WINDOW < ls.len() {
            s + WINDOW
        } else {
            ls.len() as int
        };
        let head = bounded_windows(ls.subrange(s, e), s + 1);
        law_bounded_windows_within_cap(ls.subrange(s, e), s + 1);
        let tail = if e == ls.len() {
            Seq::<(int, int, Seq<char>)>::empty()
        } else {
            lemma_windows_from_within(ls, e - OVERLAP);
            windows_from(ls, e - OVERLAP)
        };
        let ws = windows_from(ls, s);
        assert(ws == head + tail);
        assert forall|i: int| 0 <= i < ws.len() implies utf8_len(#[trigger] ws[i].2)
            <= MAX_WINDOW_BYTES && 1 <= ws[i].0 <= ws[i].1 <= ls.len() by {
            if i < head.len() {
                assert(ws[i] == head[i]);
            } else {
                assert(ws[i] == tail[i - head.len()]);
            }
        }
    }
}

/// Every window of a text holds at most `MAX_WINDOW_BYTES` bytes and names a
/// 1-based line range within the text's lines.
pub proof fn law_text_windows_bounded(t: Seq<char>)
    ensures
        windows_within_cap(text_windows(t)),
        windows_within_lines(text_windows(t), 1, text_lines(t).len() as int),
{
    lemma_windows_from_within(text_lines(t), 0);
}

/// The line stretches `[start, end)` (0-based) of `n` lines that
/// `windows_from` windows from line `s` on: up to `WINDOW` lines each, the
/// next starting `OVERLAP` lines before the end of the previous.
pub open spec fn stretches_from(n: int, s: int) -> Seq<(int, int)>
    decreases n - s,
{
    if s < 0 || s >= n {
        seq![]
    } else {
        let e = if s + WINDOW < n {
            s + WINDOW
        } else {
            n
        };
        seq![(s, e)] + if e == n {
            Seq::<(int, int)>::empty()
        } else {
            stretches_from(n, e - OVERLAP)
        }
    }
}

/// The windows of the stretches `st` of `ls`, in order.
pub open spec fn stretch_windows(ls: Seq<Seq<char>>, st: Seq<(int, int)>) -> Seq<(int, int, Seq<char>)>
    decreases st.len(),
{
    if st.len() == 0 {
        seq![]
    } else {
        bounded_windows(ls.subrange(st[0].0, st[0].1), st[0].0 + 1) + stretch_windows(
            ls,
            st.drop_first(),
        )
    }
}

/// Windowing from line `s` is windowing each of its stretches in turn.
proof fn lemma_windows_from_stretches(ls: Seq<Seq<char>>, s: int)
    requires
        0 <= s,
    ensures
        windows_from(ls, s) == stretch_windows(ls, stretches_from(ls.len() as int, s)),
    decreases ls.len() - s,
{
    let n = ls.len() as int;
    if s < n {
        let e = if s + WINDOW < n {
            s + WINDOW
        } else {
            n
        };
        let st = stretches_from(n, s);
        assert(st[0] == (s, e));
        if e < n {
            lemma_windows_from_stretches(ls, e - OVERLAP);
            assert(st.drop_first() =~= stretches_from(n, e - OVERLAP));
        } else {
            assert(st.drop_first() =~= Seq::<(int, int)>::empty());
            assert(stretch_windows(ls, st.drop_first()) =~= Seq::<(int, int, Seq<char>)>::empty());
        }
        assert(stretch_windows(ls, st) == bounded_windows(ls.subrange(s, e), s + 1) + stretch_windows(ls, st.drop_first()));
    }
}

/// Stretches hold between one and `WINDOW` lines within `0..n`, start at
/// `s`, end at `n`, and each starts `OVERLAP` lines before its
/// predecessor's end.
proof fn lemma_stretches_shape(n: int, s: int)
    requires
        0 <= s < n,
    ensures
        ({
            let st = stretches_from(n, s);
            &&& st.len() > 0
            &&& st[0].0 == s
            &&& st.last().1 == n
            &&& forall|i: int| 0 <= i < st.len() ==> 0 <= (#[trigger] st[i]).0 < st[i].1 <= n && st[i].1 - st[i].0 <= WINDOW
            &&& forall|i: int| 0 < i < st.len() ==> (#[trigger] st[i]).0 == st[i - 1].1 - OVERLAP
        }),
    decreases n - s,
{
    let e = if s + WINDOW < n {
        s + WINDOW
    } else {
        n
    };
    let st = stretches_from(n, s);
    if e < n {
        lemma_stretches_shape(n, e - OVERLAP);
        let rest = stretches_from(n, e - OVERLAP);
        assert(st == seq![(s, e)] + rest);
        assert forall|i: int| 0 <= i < st.len() implies 0 <= (#[trigger] st[i]).0 < st[i].1 <= n && st[i].1 - st[i].0 <= WINDOW by {
            if i > 0 {
                assert(st[i] == rest[i - 1]);
            }
        }
        assert forall|i: int| 0 < i < st.len() implies (#[trigger] st[i]).0 == st[i - 1].1 - OVERLAP by {
            assert(st[i] == rest[i - 1]);
            if i > 1 {
                assert(st[i - 1] == rest[i - 2]);
            } else {
                assert(st[0] == (s, e));
            }
        }
        assert(st.last() == rest.last());
    } else {
        assert(st =~= seq![(s, e)]);
    }
}

/// Lines `a..=b` lie whole inside one of the stretches `st`.
pub open spec fn run_in_stretch(st: Seq<(int, int)>, a: int, b: int) -> bool {
    exists|i: int| 0 <= i < st.len() && (#[trigger] st[i]).0 <= a && b < st[i].1
}

/// A run of at most `OVERLAP + 1` lines `a..=b` at or after `s` lies whole
/// inside one stretch.
proof fn lemma_run_in_one_stretch(n: int, s: int, a: int, b: int)
    requires
        0 <= s <= a <= b < n,
        b - a <= OVERLAP,
    ensures
        run_in_stretch(stretches_from(n, s), a, b),
    decreases n - s,
{
    let e = if s + WINDOW < n {
        s + WINDOW
    } else {
        n
    };
    let st = stretches_from(n, s);
    if b < e {
        assert(st[0] == (s, e));
    } else {
        lemma_run_in_one_stretch(n, e - OVERLAP, a, b);
        let rest = stretches_from(n, e - OVERLAP);
        assert(st == seq![(s, e)] + rest);
        let i = choose|i: int| 0 <= i < rest.len() && (#[trigger] rest[i]).0 <= a && b < rest[i].1;
        assert(st[i + 1] == rest[i]);
    }
}

/// The 100/20 line windowing: a text's windows are those of its line
/// stretches in order; the stretches hold at most `WINDOW` lines each, cover
/// every line, and overlap their predecessor by exactly `OVERLAP` lines; so
/// any run of at most `OVERLAP + 1` consecutive lines lies whole inside one
/// stretch (a match straddling one boundary lands whole in the neighbor).
pub proof fn law_windows_overlap(t: Seq<char>)
    ensures
        ({
            let n = text_lines(t).len() as int;
            let st = stretches_from(n, 0);
            &&& text_windows(t) == stretch_windows(text_lines(t), st)
            &&& n == 0 ==> st.len() == 0
            &&& n > 0 ==> st[0].0 == 0 && st.last().1 == n
            &&& forall|i: int| 0 <= i < st.len() ==> 0 <= (#[trigger] st[i]).0 < st[i].1 <= n && st[i].1 - st[i].0 <= WINDOW
            &&& forall|i: int| 0 < i < st.len() ==> (#[trigger] st[i]).0 == st[i - 1].1 - OVERLAP
            &&& forall|a: int, b: int| 0 <= a <= b < n && b - a <= OVERLAP ==> #[trigger] run_in_stretch(st, a, b)
        }),
{
    let ls = text_lines(t);
    let n = ls.len() as int;
    lemma_windows_from_stretches(ls, 0);
    if n > 0 {
        lemma_stretches_shape(n, 0);
        assert forall|a: int, b: int| 0 <= a <= b < n && b - a <= OVERLAP implies #[trigger] run_in_stretch(stretches_from(n, 0), a, b) by {
            lemma_run_in_one_stretch(n, 0, a, b);
        }
    }
}

/// The batch ranges cut `s..n` into consecutive non-empty pieces.
pub open spec fn bounds_partition(bs: Seq<(int, int)>, s: int, n: int) -> bool {
    &&& (bs.len() == 0 <==> s >= n)
    &&& bs.len() > 0 ==> bs[0].0 == s && bs.last().1 == n
    &&& forall|i: int| 0 <= i < bs.len() ==> (#[trigger] bs[i]).0 < bs[i].1
    &&& forall|i: int| 0 <= i < bs.len() - 1 ==> (#[trigger] bs[i]).1 == bs[i + 1].0
}

/// Every batch holds at most `MAX_WINDOWS_PER_REQUEST` windows, and at most
/// `MAX_REQUEST_SOURCE_BYTES` bytes unless it is a single window.
pub open spec fn bounds_within_envelope(ws: Seq<(int, int, Seq<char>)>, bs: Seq<(int, int)>) -> bool {
    forall|i: int|
        0 <= i < bs.len() ==> (#[trigger] bs[i]).1 - bs[i].0 <= MAX_WINDOWS_PER_REQUEST && (bs[i].1
            - bs[i].0 == 1 || span_bytes(ws, bs[i].0, bs[i].1) <= MAX_REQUEST_SOURCE_BYTES)
}

proof fn lemma_batch_end_fits(ws: Seq<(int, int, Seq<char>)>, s: int, e: int)
    requires
        s < e <= ws.len(),
        e == s + 1 || batch_fits(ws, s, e),
    ensures
        batch_end_from(ws, s, e) == s + 1 || batch_fits(ws, s, batch_end_from(ws, s, e)),
        batch_end_from(ws, s, e) - s <= MAX_WINDOWS_PER_REQUEST,
    decreases ws.len() - e,
{
    if e < ws.len() && batch_fits(ws, s, e + 1) {
        lemma_batch_end_fits(ws, s, e + 1);
    }
}

proof fn lemma_batch_bounds_from(ws: Seq<(int, int, Seq<char>)>, s: int)
    requires
        0 <= s,
    ensures
        bounds_partition(batch_bounds_from(ws, s), s, ws.len() as int),
        bounds_within_envelope(ws, batch_bounds_from(ws, s)),
    decreases ws.len() - s,
{
    if s < ws.len() {
        let e = batch_end_from(ws, s, s + 1);
        lemma_batch_end_bounds(ws, s, s + 1);
        lemma_batch_end_fits(ws, s, s + 1);
        lemma_batch_bounds_from(ws, e);
        let rest = batch_bounds_from(ws, e);
        let bs = batch_bounds_from(ws, s);
        assert(bs == seq![(s, e)] + rest);
        assert forall|i: int| 0 <= i < bs.len() implies (#[trigger] bs[i]).0 < bs[i].1 && bs[i].1
            - bs[i].0 <= MAX_WINDOWS_PER_REQUEST && (bs[i].1 - bs[i].0 == 1 || span_bytes(
            ws,
            bs[i].0,
            bs[i].1,
        ) <= MAX_REQUEST_SOURCE_BYTES) by {
            if i > 0 {
                assert(bs[i] == rest[i - 1]);
            }
        }
        assert forall|i: int| 0 <= i < bs.len() - 1 implies (#[trigger] bs[i]).1 == bs[i + 1].0 by {
            if i > 0 {
                assert(bs[i] == rest[i - 1]);
                assert(bs[i + 1] == rest[i]);
            } else if rest.len() > 0 {
                assert(bs[1] == rest[0]);
            }
        }
        if rest.len() > 0 {
            assert(bs.last() == rest.last());
        }
    }
}

/// Request batching keeps every window, in order, exactly once: the batch
/// ranges cut `0..n` into consecutive non-empty pieces, and every batch
/// stays within the request envelope (a single oversized window travels
/// alone).
pub proof fn law_window_batches_partition(ws: Seq<(int, int, Seq<char>)>)
    ensures
        bounds_partition(batch_bounds(ws), 0, ws.len() as int),
        bounds_within_envelope(ws, batch_bounds(ws)),
{
    lemma_batch_bounds_from(ws, 0);
}


/// Each range of a partition of `0..n` lies within `0..n`.
pub proof fn lemma_bounds_in_range(bs: Seq<(int, int)>, n: int, i: int)
    requires
        bounds_partition(bs, 0, n),
        0 <= i < bs.len(),
    ensures
        0 <= bs[i].0 <= bs[i].1 <= n,
    decreases i,
{
    if i > 0 {
        lemma_bounds_in_range(bs, n, i - 1);
        assert(bs[i - 1].1 == bs[i].0);
    }
    lemma_bounds_end(bs, n, i);
}

proof fn lemma_bounds_end(bs: Seq<(int, int)>, n: int, i: int)
    requires
        bounds_partition(bs, 0, n),
        0 <= i < bs.len(),
    ensures
        bs[i].1 <= n,
    decreases bs.len() - i,
{
    if i < bs.len() - 1 {
        lemma_bounds_end(bs, n, i + 1);
        assert(bs[i].1 == bs[i + 1].0);
    }
}

} // verus!
