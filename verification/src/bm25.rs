//! Code-aware tokenizer and the integer statistics of the BM25 index.
//!
//! The tokenizer splits on non-alphanumerics (Unicode-aware), then splits
//! identifiers on `_` and camelCase boundaries (acronym runs preserved), emits
//! lowercase subtokens plus the whole lowercase identifier when it splits, and
//! drops pure numbers (numeric runs in any script) and words longer than 40
//! bytes.

use vstd::prelude::*;
use vstd::hash_map::StringHashMap;
use crate::candidates::union_candidates;
use crate::text::{
    ascii_digit, ascii_lower, ascii_upper, chars_of, char_width, is_alphabetic, is_alphanumeric,
    is_ascii_digit, is_ascii_lower, is_ascii_upper, is_numeric, lemma_split_pieces_nonempty,
    join_with, lemma_split_pieces_concat, lemma_split_pieces_join, lemma_split_pieces_push,
    lemma_split_pieces_shape, lemma_split_pieces_whole,
    lemma_strings_view_push, lemma_utf8_len_concat, lemma_utf8_len_push,
    split_pieces, strictly_sorted, string_from_chars, strings_view, to_lowercase,
    unicode_alphabetic, unicode_alphanumeric, unicode_lowercase, unicode_numeric, utf8_len,
};

verus! {

// ---------------------------------------------------------------------------
// Specification of the tokenizer
// ---------------------------------------------------------------------------

/// Word separators: anything but alphanumerics and `_`.
pub open spec fn word_sep() -> spec_fn(char) -> bool {
    |c: char| !unicode_alphanumeric(c) && c != '_'
}

/// Identifier part separator.
pub open spec fn part_sep() -> spec_fn(char) -> bool {
    |c: char| c == '_'
}

/// A lower/digit → Upper change, or a letter ↔ digit change, at `j`.
pub open spec fn cut_case_or_digit(p: Seq<char>, j: int) -> bool {
    ||| (ascii_upper(p[j]) && !ascii_upper(p[j - 1]))
    ||| (ascii_digit(p[j]) != ascii_digit(p[j - 1]))
}

/// The last capital of an acronym run that starts a Capitalized word
/// (`HTTPServer` is cut before `S`).
pub open spec fn cut_acronym_end(p: Seq<char>, j: int) -> bool {
    &&& j + 1 < p.len()
    &&& ascii_upper(p[j - 1])
    &&& ascii_upper(p[j])
    &&& ascii_lower(p[j + 1])
}

/// Positions where a camelCase run ends and the next one starts.
pub open spec fn is_cut(p: Seq<char>, j: int) -> bool {
    &&& 1 <= j < p.len()
    &&& (cut_case_or_digit(p, j) || cut_acronym_end(p, j))
}

/// The first cut after `i`, or the end of `p`.
pub open spec fn next_cut(p: Seq<char>, i: int) -> int
    decreases p.len() - i,
{
    if i + 1 >= p.len() {
        p.len() as int
    } else if is_cut(p, i + 1) {
        i + 1
    } else {
        next_cut(p, i + 1)
    }
}

/// Every character of `r` is numeric (a pure number, in any script).
pub open spec fn all_numeric(r: Seq<char>) -> bool {
    forall|i: int| 0 <= i < r.len() ==> unicode_numeric(r[i])
}

/// The token of one camelCase run: dropped when empty or a pure number,
/// else lowercased.
pub open spec fn run_tokens(r: Seq<char>) -> Seq<Seq<char>> {
    if all_numeric(r) {
        seq![]
    } else {
        seq![unicode_lowercase(r)]
    }
}

/// Tokens of the camelCase runs of `p` from position `start` on.
pub open spec fn camel_tokens_from(p: Seq<char>, start: int) -> Seq<Seq<char>>
    decreases p.len() - start,
{
    if start < 0 || start >= p.len() {
        seq![]
    } else {
        let e = next_cut(p, start);
        proof {
            lemma_next_cut_after(p, start);
        }
        run_tokens(p.subrange(start, e)) + camel_tokens_from(p, e)
    }
}

/// Tokens of the camelCase runs of one `_`-free part.
pub open spec fn camel_tokens(p: Seq<char>) -> Seq<Seq<char>> {
    camel_tokens_from(p, 0)
}

pub open spec fn has_alphabetic(w: Seq<char>) -> bool {
    exists|i: int| 0 <= i < w.len() && unicode_alphabetic(w[i])
}

/// Tokens of the `_`-separated parts of a word.
pub open spec fn part_tokens(w: Seq<char>) -> Seq<Seq<char>> {
    split_pieces(w, part_sep()).map_values(|p: Seq<char>| camel_tokens(p)).flatten()
}

/// Tokens of one word: nothing for an empty or over-40-byte word; else its
/// subtokens, plus the whole lowercase word when it split into several and
/// holds a letter.
pub open spec fn word_tokens(w: Seq<char>) -> Seq<Seq<char>> {
    if w.len() == 0 || utf8_len(w) > 40 {
        seq![]
    } else if part_tokens(w).len() > 1 && has_alphabetic(w) {
        part_tokens(w).push(unicode_lowercase(w))
    } else {
        part_tokens(w)
    }
}

/// The token sequence of a text.
pub open spec fn text_tokens(s: Seq<char>) -> Seq<Seq<char>> {
    split_pieces(s, word_sep()).map_values(|w: Seq<char>| word_tokens(w)).flatten()
}

/// Any character that is neither alphanumeric nor `_` cuts a text into two
/// halves that tokenize independently: no token spans it.
pub proof fn law_tokens_split_at_non_word_chars(a: Seq<char>, c: char, b: Seq<char>)
    requires
        !unicode_alphanumeric(c),
        c != '_',
    ensures
        text_tokens(a.push(c) + b) == text_tokens(a) + text_tokens(b),
{
    let sep = word_sep();
    let f = |w: Seq<char>| word_tokens(w);
    lemma_split_pieces_concat(a, c, b, sep);
    let pa = split_pieces(a, sep);
    let pb = split_pieces(b, sep);
    assert((pa + pb).map_values(f) =~= pa.map_values(f) + pb.map_values(f));
    vstd::seq_lib::lemma_flatten_concat(pa.map_values(f), pb.map_values(f));
}

proof fn lemma_numeric_part_has_no_tokens(p: Seq<char>, start: int)
    requires
        forall|k: int| 0 <= k < p.len() ==> #[trigger] unicode_numeric(p[k]),
    ensures
        camel_tokens_from(p, start) == Seq::<Seq<char>>::empty(),
    decreases p.len() - start,
{
    if 0 <= start < p.len() {
        let e = next_cut(p, start);
        lemma_next_cut_after(p, start);
        lemma_numeric_part_has_no_tokens(p, e);
        let r = p.subrange(start, e);
        assert forall|i: int| 0 <= i < r.len() implies unicode_numeric(#[trigger] r[i]) by {
            assert(r[i] == p[start + i]);
        }
        assert(run_tokens(r) == Seq::<Seq<char>>::empty());
        assert(camel_tokens_from(p, start) =~= Seq::<Seq<char>>::empty());
    }
}

proof fn lemma_flatten_of_empties(xs: Seq<Seq<Seq<char>>>)
    requires
        forall|i: int| 0 <= i < xs.len() ==> (#[trigger] xs[i]).len() == 0,
    ensures
        xs.flatten() == Seq::<Seq<char>>::empty(),
    decreases xs.len(),
{
    if xs.len() > 0 {
        let ys = xs.drop_last();
        assert forall|i: int| 0 <= i < ys.len() implies (#[trigger] ys[i]).len() == 0 by {
            assert(ys[i] == xs[i]);
        }
        lemma_flatten_of_empties(ys);
        assert(xs =~= ys.push(xs.last()));
        ys.lemma_flatten_push(xs.last());
        assert(xs[xs.len() - 1].len() == 0);
        assert(ys.flatten() + xs.last() =~= Seq::<Seq<char>>::empty());
    }
}

/// Pure numbers are dropped in any script: a word whose characters are all
/// numeric (and alphanumeric), possibly joined by `_`, yields no token.
pub proof fn law_numbers_give_no_tokens(w: Seq<char>)
    requires
        forall|k: int| 0 <= k < w.len() ==> #[trigger] w[k] == '_' || (unicode_numeric(w[k])
            && unicode_alphanumeric(w[k])),
    ensures
        text_tokens(w) == Seq::<Seq<char>>::empty(),
{
    law_word_is_tokenized_whole(w);
    let ps = split_pieces(w, part_sep());
    lemma_split_pieces_shape(w, part_sep());
    let f = |p: Seq<char>| camel_tokens(p);
    assert forall|i: int| 0 <= i < ps.map_values(f).len() implies (#[trigger] ps.map_values(f)[i]).len() == 0 by {
        let p = ps[i];
        assert forall|k: int| 0 <= k < p.len() implies #[trigger] unicode_numeric(p[k]) by {
            assert(p[k] == ps[i][k]);
            assert(ps[i][k] != '_');
            assert(w.contains(p[k]));
            let m = choose|m: int| 0 <= m < w.len() && w[m] == p[k];
            assert(w[m] == p[k]);
        }
        lemma_numeric_part_has_no_tokens(p, 0);
    }
    lemma_flatten_of_empties(ps.map_values(f));
    assert(part_tokens(w) =~= Seq::<Seq<char>>::empty());
}

/// A word splits into its parts exactly at `_`: no part holds a `_`, and
/// the parts joined with `_` give the word back.
pub proof fn law_word_parts_split_at_underscores(w: Seq<char>)
    ensures
        join_with(split_pieces(w, part_sep()), '_') == w,
        forall|i: int, j: int|
            0 <= i < split_pieces(w, part_sep()).len() && 0 <= j < split_pieces(w, part_sep())[i].len()
                ==> #[trigger] split_pieces(w, part_sep())[i][j] != '_',
{
    lemma_split_pieces_shape(w, part_sep());
    lemma_split_pieces_join(w, part_sep(), '_');
}

/// A run of alphanumerics and `_` is tokenized as one word.
pub proof fn law_word_is_tokenized_whole(w: Seq<char>)
    requires
        forall|k: int| 0 <= k < w.len() ==> #[trigger] unicode_alphanumeric(w[k]) || w[k] == '_',
    ensures
        text_tokens(w) == word_tokens(w),
{
    let sep = word_sep();
    lemma_split_pieces_whole(w, sep);
    let f = |x: Seq<char>| word_tokens(x);
    assert(seq![w].map_values(f) =~= seq![word_tokens(w)]);
    seq![word_tokens(w)].lemma_flatten_singleton();
}

// ---------------------------------------------------------------------------
// Lemmas on cuts
// ---------------------------------------------------------------------------

pub proof fn lemma_next_cut_after(p: Seq<char>, i: int)
    ensures
        i < p.len() ==> i < next_cut(p, i) <= p.len(),
    decreases p.len() - i,
{
    if i + 1 < p.len() && !is_cut(p, i + 1) {
        lemma_next_cut_after(p, i + 1);
    }
}

/// With no cut strictly between `i` and `e`, and a cut (or the end) at `e`,
/// the next cut after `i` is `e`.
pub proof fn lemma_next_cut_is(p: Seq<char>, i: int, e: int)
    requires
        i < e <= p.len(),
        forall|j: int| i < j < e ==> !is_cut(p, j),
        e == p.len() || is_cut(p, e),
    ensures
        next_cut(p, i) == e,
    decreases e - i,
{
    if i + 1 < e {
        lemma_next_cut_is(p, i + 1, e);
    }
}

// ---------------------------------------------------------------------------
// Executable tokenizer
// ---------------------------------------------------------------------------

/// Code-aware tokenizer: split on non-alphanumerics, then split identifiers
/// on `_` and camelCase boundaries. Emits lowercase subtokens plus the whole
/// lowercase identifier when it splits; pure numbers (in any script) and
/// >40-byte words are dropped.
pub fn tokenize(text: &str) -> (tokens: Vec<String>)
    ensures
        strings_view(tokens@) == text_tokens(text@),
{
    let cs = chars_of(text);
    let ghost s = cs@;
    let mut tokens: Vec<String> = Vec::new();
    let mut start: usize = 0;
    let mut i: usize = 0;
    proof {
        assert(s.take(0) =~= Seq::<char>::empty());
    }
    while i < cs.len()
        invariant
            s == cs@,
            start <= i <= s.len(),
            split_pieces(s.take(i as int), word_sep()).len() >= 1,
            split_pieces(s.take(i as int), word_sep()).last() == s.subrange(start as int, i as int),
            strings_view(tokens@) == split_pieces(s.take(i as int), word_sep()).drop_last().map_values(
                |w: Seq<char>| word_tokens(w),
            ).flatten(),
        decreases s.len() - i,
    {
        let ghost prev = split_pieces(s.take(i as int), word_sep());
        proof {
            assert(s.take(i as int + 1) =~= s.take(i as int).push(s[i as int]));
            lemma_split_pieces_push(s.take(i as int), s[i as int], word_sep());
        }
        let c = cs[i];
        if !is_alphanumeric(c) && c != '_' {
            let ghost before = strings_view(tokens@);
            push_word_tokens(&cs[start..i], &mut tokens);
            proof {
                let next = split_pieces(s.take(i as int + 1), word_sep());
                assert(next == prev.push(Seq::empty()));
                assert(next.drop_last() =~= prev);
                assert(prev =~= prev.drop_last().push(prev.last()));
                let f = |w: Seq<char>| word_tokens(w);
                assert(prev.map_values(f) =~= prev.drop_last().map_values(f).push(f(prev.last())));
                prev.drop_last().map_values(f).lemma_flatten_push(f(prev.last()));
                lemma_split_pieces_nonempty(s.take(i as int + 1), word_sep());
                assert(s.subrange(i as int + 1, i as int + 1) =~= Seq::<char>::empty());
            }
            start = i + 1;
        } else {
            proof {
                let next = split_pieces(s.take(i as int + 1), word_sep());
                assert(next.drop_last() =~= prev.drop_last());
                assert(s.subrange(start as int, i as int + 1) =~= s.subrange(
                    start as int,
                    i as int,
                ).push(s[i as int]));
            }
        }
        i += 1;
    }
    let ghost prev = split_pieces(s.take(i as int), word_sep());
    push_word_tokens(&cs[start..cs.len()], &mut tokens);
    proof {
        assert(s.take(s.len() as int) =~= s);
        let f = |w: Seq<char>| word_tokens(w);
        assert(prev =~= prev.drop_last().push(prev.last()));
        assert(prev.map_values(f) =~= prev.drop_last().map_values(f).push(f(prev.last())));
        prev.drop_last().map_values(f).lemma_flatten_push(f(prev.last()));
    }
    tokens
}

/// Appends the tokens of one word.
fn push_word_tokens(word: &[char], out: &mut Vec<String>)
    ensures
        strings_view(final(out)@) == strings_view(old(out)@) + word_tokens(word@),
{
    let ghost w = word@;
    if word.len() == 0 || !fits_utf8_bytes(word, 40) {
        assert(strings_view(out@) + word_tokens(w) =~= strings_view(out@));
        return;
    }
    let before = out.len();
    assert(strings_view(out@).len() == out@.len());
    let ghost base = strings_view(out@);
    let mut start: usize = 0;
    let mut i: usize = 0;
    proof {
        assert(w.take(0) =~= Seq::<char>::empty());
        assert(base + Seq::<Seq<char>>::empty() =~= base);
    }
    while i < word.len()
        invariant
            w == word@,
            start <= i <= w.len(),
            before == base.len(),
            strings_view(old(out)@) == base,
            split_pieces(w.take(i as int), part_sep()).len() >= 1,
            split_pieces(w.take(i as int), part_sep()).last() == w.subrange(start as int, i as int),
            strings_view(out@) == base + split_pieces(w.take(i as int), part_sep()).drop_last().map_values(
                |p: Seq<char>| camel_tokens(p),
            ).flatten(),
        decreases w.len() - i,
    {
        let ghost prev = split_pieces(w.take(i as int), part_sep());
        proof {
            assert(w.take(i as int + 1) =~= w.take(i as int).push(w[i as int]));
            lemma_split_pieces_push(w.take(i as int), w[i as int], part_sep());
        }
        if word[i] == '_' {
            let ghost mid = strings_view(out@);
            camel_split(&word[start..i], out);
            proof {
                let next = split_pieces(w.take(i as int + 1), part_sep());
                assert(next.drop_last() =~= prev);
                assert(prev =~= prev.drop_last().push(prev.last()));
                let f = |p: Seq<char>| camel_tokens(p);
                assert(prev.map_values(f) =~= prev.drop_last().map_values(f).push(f(prev.last())));
                prev.drop_last().map_values(f).lemma_flatten_push(f(prev.last()));
                lemma_split_pieces_nonempty(w.take(i as int + 1), part_sep());
                assert(w.subrange(i as int + 1, i as int + 1) =~= Seq::<char>::empty());
                assert(strings_view(out@) =~= base + next.drop_last().map_values(f).flatten());
            }
            start = i + 1;
        } else {
            proof {
                let next = split_pieces(w.take(i as int + 1), part_sep());
                assert(next.drop_last() =~= prev.drop_last());
                assert(w.subrange(start as int, i as int + 1) =~= w.subrange(
                    start as int,
                    i as int,
                ).push(w[i as int]));
            }
        }
        i += 1;
    }
    let ghost prev = split_pieces(w.take(i as int), part_sep());
    camel_split(&word[start..word.len()], out);
    proof {
        assert(w.take(w.len() as int) =~= w);
        let f = |p: Seq<char>| camel_tokens(p);
        assert(prev =~= prev.drop_last().push(prev.last()));
        assert(prev.map_values(f) =~= prev.drop_last().map_values(f).push(f(prev.last())));
        prev.drop_last().map_values(f).lemma_flatten_push(f(prev.last()));
        assert(strings_view(out@) =~= base + part_tokens(w));
    }
    if out.len() - before > 1 && any_alphabetic(word) {
        let whole = string_from_chars(word);
        let lower = to_lowercase(whole.as_str());
        proof {
            lemma_strings_view_push(out@, lower);
        }
        out.push(lower);
    }
    proof {
        assert(strings_view(out@) =~= base + word_tokens(w));
    }
}

/// Whether the UTF-8 encoding of `word` takes at most `limit` bytes.
fn fits_utf8_bytes(word: &[char], limit: usize) -> (r: bool)
    ensures
        r == (utf8_len(word@) <= limit),
{
    let mut total: usize = 0;
    let mut i: usize = 0;
    proof {
        assert(word@.take(0) =~= Seq::<char>::empty());
    }
    while i < word.len()
        invariant
            i <= word@.len(),
            total == utf8_len(word@.take(i as int)),
            total <= limit,
        decreases word@.len() - i,
    {
        let w = char_width(word[i]);
        proof {
            assert(word@.take(i as int + 1) =~= word@.take(i as int).push(word@[i as int]));
            lemma_utf8_len_push(word@.take(i as int), word@[i as int]);
        }
        if w > limit - total {
            proof {
                lemma_utf8_len_concat(word@.take(i as int + 1), word@.skip(i as int + 1));
                assert(word@.take(i as int + 1) + word@.skip(i as int + 1) =~= word@);
            }
            return false;
        }
        total = total + w;
        i += 1;
    }
    assert(word@.take(i as int) =~= word@);
    true
}

fn any_alphabetic(word: &[char]) -> (r: bool)
    ensures
        r == has_alphabetic(word@),
{
    let mut i: usize = 0;
    while i < word.len()
        invariant
            i <= word@.len(),
            forall|j: int| 0 <= j < i ==> !unicode_alphabetic(word@[j]),
        decreases word@.len() - i,
    {
        if is_alphabetic(word[i]) {
            return true;
        }
        i += 1;
    }
    false
}

/// Appends the tokens of the camelCase runs of one `_`-free part:
/// uppercase-acronym runs, Capitalized words, lowercase runs, digit runs.
/// Pure-digit runs are dropped.
fn camel_split(part: &[char], out: &mut Vec<String>)
    ensures
        strings_view(final(out)@) == strings_view(old(out)@) + camel_tokens(part@),
{
    let ghost p = part@;
    let ghost base = strings_view(out@);
    let n = part.len();
    let mut start: usize = 0;
    let mut index: usize = 0;
    while index < n
        invariant
            p == part@,
            n == p.len(),
            start <= index <= n,
            index > 0 ==> start < index,
            strings_view(old(out)@) == base,
            forall|j: int| start < j < index - 1 ==> !is_cut(p, j),
            start + 1 < index ==> !cut_case_or_digit(p, index - 1),
            strings_view(out@) + camel_tokens_from(p, start as int) == base + camel_tokens(p),
        decreases n - index,
    {
        let c = part[index];
        let boundary = index > start && ((is_ascii_upper(c) && !is_ascii_upper(part[index - 1]))
            || (is_ascii_lower(c) && is_ascii_upper(part[index - 1]) && index - 1 > start) || (
        is_ascii_digit(c) != is_ascii_digit(part[index - 1])));
        if boundary {
            let end = if is_ascii_lower(c) && is_ascii_upper(part[index - 1]) {
                index - 1
            } else {
                index
            };
            proof {
                if end == index - 1 {
                    assert(!cut_case_or_digit(p, index - 1));
                    assert(is_cut(p, end as int));
                } else {
                    assert(is_cut(p, end as int));
                }
                lemma_next_cut_is(p, start as int, end as int);
                lemma_next_cut_after(p, start as int);
            }
            let ghost mid = strings_view(out@);
            push_run(&part[start..end], out);
            proof {
                assert(camel_tokens_from(p, start as int) == run_tokens(
                    p.subrange(start as int, end as int),
                ) + camel_tokens_from(p, end as int));
                assert(strings_view(out@) + camel_tokens_from(p, end as int) =~= mid
                    + camel_tokens_from(p, start as int));
            }
            start = end;
        } else {
            proof {
                if index > 0 && start < index - 1 {
                    assert(!is_cut(p, index - 1));
                }
            }
        }
        index += 1;
    }
    proof {
        if start < n {
            lemma_next_cut_is(p, start as int, n as int);
            assert(camel_tokens_from(p, n as int) == Seq::<Seq<char>>::empty());
            assert(camel_tokens_from(p, start as int) == run_tokens(
                p.subrange(start as int, n as int),
            ) + camel_tokens_from(p, n as int));
        }
    }
    let ghost mid = strings_view(out@);
    push_run(&part[start..n], out);
    proof {
        if start < n {
            assert(strings_view(out@) =~= mid + camel_tokens_from(p, start as int));
        } else {
            assert(p.subrange(start as int, n as int) =~= Seq::<char>::empty());
            assert(strings_view(out@) =~= mid);
            assert(mid + camel_tokens_from(p, start as int) =~= mid);
        }
    }
}

/// Appends the lowercase token of one run unless it is empty or a pure
/// number (all numeric characters, in any script).
fn push_run(run: &[char], out: &mut Vec<String>)
    ensures
        strings_view(final(out)@) == strings_view(old(out)@) + run_tokens(run@),
{
    let mut all_digits = true;
    let mut i: usize = 0;
    while i < run.len()
        invariant
            i <= run@.len(),
            all_digits == (forall|j: int| 0 <= j < i ==> unicode_numeric(run@[j])),
        decreases run@.len() - i,
    {
        if !is_numeric(run[i]) {
            all_digits = false;
        }
        i += 1;
    }
    if all_digits {
        assert(strings_view(out@) + run_tokens(run@) =~= strings_view(out@));
        return;
    }
    let s = string_from_chars(run);
    let lower = to_lowercase(s.as_str());
    proof {
        lemma_strings_view_push(out@, lower);
    }
    out.push(lower);
    assert(strings_view(out@) =~= strings_view(old(out)@) + run_tokens(run@));
}


// ---------------------------------------------------------------------------
// Index statistics
// ---------------------------------------------------------------------------

/// (path, content) documents as character sequences.
pub open spec fn docs_view(docs: Seq<(String, String)>) -> Seq<(Seq<char>, Seq<char>)> {
    docs.map_values(|d: (String, String)| (d.0@, d.1@))
}

/// The indexed tokens of one document: its content's, then its path's.
pub open spec fn doc_tokens(doc: (Seq<char>, Seq<char>)) -> Seq<Seq<char>> {
    text_tokens(doc.1) + text_tokens(doc.0)
}

/// Occurrences of `t` in `ts`.
pub open spec fn count_of(ts: Seq<Seq<char>>, t: Seq<char>) -> nat
    decreases ts.len(),
{
    if ts.len() == 0 {
        0
    } else {
        count_of(ts.drop_last(), t) + if ts.last() == t {
            1nat
        } else {
            0nat
        }
    }
}

/// The postings of a term: (doc id, term frequency) for every document that
/// holds it, in document order.
pub open spec fn postings_of(docs: Seq<(Seq<char>, Seq<char>)>, t: Seq<char>) -> Seq<(u32, u32)>
    decreases docs.len(),
{
    if docs.len() == 0 {
        seq![]
    } else {
        let c = count_of(doc_tokens(docs.last()), t);
        postings_of(docs.drop_last(), t) + if c > 0 {
            seq![((docs.len() - 1) as u32, c as u32)]
        } else {
            seq![]
        }
    }
}

/// Every term count of every document fits the `u32` frequencies.
pub open spec fn counts_fit(docs: Seq<(Seq<char>, Seq<char>)>) -> bool {
    forall|d: int, t: Seq<char>| 0 <= d < docs.len() ==> #[trigger] count_of(doc_tokens(docs[d]), t) <= u32::MAX
}

proof fn lemma_count_prefix(ts: Seq<Seq<char>>, k: int, t: Seq<char>)
    requires
        0 <= k <= ts.len(),
    ensures
        count_of(ts.take(k), t) <= count_of(ts, t),
        count_of(ts, t) <= ts.len(),
    decreases ts.len(),
{
    if ts.len() > 0 {
        if k < ts.len() {
            lemma_count_prefix(ts.drop_last(), k, t);
            assert(ts.drop_last().take(k) =~= ts.take(k));
        } else {
            assert(ts.take(k) =~= ts);
            lemma_count_prefix(ts.drop_last(), k - 1, t);
        }
    }
}

proof fn lemma_count_positive(ts: Seq<Seq<char>>, t: Seq<char>)
    ensures
        count_of(ts, t) > 0 <==> ts.contains(t),
    decreases ts.len(),
{
    if ts.len() > 0 {
        lemma_count_positive(ts.drop_last(), t);
        if ts.drop_last().contains(t) {
            let i = choose|i: int| 0 <= i < ts.drop_last().len() && ts.drop_last()[i] == t;
            assert(ts[i] == t);
        }
        if ts.contains(t) {
            let i = choose|i: int| 0 <= i < ts.len() && ts[i] == t;
            if i < ts.len() - 1 {
                assert(ts.drop_last()[i] == t);
            }
        }
    }
}

/// Term slots: `slot` maps each term to its index in `terms` and `lists`.
pub open spec fn slots_wf(slot: Map<Seq<char>, usize>, terms: Seq<String>, lists: Seq<Vec<(u32, u32)>>) -> bool {
    &&& terms.len() == lists.len()
    &&& forall|j: int| 0 <= j < terms.len() ==> slot.contains_key((#[trigger] terms[j])@) && slot[terms[j]@] == j
    &&& forall|t: Seq<char>| #[trigger] slot.contains_key(t) ==> slot[t] < terms.len() && terms[slot[t] as int]@ == t
}

/// The distinct terms of a token list, in first-occurrence order, with
/// their counts.
fn count_terms(toks: &Vec<String>) -> (r: (Vec<String>, StringHashMap<u32>))
    requires
        forall|t: Seq<char>| count_of(strings_view(toks@), t) <= u32::MAX,
    ensures
        forall|i: int, j: int|
            0 <= i < j < r.0@.len() ==> (#[trigger] r.0@[i])@ != (#[trigger] r.0@[j])@,
        forall|t: Seq<char>|
            #![trigger strings_view(r.0@).contains(t)]
            strings_view(r.0@).contains(t) <==> count_of(strings_view(toks@), t) > 0,
        forall|t: Seq<char>|
            #![trigger r.1@.contains_key(t)]
            r.1@.contains_key(t) <==> count_of(strings_view(toks@), t) > 0,
        forall|t: Seq<char>| #[trigger] r.1@.contains_key(t) ==> r.1@[t] == count_of(strings_view(toks@), t),
{
    let ghost ts = strings_view(toks@);
    let mut distinct: Vec<String> = Vec::new();
    let mut tf: StringHashMap<u32> = StringHashMap::new();
    let mut k: usize = 0;
    while k < toks.len()
        invariant
            ts == strings_view(toks@),
            forall|t: Seq<char>| count_of(ts, t) <= u32::MAX,
            k <= toks@.len(),
            forall|i: int, j: int|
                0 <= i < j < distinct@.len() ==> (#[trigger] distinct@[i])@ != (#[trigger] distinct@[j])@,
            forall|t: Seq<char>|
                #![trigger strings_view(distinct@).contains(t)]
                strings_view(distinct@).contains(t) <==> tf@.contains_key(t),
            forall|t: Seq<char>|
                #![trigger tf@.contains_key(t)]
                tf@.contains_key(t) <==> count_of(ts.take(k as int), t) > 0,
            forall|t: Seq<char>| #[trigger] tf@.contains_key(t) ==> tf@[t] == count_of(ts.take(k as int), t),
        decreases toks@.len() - k,
    {
        let tok = &toks[k];
        let ghost x = ts[k as int];
        proof {
            assert(strings_view(toks@)[k as int] == toks@[k as int]@);
            assert(ts.take(k as int + 1).drop_last() =~= ts.take(k as int));
            assert(ts.take(k as int + 1).last() == x);
            lemma_count_prefix(ts, k as int + 1, x);
        }
        let ghost old_tf = tf@;
        let ghost old_d = strings_view(distinct@);
        match tf.get(tok.as_str()) {
            Some(c) => {
                let c = *c;
                tf.insert(tok.clone(), c + 1);
            },
            None => {
                tf.insert(tok.clone(), 1);
                let fresh = tok.clone();
                proof {
                    lemma_strings_view_push(distinct@, fresh);
                }
                distinct.push(fresh);
                proof {
                    assert forall|i: int, j: int|
                        0 <= i < j < distinct@.len() implies (#[trigger] distinct@[i])@ != (#[trigger] distinct@[j])@ by {
                        if j == distinct@.len() - 1 {
                            assert(old_d[i] == distinct@[i]@);
                            assert(old_d.contains(distinct@[i]@));
                        }
                    }
                }
            },
        }
        proof {
            assert forall|t: Seq<char>| #[trigger] strings_view(distinct@).contains(t) <==> tf@.contains_key(t) by {
                if strings_view(distinct@).contains(t) && !old_d.contains(t) {
                    let i = choose|i: int| 0 <= i < strings_view(distinct@).len() && strings_view(distinct@)[i] == t;
                    if i < old_d.len() {
                        assert(old_d[i] == t);
                    }
                }
                if old_d.contains(t) {
                    let i = choose|i: int| 0 <= i < old_d.len() && old_d[i] == t;
                    assert(strings_view(distinct@)[i] == t);
                }
                if t == x && !old_d.contains(t) {
                    assert(strings_view(distinct@)[old_d.len() as int] == t);
                }
            }
        }
        k += 1;
    }
    proof {
        assert(ts.take(k as int) =~= ts);
    }
    (distinct, tf)
}

/// The tokens of one (path, content) document.
fn doc_token_list(path: &String, content: &String) -> (toks: Vec<String>)
    ensures
        strings_view(toks@) == doc_tokens((path@, content@)),
{
    let mut toks = tokenize(content.as_str());
    let mut more = tokenize(path.as_str());
    proof {
        assert(strings_view(toks@) + strings_view(more@) =~= strings_view(toks@ + more@));
    }
    toks.append(&mut more);
    toks
}

/// Integer statistics of one BM25-indexed corpus: paths, document lengths
/// in tokens, and per-term postings.
pub struct Bm25Index {
    paths: Vec<String>,
    doc_len: Vec<u64>,
    slot: StringHashMap<usize>,
    terms: Vec<String>,
    lists: Vec<Vec<(u32, u32)>>,
    corpus: Ghost<Seq<(Seq<char>, Seq<char>)>>,
}

impl Bm25Index {
    /// The indexed (path, content) documents.
    pub closed spec fn corpus(&self) -> Seq<(Seq<char>, Seq<char>)> {
        self.corpus@
    }

    #[verifier::type_invariant]
    closed spec fn models_corpus(&self) -> bool {
        let docs = self.corpus@;
        &&& slots_wf(self.slot@, self.terms@, self.lists@)
        &&& self.paths@.len() == docs.len()
        &&& self.doc_len@.len() == docs.len()
        &&& forall|d: int| 0 <= d < docs.len() ==> (#[trigger] self.paths@[d])@ == docs[d].0
        &&& forall|d: int| 0 <= d < docs.len() ==> #[trigger] self.doc_len@[d] == doc_tokens(docs[d]).len()
        &&& forall|t: Seq<char>| #[trigger] self.slot@.contains_key(t) <==> postings_of(docs, t).len() > 0
        &&& forall|t: Seq<char>| #[trigger] self.slot@.contains_key(t) ==> self.lists@[self.slot@[t] as int]@ == postings_of(docs, t)
    }

    /// Index (path, content) documents: tokenize content and path, store
    /// postings and lengths. Eager and exact.
    pub fn build(docs: Vec<(String, String)>) -> (idx: Self)
        requires
            docs@.len() <= u32::MAX,
            counts_fit(docs_view(docs@)),
        ensures
            idx.corpus() == docs_view(docs@),
    {
        let ghost all = docs_view(docs@);
        let mut paths: Vec<String> = Vec::new();
        let mut doc_len: Vec<u64> = Vec::new();
        let mut slot: StringHashMap<usize> = StringHashMap::new();
        let mut terms: Vec<String> = Vec::new();
        let mut lists: Vec<Vec<(u32, u32)>> = Vec::new();
        let mut i: usize = 0;
        while i < docs.len()
            invariant
                all == docs_view(docs@),
                docs@.len() <= u32::MAX,
                counts_fit(all),
                i <= docs@.len(),
                slots_wf(slot@, terms@, lists@),
                paths@.len() == i,
                doc_len@.len() == i,
                forall|d: int| 0 <= d < i ==> (#[trigger] paths@[d])@ == all[d].0,
                forall|d: int| 0 <= d < i ==> #[trigger] doc_len@[d] == doc_tokens(all[d]).len(),
                forall|t: Seq<char>| #[trigger] slot@.contains_key(t) <==> postings_of(all.take(i as int), t).len() > 0,
                forall|t: Seq<char>| #[trigger] slot@.contains_key(t) ==> lists@[slot@[t] as int]@ == postings_of(all.take(i as int), t),
            decreases docs@.len() - i,
        {
            let path = &docs[i].0;
            let content = &docs[i].1;
            let ghost doc = all[i as int];
            proof {
                assert(doc == (path@, content@));
            }
            let toks = doc_token_list(path, content);
            proof {
                assert(forall|t: Seq<char>| count_of(strings_view(toks@), t) <= u32::MAX) by {
                    assert(doc_tokens(all[i as int]) == strings_view(toks@));
                }
            }
            let (distinct, tf) = count_terms(&toks);
            let ghost ts = strings_view(toks@);
            let ghost before = all.take(i as int);
            let ghost dv = strings_view(distinct@);
            let mut m: usize = 0;
            proof {
                assert(dv.take(0) =~= Seq::<Seq<char>>::empty());
            }
            while m < distinct.len()
                invariant
                    i < docs@.len(),
                    docs@.len() <= u32::MAX,
                    dv == strings_view(distinct@),
                    m <= distinct@.len(),
                    forall|a: int, b: int|
                        0 <= a < b < distinct@.len() ==> (#[trigger] distinct@[a])@ != (#[trigger] distinct@[b])@,
                    forall|t: Seq<char>|
                        #![trigger tf@.contains_key(t)]
                        tf@.contains_key(t) <==> count_of(ts, t) > 0,
                    forall|t: Seq<char>| #[trigger] tf@.contains_key(t) ==> tf@[t] == count_of(ts, t),
                    forall|t: Seq<char>|
                        #![trigger dv.contains(t)]
                        dv.contains(t) <==> count_of(ts, t) > 0,
                    slots_wf(slot@, terms@, lists@),
                    forall|t: Seq<char>| #[trigger] slot@.contains_key(t) <==> (postings_of(before, t).len() > 0 || dv.take(m as int).contains(t)),
                    forall|t: Seq<char>| #[trigger] slot@.contains_key(t) ==> lists@[slot@[t] as int]@ == postings_of(before, t) + if dv.take(m as int).contains(t) {
                        seq![(i as u32, count_of(ts, t) as u32)]
                    } else {
                        Seq::<(u32, u32)>::empty()
                    },
                decreases distinct@.len() - m,
            {
                let term = &distinct[m];
                let ghost t0 = dv[m as int];
                proof {
                    assert(strings_view(distinct@)[m as int] == distinct@[m as int]@);
                    assert(dv.contains(t0));
                    assert(!dv.take(m as int).contains(t0)) by {
                        if dv.take(m as int).contains(t0) {
                            let a = choose|a: int| 0 <= a < m && dv.take(m as int)[a] == t0;
                            assert(distinct@[a]@ == distinct@[m as int]@);
                        }
                    }
                    assert(tf@.contains_key(t0));
                    let pre = dv.take(m as int);
                    let nxt = dv.take(m as int + 1);
                    assert forall|t: Seq<char>| #[trigger] nxt.contains(t) <==> (pre.contains(t) || t == t0) by {
                        if nxt.contains(t) {
                            let a = choose|a: int| 0 <= a < nxt.len() && #[trigger] nxt[a] == t;
                            if a < m {
                                assert(pre[a] == t);
                            }
                        }
                        if pre.contains(t) {
                            let a = choose|a: int| 0 <= a < pre.len() && #[trigger] pre[a] == t;
                            assert(nxt[a] == t);
                        }
                        if t == t0 {
                            assert(nxt[m as int] == t);
                        }
                    }
                }
                let c: u32 = match tf.get(term.as_str()) {
                    Some(c) => *c,
                    None => 0,
                };
                let ghost old_slot = slot@;
                let ghost old_lists = lists@;
                match slot.get(term.as_str()) {
                    Some(s) => {
                        let s = *s;
                        lists[s].push((i as u32, c));
                        proof {
                            assert forall|t: Seq<char>| #[trigger] slot@.contains_key(t) implies lists@[slot@[t] as int]@ == postings_of(before, t) + if dv.take(m as int + 1).contains(t) {
                                seq![(i as u32, count_of(ts, t) as u32)]
                            } else {
                                Seq::<(u32, u32)>::empty()
                            } by {
                                if t != t0 {
                                    assert(slot@[t] != s);
                                    assert(lists@[slot@[t] as int] == old_lists[slot@[t] as int]);
                                } else {
                                    assert(old_lists[s as int]@ =~= postings_of(before, t));
                                }
                            }
                        }
                    },
                    None => {
                        let n = lists.len();
                        slot.insert(term.clone(), n);
                        terms.push(term.clone());
                        lists.push(vec![(i as u32, c)]);
                        proof {
                            assert(postings_of(before, t0).len() == 0);
                            assert forall|t: Seq<char>| #[trigger] slot@.contains_key(t) implies lists@[slot@[t] as int]@ == postings_of(before, t) + if dv.take(m as int + 1).contains(t) {
                                seq![(i as u32, count_of(ts, t) as u32)]
                            } else {
                                Seq::<(u32, u32)>::empty()
                            } by {
                                if t != t0 {
                                    assert(old_slot.contains_key(t));
                                    assert(lists@[slot@[t] as int] == old_lists[slot@[t] as int]);
                                } else {
                                    assert(postings_of(before, t) =~= Seq::<(u32, u32)>::empty());
                                    assert(lists@[n as int]@ =~= seq![(i as u32, c)]);
                                }
                            }
                            assert forall|j: int| 0 <= j < terms@.len() implies slot@.contains_key((#[trigger] terms@[j])@) && slot@[terms@[j]@] == j by {
                                if j < n {
                                    assert(old_slot.contains_key(terms@[j]@));
                                    assert(terms@[j]@ != t0);
                                }
                            }
                        }
                    },
                }
                m += 1;
            }
            proof {
                assert(dv.take(m as int) =~= dv);
                let after = all.take(i as int + 1);
                assert(after.drop_last() =~= before);
                assert(after.last() == doc);
                assert(ts == doc_tokens(doc));
                assert forall|t: Seq<char>| #[trigger] postings_of(after, t) == postings_of(before, t) + if count_of(ts, t) > 0 {
                    seq![(i as u32, count_of(ts, t) as u32)]
                } else {
                    Seq::<(u32, u32)>::empty()
                } by {
                }
            }
            paths.push(path.clone());
            doc_len.push(toks.len() as u64);
            i += 1;
        }
        proof {
            assert(all.take(i as int) =~= all);
        }
        Bm25Index { paths, doc_len, slot, terms, lists, corpus: Ghost(all) }
    }

    /// Index the documents when every term count fits the `u32`
    /// frequencies: `None` exactly when there are more than `u32::MAX`
    /// documents or some document holds more than `u32::MAX` tokens.
    pub fn try_build(docs: Vec<(String, String)>) -> (r: Option<Self>)
        ensures
            r is Some <==> (docs@.len() <= u32::MAX && forall|d: int|
                0 <= d < docs@.len() ==> #[trigger] doc_tokens(docs_view(docs@)[d]).len() <= u32::MAX),
            r matches Some(idx) ==> idx.corpus() == docs_view(docs@),
    {
        let ghost all = docs_view(docs@);
        if docs.len() > u32::MAX as usize {
            return None;
        }
        let mut d: usize = 0;
        while d < docs.len()
            invariant
                all == docs_view(docs@),
                d <= docs@.len(),
                forall|e: int| 0 <= e < d ==> #[trigger] doc_tokens(all[e]).len() <= u32::MAX,
            decreases docs@.len() - d,
        {
            let toks = doc_token_list(&docs[d].0, &docs[d].1);
            proof {
                assert(all[d as int] == (docs@[d as int].0@, docs@[d as int].1@));
            }
            assert(strings_view(toks@).len() == toks@.len());
            if toks.len() > u32::MAX as usize {
                assert(doc_tokens(all[d as int]).len() > u32::MAX);
                return None;
            }
            d += 1;
        }
        proof {
            assert forall|e: int, t: Seq<char>| 0 <= e < all.len() implies #[trigger] count_of(
                doc_tokens(all[e]),
                t,
            ) <= u32::MAX by {
                lemma_count_prefix(doc_tokens(all[e]), 0, t);
            }
        }
        Some(Self::build(docs))
    }

    /// Number of indexed documents.
    pub fn num_docs(&self) -> (n: usize)
        ensures
            n == self.corpus().len(),
    {
        proof {
            use_type_invariant(self);
        }
        self.paths.len()
    }

    /// Path of document `doc`.
    pub fn path(&self, doc: usize) -> (p: &String)
        requires
            doc < self.corpus().len(),
        ensures
            p@ == self.corpus()[doc as int].0,
    {
        proof {
            use_type_invariant(self);
        }
        &self.paths[doc]
    }

    /// Length of document `doc` in tokens (content and path).
    pub fn doc_len(&self, doc: usize) -> (n: u64)
        requires
            doc < self.corpus().len(),
        ensures
            n == doc_tokens(self.corpus()[doc as int]).len(),
    {
        proof {
            use_type_invariant(self);
        }
        self.doc_len[doc]
    }

    /// The postings of `term`, or `None` when no document holds it.
    pub fn postings(&self, term: &str) -> (r: Option<&Vec<(u32, u32)>>)
        ensures
            match r {
                Some(v) => v@ == postings_of(self.corpus(), term@) && v@.len() > 0,
                None => postings_of(self.corpus(), term@).len() == 0,
            },
    {
        proof {
            use_type_invariant(self);
        }
        match self.slot.get(term) {
            Some(s) => Some(&self.lists[*s]),
            None => None,
        }
    }

    /// The distinct tokens of a query, sorted: OR semantics, each term once.
    pub fn query_terms(query: &str) -> (terms: Vec<String>)
        ensures
            strictly_sorted(strings_view(terms@)),
            forall|x: Seq<char>| strings_view(terms@).contains(x) <==> text_tokens(query@).contains(x),
    {
        let toks = tokenize(query);
        let lists = vec![toks];
        let none: Vec<String> = Vec::new();
        let terms = union_candidates(&lists, &none);
        proof {
            assert forall|x: Seq<char>| strings_view(terms@).contains(x) <==> text_tokens(query@).contains(x) by {
                if strings_view(terms@).contains(x) {
                    assert(crate::candidates::in_lists(lists@, x) || crate::candidates::in_strings(none@, x));
                    if crate::candidates::in_lists(lists@, x) {
                        let (p, k) = choose|p: int, k: int| 0 <= p < lists@.len() && 0 <= k < lists@[p]@.len() && (#[trigger] lists@[p]@[k])@ == x;
                        assert(strings_view(lists@[0]@)[k] == x);
                    }
                }
                if text_tokens(query@).contains(x) {
                    let k = choose|k: int| 0 <= k < text_tokens(query@).len() && text_tokens(query@)[k] == x;
                    assert(strings_view(lists@[0]@)[k] == x);
                    assert(lists@[0]@[k]@ == x);
                    assert(crate::candidates::in_lists(lists@, x));
                }
            }
        }
        terms
    }
}

} // verus!
