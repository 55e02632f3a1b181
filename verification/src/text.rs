//! Character and string primitives shared by the tokenizer, the keyword
//! expansion, the windowing and the output code, with their specifications.

use vstd::prelude::*;
use vstd::utf8::*;

verus! {

broadcast use vstd::string::group_string_axioms;

// ---------------------------------------------------------------------------
// Unicode character classes and case mapping (std's tables)
// ---------------------------------------------------------------------------

/// The Unicode `Alphabetic` or numeric class that `char::is_alphanumeric` tests.
pub uninterp spec fn unicode_alphanumeric(c: char) -> bool;

/// The Unicode `Alphabetic` property that `char::is_alphabetic` tests.
pub uninterp spec fn unicode_alphabetic(c: char) -> bool;

/// The Unicode `White_Space` property that `char::is_whitespace` tests.
pub uninterp spec fn unicode_whitespace(c: char) -> bool;

/// The Unicode numeric classes (`Nd`, `Nl`, `No`) that `char::is_numeric` tests.
pub uninterp spec fn unicode_numeric(c: char) -> bool;

/// The full Unicode lowercase mapping of a string that `str::to_lowercase` computes.
pub uninterp spec fn unicode_lowercase(s: Seq<char>) -> Seq<char>;

/// An ASCII character (code point below 128).
pub open spec fn is_ascii(c: char) -> bool {
    (c as u32) < 128
}

/// The ASCII lowercase of a character: `A`–`Z` become `a`–`z`, every other
/// character stays.
pub open spec fn ascii_lowercase(c: char) -> char {
    if ascii_upper(c) {
        ((c as u32) + 32) as char
    } else {
        c
    }
}

/// Calls `char::is_alphanumeric`; the contract claims that the answer is a
/// fixed function of the character (std's Unicode tables), and that among
/// ASCII characters exactly the letters and digits are alphanumeric.
#[verifier::external_body]
pub(crate) fn is_alphanumeric(c: char) -> (b: bool)
    ensures
        b == unicode_alphanumeric(c),
        is_ascii(c) ==> (b <==> (ascii_upper(c) || ascii_lower(c) || ascii_digit(c))),
{
    c.is_alphanumeric()
}

/// Calls `char::is_alphabetic`; the contract claims that the answer is a
/// fixed function of the character (std's Unicode tables), and that among
/// ASCII characters exactly the letters are alphabetic.
#[verifier::external_body]
pub(crate) fn is_alphabetic(c: char) -> (b: bool)
    ensures
        b == unicode_alphabetic(c),
        is_ascii(c) ==> (b <==> (ascii_upper(c) || ascii_lower(c))),
{
    c.is_alphabetic()
}

/// Calls `char::is_whitespace`; the contract claims that the answer is a
/// fixed function of the character (std's Unicode tables), and that among
/// ASCII characters exactly tab, line feed, vertical tab, form feed,
/// carriage return and space are whitespace.
#[verifier::external_body]
pub(crate) fn is_whitespace(c: char) -> (b: bool)
    ensures
        b == unicode_whitespace(c),
        is_ascii(c) ==> (b <==> (c == ' ' || ('\t' <= c && c <= '\r'))),
{
    c.is_whitespace()
}

/// Calls `char::is_numeric`; the contract claims that the answer is a
/// fixed function of the character (std's Unicode tables), and that among
/// ASCII characters exactly the digits are numeric.
#[verifier::external_body]
pub(crate) fn is_numeric(c: char) -> (b: bool)
    ensures
        b == unicode_numeric(c),
        is_ascii(c) ==> (b <==> ascii_digit(c)),
{
    c.is_numeric()
}

/// Calls `str::to_lowercase`; the contract claims that the result is a
/// fixed function of the input's characters, and that an all-ASCII string
/// is lowercased character by character (`A`–`Z` to `a`–`z`, the rest
/// kept).  What the mapping does to other characters is not stated.
#[verifier::external_body]
pub(crate) fn to_lowercase(s: &str) -> (r: String)
    ensures
        r@ == unicode_lowercase(s@),
        (forall|i: int| 0 <= i < s@.len() ==> is_ascii(#[trigger] s@[i])) ==> r@ == s@.map_values(
            |c: char| ascii_lowercase(c),
        ),
{
    s.to_lowercase()
}

/// Calls `FromIterator<&char> for String` (`collect`): the string holds
/// exactly the given characters, in order.
#[verifier::external_body]
pub(crate) fn string_from_chars(cs: &[char]) -> (s: String)
    ensures
        s@ == cs@,
{
    cs.iter().collect()
}

// ---------------------------------------------------------------------------
// ASCII classes (std's `is_ascii_*` are plain range tests)
// ---------------------------------------------------------------------------

pub open spec fn ascii_upper(c: char) -> bool {
    'A' <= c && c <= 'Z'
}

pub open spec fn ascii_lower(c: char) -> bool {
    'a' <= c && c <= 'z'
}

pub open spec fn ascii_digit(c: char) -> bool {
    '0' <= c && c <= '9'
}

pub fn is_ascii_upper(c: char) -> (b: bool)
    ensures
        b == ascii_upper(c),
{
    'A' <= c && c <= 'Z'
}

pub fn is_ascii_lower(c: char) -> (b: bool)
    ensures
        b == ascii_lower(c),
{
    'a' <= c && c <= 'z'
}

pub fn is_ascii_digit(c: char) -> (b: bool)
    ensures
        b == ascii_digit(c),
{
    '0' <= c && c <= '9'
}

// ---------------------------------------------------------------------------
// Conversions between strings and character vectors
// ---------------------------------------------------------------------------

/// Copies the characters of `s` into a vector.
pub fn chars_of(s: &str) -> (v: Vec<char>)
    ensures
        v@ == s@,
{
    let mut v: Vec<char> = Vec::new();
    for c in it: s.chars()
        invariant
            v@ == it.seq().take(it.index()),
    {
        v.push(c);
    }
    v
}

/// Whether two strings hold the same characters.
pub fn str_eq(a: &str, b: &str) -> (r: bool)
    ensures
        r == (a@ == b@),
{
    let x = chars_of(a);
    let y = chars_of(b);
    chars_eq(&x, &y)
}

/// Whether two character slices are equal.
pub fn chars_eq(x: &[char], y: &[char]) -> (r: bool)
    ensures
        r == (x@ == y@),
{
    if x.len() != y.len() {
        return false;
    }
    let mut i: usize = 0;
    while i < x.len()
        invariant
            x@.len() == y@.len(),
            i <= x@.len(),
            forall|j: int| 0 <= j < i ==> x@[j] == y@[j],
        decreases x@.len() - i,
    {
        if x[i] != y[i] {
            return false;
        }
        i += 1;
    }
    assert(x@ =~= y@);
    true
}

// ---------------------------------------------------------------------------
// Splitting
// ---------------------------------------------------------------------------

/// The pieces of `s` between the characters that `sep` selects, as
/// `str::split` yields them: `n` separators give `n + 1` pieces, empty ones
/// included.
pub open spec fn split_pieces(s: Seq<char>, sep: spec_fn(char) -> bool) -> Seq<Seq<char>>
    decreases s.len(),
{
    if s.len() == 0 {
        seq![Seq::empty()]
    } else {
        let prev = split_pieces(s.drop_last(), sep);
        if sep(s.last()) {
            prev.push(Seq::empty())
        } else {
            prev.update(prev.len() - 1, prev.last().push(s.last()))
        }
    }
}

pub proof fn lemma_split_pieces_nonempty(s: Seq<char>, sep: spec_fn(char) -> bool)
    ensures
        split_pieces(s, sep).len() >= 1,
    decreases s.len(),
{
    if s.len() > 0 {
        lemma_split_pieces_nonempty(s.drop_last(), sep);
    }
}

/// Appending a non-separator extends the last piece; appending a separator
/// closes it.
pub proof fn lemma_split_pieces_push(s: Seq<char>, c: char, sep: spec_fn(char) -> bool)
    ensures
        ({
            let prev = split_pieces(s, sep);
            let next = split_pieces(s.push(c), sep);
            if sep(c) {
                next == prev.push(Seq::empty())
            } else {
                next == prev.update(prev.len() - 1, prev.last().push(c))
            }
        }),
{
    assert(s.push(c).drop_last() =~= s);
}

/// Number of characters of `s` that `sep` selects.
pub open spec fn count_where(s: Seq<char>, sep: spec_fn(char) -> bool) -> nat
    decreases s.len(),
{
    if s.len() == 0 {
        0
    } else {
        count_where(s.drop_last(), sep) + if sep(s.last()) {
            1nat
        } else {
            0nat
        }
    }
}

/// Pieces joined with the character `ch` between neighbours.
pub open spec fn join_with(ps: Seq<Seq<char>>, ch: char) -> Seq<char>
    decreases ps.len(),
{
    if ps.len() == 0 {
        seq![]
    } else if ps.len() == 1 {
        ps[0]
    } else {
        join_with(ps.drop_last(), ch) + seq![ch] + ps.last()
    }
}

/// Splitting yields one piece more than there are separators, no piece
/// holds a separator, and the last piece is empty exactly when the text is
/// empty or ends with a separator.
pub proof fn lemma_split_pieces_shape(s: Seq<char>, sep: spec_fn(char) -> bool)
    ensures
        split_pieces(s, sep).len() == count_where(s, sep) + 1,
        forall|i: int, j: int|
            0 <= i < split_pieces(s, sep).len() && 0 <= j < split_pieces(s, sep)[i].len()
                ==> !sep(#[trigger] split_pieces(s, sep)[i][j]),
        split_pieces(s, sep).last().len() == 0 <==> (s.len() == 0 || sep(s.last())),
        forall|i: int, j: int|
            0 <= i < split_pieces(s, sep).len() && 0 <= j < split_pieces(s, sep)[i].len()
                ==> s.contains(#[trigger] split_pieces(s, sep)[i][j]),
    decreases s.len(),
{
    if s.len() > 0 {
        let t = s.drop_last();
        let x = s.last();
        lemma_split_pieces_shape(t, sep);
        assert forall|y: char| t.contains(y) implies s.contains(y) by {
            let k = choose|k: int| 0 <= k < t.len() && t[k] == y;
            assert(s[k] == y);
        }
        assert(s[s.len() - 1] == x);
        lemma_split_pieces_nonempty(t, sep);
        let prev = split_pieces(t, sep);
        let next = split_pieces(s, sep);
        if sep(x) {
            assert(next == prev.push(Seq::empty()));
            assert forall|i: int, j: int| 0 <= i < next.len() && 0 <= j < next[i].len() implies !sep(#[trigger] next[i][j]) && s.contains(next[i][j]) by {
                assert(prev[i][j] == next[i][j]);
            }
        } else {
            let l = prev.last().push(x);
            assert(next == prev.update(prev.len() - 1, l));
            assert forall|i: int, j: int| 0 <= i < next.len() && 0 <= j < next[i].len() implies !sep(#[trigger] next[i][j]) && s.contains(next[i][j]) by {
                if i < prev.len() - 1 {
                    assert(next[i] == prev[i]);
                    assert(prev[i][j] == next[i][j]);
                } else if j < prev.last().len() {
                    assert(next[i][j] == prev[prev.len() - 1][j]);
                }
            }
        }
    }
}

/// Joining the pieces of a split at `ch` with `ch` gives the text back.
pub proof fn lemma_split_pieces_join(s: Seq<char>, sep: spec_fn(char) -> bool, ch: char)
    requires
        forall|c: char| #[trigger] sep(c) <==> c == ch,
    ensures
        join_with(split_pieces(s, sep), ch) == s,
    decreases s.len(),
{
    if s.len() == 0 {
        assert(split_pieces(s, sep) =~= seq![Seq::<char>::empty()]);
        assert(s =~= Seq::<char>::empty());
    } else {
        let t = s.drop_last();
        let x = s.last();
        lemma_split_pieces_join(t, sep, ch);
        lemma_split_pieces_nonempty(t, sep);
        let prev = split_pieces(t, sep);
        let next = split_pieces(s, sep);
        if sep(x) {
            assert(next == prev.push(Seq::empty()));
            assert(next.drop_last() =~= prev);
            assert(join_with(next, ch) == join_with(prev, ch) + seq![ch] + Seq::<char>::empty());
            assert(s =~= t.push(x));
        } else {
            let l = prev.last().push(x);
            assert(next == prev.update(prev.len() - 1, l));
            if prev.len() == 1 {
                assert(join_with(next, ch) == next[0]);
                assert(s =~= t.push(x));
            } else {
                assert(next.drop_last() =~= prev.drop_last());
                assert(join_with(next, ch) == join_with(prev.drop_last(), ch) + seq![ch] + l);
                assert(join_with(prev, ch) == join_with(prev.drop_last(), ch) + seq![ch] + prev.last());
                assert(s =~= t.push(x));
            }
        }
    }
}

/// A text without separators is a single piece.
pub proof fn lemma_split_pieces_whole(s: Seq<char>, sep: spec_fn(char) -> bool)
    requires
        forall|k: int| 0 <= k < s.len() ==> !sep(#[trigger] s[k]),
    ensures
        split_pieces(s, sep) == seq![s],
    decreases s.len(),
{
    if s.len() == 0 {
        assert(s =~= Seq::<char>::empty());
        assert(split_pieces(s, sep) =~= seq![s]);
    } else {
        let t = s.drop_last();
        assert forall|k: int| 0 <= k < t.len() implies !sep(#[trigger] t[k]) by {
            assert(t[k] == s[k]);
        }
        lemma_split_pieces_whole(t, sep);
        assert(!sep(s[s.len() - 1]));
        assert(split_pieces(s, sep) =~= seq![t.push(s.last())]);
        assert(t.push(s.last()) =~= s);
    }
}

/// Splitting at a separator `c` splits the two sides independently.
pub proof fn lemma_split_pieces_concat(a: Seq<char>, c: char, b: Seq<char>, sep: spec_fn(char) -> bool)
    requires
        sep(c),
    ensures
        split_pieces(a.push(c) + b, sep) == split_pieces(a, sep) + split_pieces(b, sep),
    decreases b.len(),
{
    lemma_split_pieces_nonempty(a, sep);
    if b.len() == 0 {
        assert(a.push(c) + b =~= a.push(c));
        assert(a.push(c).drop_last() =~= a);
        assert(split_pieces(b, sep) =~= seq![Seq::<char>::empty()]);
        assert(split_pieces(a, sep).push(Seq::empty()) =~= split_pieces(a, sep) + seq![Seq::<char>::empty()]);
    } else {
        let b1 = b.drop_last();
        let x = b.last();
        lemma_split_pieces_concat(a, c, b1, sep);
        lemma_split_pieces_nonempty(b1, sep);
        let whole = a.push(c) + b;
        assert(whole.drop_last() =~= a.push(c) + b1);
        assert(whole.last() == x);
        let pa = split_pieces(a, sep);
        let pb = split_pieces(b1, sep);
        if sep(x) {
            assert((pa + pb).push(Seq::empty()) =~= pa + pb.push(Seq::empty()));
        } else {
            assert((pa + pb).update((pa + pb).len() - 1, (pa + pb).last().push(x)) =~= pa + pb.update(
                pb.len() - 1,
                pb.last().push(x),
            ));
        }
    }
}

// ---------------------------------------------------------------------------
// UTF-8 lengths
// ---------------------------------------------------------------------------

/// Number of bytes of the UTF-8 encoding of `s` (what `str::len` returns).
pub open spec fn utf8_len(s: Seq<char>) -> nat {
    encode_utf8(s).len()
}

/// Number of bytes of the UTF-8 encoding of one character.
pub open spec fn char_utf8_len(c: char) -> nat {
    encode_scalar(c as u32).len()
}

pub proof fn lemma_encode_utf8_concat(a: Seq<char>, b: Seq<char>)
    ensures
        encode_utf8(a + b) == encode_utf8(a) + encode_utf8(b),
    decreases a.len(),
{
    if a.len() == 0 {
        assert(a + b =~= b);
        assert(encode_utf8(a) =~= Seq::<u8>::empty());
        assert(encode_utf8(a) + encode_utf8(b) =~= encode_utf8(b));
    } else {
        assert((a + b).drop_first() =~= a.drop_first() + b);
        assert((a + b)[0] == a[0]);
        lemma_encode_utf8_concat(a.drop_first(), b);
        assert(encode_utf8(a + b) =~= encode_scalar(a[0] as u32) + encode_utf8(a.drop_first() + b));
        assert(encode_utf8(a) + encode_utf8(b) =~= encode_scalar(a[0] as u32) + (encode_utf8(
            a.drop_first(),
        ) + encode_utf8(b)));
    }
}

pub proof fn lemma_utf8_len_concat(a: Seq<char>, b: Seq<char>)
    ensures
        utf8_len(a + b) == utf8_len(a) + utf8_len(b),
{
    lemma_encode_utf8_concat(a, b);
}

pub proof fn lemma_utf8_len_push(a: Seq<char>, c: char)
    ensures
        utf8_len(a.push(c)) == utf8_len(a) + char_utf8_len(c),
{
    lemma_encode_utf8_concat(a, seq![c]);
    assert(a + seq![c] =~= a.push(c));
    assert(seq![c].drop_first() =~= Seq::<char>::empty());
    assert(encode_utf8(seq![c]) =~= encode_scalar(c as u32) + encode_utf8(Seq::<char>::empty()));
}

pub proof fn lemma_char_utf8_len_bounds(c: char)
    ensures
        1 <= char_utf8_len(c) <= 4,
{
    char_is_scalar(c);
}

/// Byte width of one character in UTF-8.
pub fn char_width(c: char) -> (w: usize)
    ensures
        w == char_utf8_len(c),
        1 <= w <= 4,
{
    proof {
        char_is_scalar(c);
    }
    let u = c as u32;
    if u <= 0x7f {
        1
    } else if u <= 0x7ff {
        2
    } else if u <= 0xffff {
        3
    } else {
        4
    }
}

} // verus!

verus! {

/// The character sequences that a vector of strings holds.
pub open spec fn strings_view(v: Seq<String>) -> Seq<Seq<char>> {
    v.map_values(|t: String| t@)
}

pub proof fn lemma_strings_view_push(v: Seq<String>, t: String)
    ensures
        strings_view(v.push(t)) == strings_view(v).push(t@),
{
    assert(strings_view(v.push(t)) =~= strings_view(v).push(t@));
}

} // verus!

verus! {

// ---------------------------------------------------------------------------
// Lines (as `str::lines` yields them)
// ---------------------------------------------------------------------------

pub open spec fn newline_sep() -> spec_fn(char) -> bool {
    |c: char| c == '\n'
}

/// A line terminated by `\n` loses one trailing `\r` (a `\r\n` ending).
pub open spec fn strip_cr(l: Seq<char>) -> Seq<char> {
    if l.len() > 0 && l.last() == '\r' {
        l.drop_last()
    } else {
        l
    }
}

/// The lines of a text: split at `\n`, a `\r` before the `\n` dropped, and
/// no empty final line after a trailing `\n` (nor for the empty text).
pub open spec fn text_lines(s: Seq<char>) -> Seq<Seq<char>> {
    let ps = split_pieces(s, newline_sep());
    let done = ps.drop_last().map_values(|l: Seq<char>| strip_cr(l));
    if ps.last().len() == 0 {
        done
    } else {
        done.push(ps.last())
    }
}

/// The lines of a text: one per `\n`, plus one for an unterminated last
/// line (so an empty line between two newlines is a line of its own); no
/// line holds a `\n`; and for a text without `\r` the lines joined with
/// `\n` give the text back, less one trailing `\n`.
pub proof fn law_text_lines(s: Seq<char>)
    ensures
        text_lines(s).len() == count_where(s, |c: char| c == '\n') + if s.len() > 0 && s.last()
            != '\n' {
            1int
        } else {
            0int
        },
        forall|i: int, j: int|
            0 <= i < text_lines(s).len() && 0 <= j < text_lines(s)[i].len() ==> #[trigger] text_lines(s)[i][j] != '\n',
        (forall|k: int| 0 <= k < s.len() ==> s[k] != '\r') ==> join_with(text_lines(s), '\n') + (if s.len()
            > 0 && s.last() == '\n' {
            seq!['\n']
        } else {
            Seq::<char>::empty()
        }) == s,
{
    let nl = newline_sep();
    assert(nl =~= (|c: char| c == '\n'));
    let ps = split_pieces(s, nl);
    lemma_split_pieces_shape(s, nl);
    let done = ps.drop_last().map_values(|l: Seq<char>| strip_cr(l));
    let ls = text_lines(s);
    assert forall|i: int, j: int| 0 <= i < ls.len() && 0 <= j < ls[i].len() implies #[trigger] ls[i][j] != '\n' by {
        if i < ps.len() - 1 {
            assert(ls[i] == strip_cr(ps[i]));
            assert(ls[i][j] == ps[i][j]);
        } else {
            assert(ls[i] == ps.last());
            assert(ls[i][j] == ps[ps.len() - 1][j]);
        }
    }
    if forall|k: int| 0 <= k < s.len() ==> s[k] != '\r' {
        assert forall|i: int| 0 <= i < ps.len() - 1 implies strip_cr(#[trigger] ps[i]) == ps[i] by {
            if ps[i].len() > 0 {
                assert(s.contains(ps[i][ps[i].len() - 1]));
            }
        }
        assert(done =~= ps.drop_last());
        lemma_split_pieces_join(s, nl, '\n');
        if ps.last().len() == 0 {
            if ps.len() == 1 {
                assert(s.len() == 0);
                assert(ls =~= Seq::<Seq<char>>::empty());
            } else {
                assert(join_with(ps, '\n') == join_with(ps.drop_last(), '\n') + seq!['\n'] + ps.last());
                assert(ps.last() =~= Seq::<char>::empty());
                assert(s.len() > 0);
            }
        } else {
            assert(ls =~= ps.drop_last().push(ps.last()));
            assert(ps.drop_last().push(ps.last()) =~= ps);
        }
    }
}

/// The lines of `text`, as `str::lines` yields them.
pub fn lines_of(text: &str) -> (lines: Vec<String>)
    ensures
        strings_view(lines@) == text_lines(text@),
{
    let cs = chars_of(text);
    let ghost s = cs@;
    let mut lines: Vec<String> = Vec::new();
    let mut start: usize = 0;
    let mut i: usize = 0;
    proof {
        assert(s.take(0) =~= Seq::<char>::empty());
        assert(strings_view(lines@) =~= Seq::<Seq<char>>::empty());
    }
    while i < cs.len()
        invariant
            s == cs@,
            start <= i <= s.len(),
            split_pieces(s.take(i as int), newline_sep()).len() >= 1,
            split_pieces(s.take(i as int), newline_sep()).last() == s.subrange(
                start as int,
                i as int,
            ),
            strings_view(lines@) == split_pieces(s.take(i as int), newline_sep()).drop_last().map_values(
                |l: Seq<char>| strip_cr(l),
            ),
        decreases s.len() - i,
    {
        let ghost prev = split_pieces(s.take(i as int), newline_sep());
        proof {
            assert(s.take(i as int + 1) =~= s.take(i as int).push(s[i as int]));
            lemma_split_pieces_push(s.take(i as int), s[i as int], newline_sep());
        }
        if cs[i] == '\n' {
            let end = if i > start && cs[i - 1] == '\r' {
                i - 1
            } else {
                i
            };
            let line = string_from_chars(&cs[start..end]);
            proof {
                let next = split_pieces(s.take(i as int + 1), newline_sep());
                assert(next.drop_last() =~= prev);
                assert(line@ == strip_cr(prev.last()));
                lemma_strings_view_push(lines@, line);
                assert(prev =~= prev.drop_last().push(prev.last()));
                assert(prev.map_values(|l: Seq<char>| strip_cr(l)) =~= prev.drop_last().map_values(
                    |l: Seq<char>| strip_cr(l),
                ).push(strip_cr(prev.last())));
                lemma_split_pieces_nonempty(s.take(i as int + 1), newline_sep());
                assert(s.subrange(i as int + 1, i as int + 1) =~= Seq::<char>::empty());
            }
            lines.push(line);
            start = i + 1;
        } else {
            proof {
                let next = split_pieces(s.take(i as int + 1), newline_sep());
                assert(next.drop_last() =~= prev.drop_last());
                assert(s.subrange(start as int, i as int + 1) =~= s.subrange(
                    start as int,
                    i as int,
                ).push(s[i as int]));
            }
        }
        i += 1;
    }
    proof {
        assert(s.take(s.len() as int) =~= s);
    }
    if start < cs.len() {
        let line = string_from_chars(&cs[start..cs.len()]);
        proof {
            lemma_strings_view_push(lines@, line);
        }
        lines.push(line);
    }
    lines
}

// ---------------------------------------------------------------------------
// Char boundaries of encoded character sequences
// ---------------------------------------------------------------------------

/// The end of the encoding of every prefix is a char boundary.
pub proof fn lemma_prefix_is_char_boundary(s: Seq<char>, j: int)
    requires
        0 <= j <= s.len(),
    ensures
        is_char_boundary(encode_utf8(s), utf8_len(s.take(j)) as int),
    decreases j,
{
    broadcast use encode_utf8_valid_utf8;

    if j == 0 {
        assert(s.take(0) =~= Seq::<char>::empty());
    } else {
        let bytes = encode_utf8(s);
        encode_utf8_first_scalar(s);
        assert(pop_first_scalar(bytes) =~= encode_utf8(s.drop_first()));
        lemma_prefix_is_char_boundary(s.drop_first(), j - 1);
        assert(s.take(j) =~= seq![s[0]] + s.drop_first().take(j - 1));
        lemma_utf8_len_concat(seq![s[0]], s.drop_first().take(j - 1));
        assert(seq![s[0]].drop_first() =~= Seq::<char>::empty());
        assert(encode_utf8(seq![s[0]]) =~= encode_scalar(s[0] as u32) + encode_utf8(
            Seq::<char>::empty(),
        ));
    }
}

/// Encoding is injective.
pub proof fn lemma_encode_utf8_injective(a: Seq<char>, b: Seq<char>)
    requires
        encode_utf8(a) == encode_utf8(b),
    ensures
        a == b,
{
    encode_utf8_decode_utf8(a);
    encode_utf8_decode_utf8(b);
}

} // verus!

verus! {

/// Byte length of a string (its UTF-8 encoding).
pub fn byte_len(s: &str) -> (n: usize)
    ensures
        n == utf8_len(s@),
{
    s.as_bytes().len()
}

} // verus!

verus! {

// ---------------------------------------------------------------------------
// Lexicographic order on character sequences
// ---------------------------------------------------------------------------

/// Lexicographic order by code point (the order of `String`'s `Ord`, since
/// UTF-8 preserves code point order byte-wise).
pub open spec fn char_seq_lt(a: Seq<char>, b: Seq<char>) -> bool
    decreases a.len(),
{
    if a.len() == 0 {
        b.len() > 0
    } else if b.len() == 0 {
        false
    } else if a[0] != b[0] {
        a[0] < b[0]
    } else {
        char_seq_lt(a.drop_first(), b.drop_first())
    }
}

pub proof fn lemma_char_seq_lt_irreflexive(a: Seq<char>)
    ensures
        !char_seq_lt(a, a),
    decreases a.len(),
{
    if a.len() > 0 {
        lemma_char_seq_lt_irreflexive(a.drop_first());
    }
}

pub proof fn lemma_char_seq_lt_asymmetric(a: Seq<char>, b: Seq<char>)
    ensures
        char_seq_lt(a, b) ==> !char_seq_lt(b, a),
    decreases a.len(),
{
    if a.len() > 0 && b.len() > 0 && a[0] == b[0] {
        lemma_char_seq_lt_asymmetric(a.drop_first(), b.drop_first());
    }
}

pub proof fn lemma_char_seq_lt_total(a: Seq<char>, b: Seq<char>)
    ensures
        a != b ==> char_seq_lt(a, b) || char_seq_lt(b, a),
    decreases a.len(),
{
    if a.len() > 0 && b.len() > 0 && a[0] == b[0] {
        lemma_char_seq_lt_total(a.drop_first(), b.drop_first());
        if a.drop_first() == b.drop_first() {
            assert(a =~= seq![a[0]] + a.drop_first());
            assert(b =~= seq![b[0]] + b.drop_first());
        }
    } else if a.len() == 0 && b.len() == 0 {
        assert(a =~= b);
    }
}

pub proof fn lemma_char_seq_lt_transitive(a: Seq<char>, b: Seq<char>, c: Seq<char>)
    ensures
        char_seq_lt(a, b) && char_seq_lt(b, c) ==> char_seq_lt(a, c),
    decreases a.len(),
{
    if a.len() > 0 && b.len() > 0 && c.len() > 0 && a[0] == b[0] && b[0] == c[0] {
        lemma_char_seq_lt_transitive(a.drop_first(), b.drop_first(), c.drop_first());
    }
}

/// Whether `a` sorts strictly before `b`.
pub fn chars_lt(a: &[char], b: &[char]) -> (r: bool)
    ensures
        r == char_seq_lt(a@, b@),
{
    let mut i: usize = 0;
    proof {
        assert(a@.skip(0) =~= a@);
        assert(b@.skip(0) =~= b@);
    }
    while i < a.len() && i < b.len() && a[i] == b[i]
        invariant
            i <= a@.len(),
            i <= b@.len(),
            char_seq_lt(a@, b@) == char_seq_lt(a@.skip(i as int), b@.skip(i as int)),
        decreases a@.len() - i,
    {
        proof {
            assert(a@.skip(i as int).drop_first() =~= a@.skip(i as int + 1));
            assert(b@.skip(i as int).drop_first() =~= b@.skip(i as int + 1));
        }
        i += 1;
    }
    if i == a.len() {
        i < b.len()
    } else if i == b.len() {
        false
    } else {
        a[i] < b[i]
    }
}

/// Strictly increasing in lexicographic order (so also free of duplicates).
pub open spec fn strictly_sorted(v: Seq<Seq<char>>) -> bool {
    forall|i: int, j: int| 0 <= i < j < v.len() ==> char_seq_lt(v[i], v[j])
}

} // verus!

verus! {

// ---------------------------------------------------------------------------
// Decimal and hexadecimal digits
// ---------------------------------------------------------------------------

/// The character of a digit value below 16 (lowercase for 10..15).
pub open spec fn digit_char(d: nat) -> char {
    if d == 0 {
        '0'
    } else if d == 1 {
        '1'
    } else if d == 2 {
        '2'
    } else if d == 3 {
        '3'
    } else if d == 4 {
        '4'
    } else if d == 5 {
        '5'
    } else if d == 6 {
        '6'
    } else if d == 7 {
        '7'
    } else if d == 8 {
        '8'
    } else if d == 9 {
        '9'
    } else if d == 10 {
        'a'
    } else if d == 11 {
        'b'
    } else if d == 12 {
        'c'
    } else if d == 13 {
        'd'
    } else if d == 14 {
        'e'
    } else {
        'f'
    }
}

fn digit(d: u8) -> (c: char)
    requires
        d < 16,
    ensures
        c == digit_char(d as nat),
{
    if d == 0 {
        '0'
    } else if d == 1 {
        '1'
    } else if d == 2 {
        '2'
    } else if d == 3 {
        '3'
    } else if d == 4 {
        '4'
    } else if d == 5 {
        '5'
    } else if d == 6 {
        '6'
    } else if d == 7 {
        '7'
    } else if d == 8 {
        '8'
    } else if d == 9 {
        '9'
    } else if d == 10 {
        'a'
    } else if d == 11 {
        'b'
    } else if d == 12 {
        'c'
    } else if d == 13 {
        'd'
    } else if d == 14 {
        'e'
    } else {
        'f'
    }
}

/// The decimal representation of `n`, without leading zeros (what `{}`
/// prints for an unsigned integer).
pub open spec fn decimal(n: nat) -> Seq<char>
    decreases n,
{
    if n < 10 {
        seq![digit_char(n)]
    } else {
        decimal(n / 10).push(digit_char(n % 10))
    }
}

/// The number that a string of decimal digits denotes.
pub open spec fn digits_value(s: Seq<char>) -> int
    decreases s.len(),
{
    if s.len() == 0 {
        0
    } else {
        digits_value(s.drop_last()) * 10 + (s.last() as int - '0' as int)
    }
}

proof fn lemma_digit_char(d: nat)
    requires
        d < 10,
    ensures
        '0' <= digit_char(d) <= '9',
        digit_char(d) as int - '0' as int == d,
{
}

/// The decimal representation of `n` is its positional value: only the
/// digits `0`–`9`, no leading zero (but for `0` itself), and reading it
/// back gives `n`.
pub proof fn law_decimal_is_positional(n: nat)
    ensures
        decimal(n).len() > 0,
        forall|i: int| 0 <= i < decimal(n).len() ==> '0' <= #[trigger] decimal(n)[i] <= '9',
        n > 0 ==> decimal(n)[0] != '0',
        digits_value(decimal(n)) == n,
    decreases n,
{
    if n < 10 {
        lemma_digit_char(n);
        assert(decimal(n) =~= seq![digit_char(n)]);
        assert(seq![digit_char(n)].drop_last() =~= Seq::<char>::empty());
        assert(digits_value(Seq::<char>::empty()) == 0);
        assert(digits_value(decimal(n)) == digits_value(Seq::<char>::empty()) * 10 + (digit_char(n) as int - '0' as int));
    } else {
        let q = n / 10;
        let r = n % 10;
        law_decimal_is_positional(q);
        lemma_digit_char(r);
        let d = decimal(q);
        assert(decimal(n) == d.push(digit_char(r)));
        assert(d.push(digit_char(r)).drop_last() =~= d);
        assert forall|i: int| 0 <= i < decimal(n).len() implies '0' <= #[trigger] decimal(n)[i] <= '9' by {
            if i < d.len() {
                assert(decimal(n)[i] == d[i]);
            }
        }
        assert(decimal(n)[0] == d[0]);
        vstd::arithmetic::div_mod::lemma_fundamental_div_mod(n as int, 10);
        assert(digits_value(decimal(n)) == digits_value(d) * 10 + (digit_char(r) as int - '0' as int));
    }
}

fn push_decimal(n: usize, out: &mut Vec<char>)
    ensures
        final(out)@ == old(out)@ + decimal(n as nat),
    decreases n,
{
    if n >= 10 {
        push_decimal(n / 10, out);
    }
    out.push(digit((n % 10) as u8));
    proof {
        if n < 10 {
            assert(out@ =~= old(out)@ + decimal(n as nat));
        } else {
            assert(out@ =~= old(out)@ + decimal(n as nat));
        }
    }
}

/// The decimal representation of `n`.
pub fn decimal_string(n: usize) -> (s: String)
    ensures
        s@ == decimal(n as nat),
{
    let mut cs: Vec<char> = Vec::new();
    push_decimal(n, &mut cs);
    assert(cs@ =~= decimal(n as nat));
    string_from_chars(&cs)
}

/// Two lowercase hexadecimal digits per byte (what `{:02x}` prints).
pub open spec fn hex_lower(bytes: Seq<u8>) -> Seq<char>
    decreases bytes.len(),
{
    if bytes.len() == 0 {
        seq![]
    } else {
        hex_lower(bytes.drop_last()) + seq![
            digit_char((bytes.last() / 16) as nat),
            digit_char((bytes.last() % 16) as nat),
        ]
    }
}

/// The value of a lowercase hexadecimal digit.
pub open spec fn hex_value(c: char) -> int {
    if '0' <= c && c <= '9' {
        c as int - '0' as int
    } else {
        c as int - 'a' as int + 10
    }
}

pub open spec fn is_hex_digit(c: char) -> bool {
    ('0' <= c && c <= '9') || ('a' <= c && c <= 'f')
}

proof fn lemma_hex_digit(d: nat)
    requires
        d < 16,
    ensures
        is_hex_digit(digit_char(d)),
        hex_value(digit_char(d)) == d,
{
}

/// Digits `2i` and `2i + 1` of `h` are lowercase hex digits that read back
/// as `byte`.
pub open spec fn hex_pair_reads(h: Seq<char>, i: int, byte: u8) -> bool {
    &&& is_hex_digit(h[2 * i])
    &&& is_hex_digit(h[2 * i + 1])
    &&& hex_value(h[2 * i]) * 16 + hex_value(h[2 * i + 1]) == byte
}

/// The hex encoding spells every byte as two lowercase hex digits, high
/// nibble first, in order: digits `2i` and `2i + 1` read back as byte `i`.
pub proof fn law_hex_lower_encodes_bytes(bytes: Seq<u8>)
    ensures
        hex_lower(bytes).len() == 2 * bytes.len(),
        forall|i: int| 0 <= i < bytes.len() ==> #[trigger] hex_pair_reads(hex_lower(bytes), i, bytes[i]),
    decreases bytes.len(),
{
    if bytes.len() > 0 {
        let prev = bytes.drop_last();
        law_hex_lower_encodes_bytes(prev);
        let b = bytes.last();
        let h = hex_lower(bytes);
        let hp = hex_lower(prev);
        lemma_hex_digit((b / 16) as nat);
        lemma_hex_digit((b % 16) as nat);
        vstd::arithmetic::div_mod::lemma_fundamental_div_mod(b as int, 16);
        assert(h == hp + seq![digit_char((b / 16) as nat), digit_char((b % 16) as nat)]);
        assert(h.len() == 2 * bytes.len());
        assert forall|i: int| 0 <= i < bytes.len() implies #[trigger] hex_pair_reads(h, i, bytes[i]) by {
            if i < prev.len() {
                assert(prev[i] == bytes[i]);
                assert(hex_pair_reads(hp, i, prev[i]));
                assert(h[2 * i] == hp[2 * i]);
                assert(h[2 * i + 1] == hp[2 * i + 1]);
            } else {
                assert(bytes[i] == b);
                assert(h[2 * i] == digit_char((b / 16) as nat));
                assert(h[2 * i + 1] == digit_char((b % 16) as nat));
            }
        }
    }
}

/// Lowercase hexadecimal encoding of a byte string.
pub fn hex_string(bytes: &[u8]) -> (s: String)
    ensures
        s@ == hex_lower(bytes@),
{
    let mut cs: Vec<char> = Vec::new();
    let mut i: usize = 0;
    while i < bytes.len()
        invariant
            i <= bytes@.len(),
            cs@ == hex_lower(bytes@.take(i as int)),
        decreases bytes@.len() - i,
    {
        let b = bytes[i];
        proof {
            assert(bytes@.take(i as int + 1).drop_last() =~= bytes@.take(i as int));
        }
        cs.push(digit(b / 16));
        cs.push(digit(b % 16));
        assert(cs@ =~= hex_lower(bytes@.take(i as int + 1)));
        i += 1;
    }
    assert(bytes@.take(i as int) =~= bytes@);
    string_from_chars(&cs)
}

} // verus!

verus! {

/// The character sequences of a sequence of string slices.
pub open spec fn str_views(v: Seq<&str>) -> Seq<Seq<char>> {
    v.map_values(|s: &str| s@)
}

/// Whether `w` is one of the strings of `list`.
pub fn str_in(w: &str, list: &[&str]) -> (b: bool)
    ensures
        b == str_views(list@).contains(w@),
{
    let mut i: usize = 0;
    while i < list.len()
        invariant
            i <= list@.len(),
            forall|j: int| 0 <= j < i ==> list@[j]@ != w@,
        decreases list@.len() - i,
    {
        if str_eq(w, list[i]) {
            assert(str_views(list@)[i as int] == w@);
            return true;
        }
        i += 1;
    }
    assert forall|j: int| 0 <= j < str_views(list@).len() implies str_views(list@)[j] != w@ by {
        assert(str_views(list@)[j] == list@[j]@);
    }
    false
}

} // verus!

verus! {

// ---------------------------------------------------------------------------
// Trimming (as `str::trim` does it: Unicode `White_Space` at both ends)
// ---------------------------------------------------------------------------

/// `s` without its leading whitespace.
pub open spec fn trim_start(s: Seq<char>) -> Seq<char>
    decreases s.len(),
{
    if s.len() > 0 && unicode_whitespace(s[0]) {
        trim_start(s.drop_first())
    } else {
        s
    }
}

/// `s` without its trailing whitespace.
pub open spec fn trim_end(s: Seq<char>) -> Seq<char>
    decreases s.len(),
{
    if s.len() > 0 && unicode_whitespace(s.last()) {
        trim_end(s.drop_last())
    } else {
        s
    }
}

/// `s` without leading and trailing whitespace.
pub open spec fn trimmed(s: Seq<char>) -> Seq<char> {
    trim_end(trim_start(s))
}

proof fn lemma_trim_start_shape(s: Seq<char>)
    ensures
        trim_start(s).len() == 0 || !unicode_whitespace(trim_start(s)[0]),
        trim_start(s).len() <= s.len(),
        trim_start(s) == s.skip(s.len() - trim_start(s).len()),
        forall|k: int| 0 <= k < s.len() - trim_start(s).len() ==> unicode_whitespace(#[trigger] s[k]),
    decreases s.len(),
{
    if s.len() > 0 && unicode_whitespace(s[0]) {
        let t = s.drop_first();
        lemma_trim_start_shape(t);
        let m = trim_start(s).len() as int;
        assert(t.skip(t.len() - m) =~= s.skip(s.len() - m));
        assert forall|k: int| 0 <= k < s.len() - m implies unicode_whitespace(#[trigger] s[k]) by {
            if k > 0 {
                assert(s[k] == t[k - 1]);
            }
        }
    } else {
        assert(s.skip(0) =~= s);
    }
}

proof fn lemma_trim_end_shape(s: Seq<char>)
    ensures
        trim_end(s).len() <= s.len(),
        trim_end(s) == s.take(trim_end(s).len() as int),
        trim_end(s).len() == 0 || !unicode_whitespace(trim_end(s).last()),
        forall|k: int| trim_end(s).len() <= k < s.len() ==> unicode_whitespace(#[trigger] s[k]),
    decreases s.len(),
{
    if s.len() > 0 && unicode_whitespace(s.last()) {
        lemma_trim_end_shape(s.drop_last());
        let m = trim_end(s).len() as int;
        assert(s.drop_last().take(m) =~= s.take(m));
        assert forall|k: int| m <= k < s.len() implies unicode_whitespace(#[trigger] s[k]) by {
            if k < s.len() - 1 {
                assert(s[k] == s.drop_last()[k]);
            }
        }
    } else {
        assert(s.take(s.len() as int) =~= s);
    }
}

/// Trimming removes exactly the leading and trailing whitespace: the
/// result is a contiguous part `s[a..b]` of the text, everything outside
/// that part is whitespace, and the result neither starts nor ends with
/// whitespace.
pub proof fn law_trim(s: Seq<char>)
    ensures
        exists|a: int, b: int|
            0 <= a <= b <= s.len() && trimmed(s) == #[trigger] s.subrange(a, b) && (forall|k: int|
                (0 <= k < a || b <= k < s.len()) ==> unicode_whitespace(#[trigger] s[k])),
        trimmed(s).len() > 0 ==> !unicode_whitespace(trimmed(s)[0]) && !unicode_whitespace(
            trimmed(s).last(),
        ),
{
    let t = trim_start(s);
    lemma_trim_start_shape(s);
    lemma_trim_end_shape(t);
    let a = s.len() - t.len();
    let m = trim_end(t).len() as int;
    let b = a + m;
    assert(trimmed(s) =~= s.subrange(a, b));
    assert forall|k: int| (0 <= k < a || b <= k < s.len()) implies unicode_whitespace(#[trigger] s[k]) by {
        if k >= b {
            assert(s[k] == t[k - a]);
        }
    }
    if m > 0 {
        assert(trimmed(s)[0] == t[0]);
    }
}

/// Trimming twice trims nothing more.
pub proof fn lemma_trimmed_idempotent(s: Seq<char>)
    ensures
        trimmed(trimmed(s)) == trimmed(s),
{
    let t = trim_start(s);
    let u = trim_end(t);
    lemma_trim_start_shape(s);
    lemma_trim_end_shape(t);
    if u.len() > 0 {
        assert(u[0] == t[0]);
        assert(trim_start(u) == u);
        assert(trim_end(u) == u);
    } else {
        assert(trim_start(u) == u);
        assert(trim_end(u) == u);
    }
}

/// The bounds `(a, b)` of the trimmed part of `cs`.
pub fn trim_bounds(cs: &[char]) -> (r: (usize, usize))
    ensures
        r.0 <= r.1 <= cs@.len(),
        cs@.subrange(r.0 as int, r.1 as int) == trimmed(cs@),
{
    let n = cs.len();
    let mut a: usize = 0;
    proof {
        assert(cs@.subrange(0, n as int) =~= cs@);
    }
    while a < n && is_whitespace(cs[a])
        invariant
            n == cs@.len(),
            a <= n,
            trim_start(cs@) == trim_start(cs@.subrange(a as int, n as int)),
        decreases n - a,
    {
        proof {
            let t = cs@.subrange(a as int, n as int);
            assert(t[0] == cs@[a as int]);
            assert(t.drop_first() =~= cs@.subrange(a as int + 1, n as int));
        }
        a += 1;
    }
    let ghost front = cs@.subrange(a as int, n as int);
    proof {
        if a < n {
            assert(front[0] == cs@[a as int]);
        }
    }
    let mut b: usize = n;
    while b > a && is_whitespace(cs[b - 1])
        invariant
            n == cs@.len(),
            a <= b <= n,
            front == cs@.subrange(a as int, n as int),
            trim_end(front) == trim_end(cs@.subrange(a as int, b as int)),
        decreases b - a,
    {
        proof {
            let t = cs@.subrange(a as int, b as int);
            assert(t.last() == cs@[b - 1]);
            assert(t.drop_last() =~= cs@.subrange(a as int, b - 1));
        }
        b -= 1;
    }
    proof {
        if b > a {
            assert(cs@.subrange(a as int, b as int).last() == cs@[b - 1]);
        }
    }
    (a, b)
}

/// `s` with leading and trailing whitespace removed (`str::trim`).
pub fn trim(s: &str) -> (t: String)
    ensures
        t@ == trimmed(s@),
{
    let cs = chars_of(s);
    let (a, b) = trim_bounds(cs.as_slice());
    string_from_chars(&cs[a..b])
}

} // verus!
