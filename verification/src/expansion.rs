//! Keyword variants for Stage 1.
//!
//! Variants come from the caller (`-k`), capped at four; otherwise the
//! concept with English stopwords stripped is the single variant, so a bare
//! question does not index interrogative filler ("where does…").

use vstd::prelude::*;
use crate::text::{
    chars_of, is_alphanumeric, is_whitespace, join_with, lemma_split_pieces_nonempty,
    lemma_split_pieces_push, lemma_strings_view_push, split_pieces, str_eq, string_from_chars,
    strings_view, to_lowercase, unicode_alphanumeric, unicode_lowercase, unicode_whitespace,
};

verus! {

broadcast use {vstd::string::group_string_axioms, vstd::seq_lib::group_filter_ensures};

/// At most this many caller keyword variants are used.
pub const MAX_VARIANTS: usize = 4;

/// Interrogative/function words that add BM25 noise without narrowing the
/// concept.
pub const STOPWORDS: [&'static str; 35] = [
    "a", "an", "and", "are", "at", "be", "by", "code", "do", "does", "for", "from", "happen",
    "happens", "how", "in", "is", "it", "of", "on", "or", "our", "that", "the", "their", "this",
    "to", "we", "what", "when", "where", "which", "who", "why", "with",
];

/// The stopwords as character sequences.
pub open spec fn stopword_list() -> Seq<Seq<char>> {
    STOPWORDS@.map_values(|w: &str| w@)
}

pub open spec fn whitespace_sep() -> spec_fn(char) -> bool {
    |c: char| unicode_whitespace(c)
}

/// The lowercased alphanumeric characters of a word ("happen?" → "happen").
pub open spec fn bare_form(w: Seq<char>) -> Seq<char> {
    unicode_lowercase(w.filter(|c: char| unicode_alphanumeric(c)))
}

/// A whitespace-separated word that is kept: non-empty, and its bare form is
/// not a stopword.
pub open spec fn keeps_word() -> spec_fn(Seq<char>) -> bool {
    |w: Seq<char>| w.len() > 0 && !stopword_list().contains(bare_form(w))
}

/// Words joined with single spaces.
pub open spec fn join_spaces(ws: Seq<Seq<char>>) -> Seq<char>
    decreases ws.len(),
{
    if ws.len() == 0 {
        seq![]
    } else if ws.len() == 1 {
        ws[0]
    } else {
        join_spaces(ws.drop_last()) + seq![' '] + ws.last()
    }
}

/// The concept without its stopwords.
pub open spec fn stripped_concept(s: Seq<char>) -> Seq<char> {
    join_spaces(split_pieces(s, whitespace_sep()).filter(keeps_word()))
}

/// The Stage 1 query variants.
pub open spec fn spec_variants(concept: Seq<char>, keywords: Seq<Seq<char>>) -> Seq<Seq<char>> {
    if keywords.len() > 0 {
        keywords.take(if keywords.len() < MAX_VARIANTS { keywords.len() as int } else { MAX_VARIANTS as int })
    } else if stripped_concept(concept).len() == 0 {
        seq![concept]
    } else {
        seq![stripped_concept(concept)]
    }
}

/// The kept words are joined with exactly one space between neighbours.
pub proof fn law_join_spaces_is_space_separated(ws: Seq<Seq<char>>)
    ensures
        join_spaces(ws) == join_with(ws, ' '),
    decreases ws.len(),
{
    if ws.len() > 1 {
        law_join_spaces_is_space_separated(ws.drop_last());
    }
}

/// The stopword fallback keeps exactly the non-blank whitespace-separated
/// words of the concept whose bare form (lowercased alphanumerics) is not a
/// stopword, in order, joined by single spaces: no kept word is a stopword,
/// and no other word is lost.
pub proof fn law_stopwords_are_stripped(s: Seq<char>)
    ensures
        stripped_concept(s) == join_spaces(split_pieces(s, whitespace_sep()).filter(keeps_word())),
        forall|w: Seq<char>|
            #[trigger] split_pieces(s, whitespace_sep()).filter(keeps_word()).contains(w) ==> w.len() > 0
                && !stopword_list().contains(bare_form(w)),
        forall|w: Seq<char>|
            #[trigger] split_pieces(s, whitespace_sep()).contains(w) && w.len() > 0
                && !stopword_list().contains(bare_form(w)) ==> split_pieces(
                s,
                whitespace_sep(),
            ).filter(keeps_word()).contains(w),
{
    let words = split_pieces(s, whitespace_sep());
    let kept = words.filter(keeps_word());
    assert forall|w: Seq<char>| #[trigger] kept.contains(w) implies w.len() > 0 && !stopword_list().contains(bare_form(w)) by {
        let i = choose|i: int| 0 <= i < kept.len() && kept[i] == w;
        assert(keeps_word()(kept[i]));
    }
    assert forall|w: Seq<char>| #[trigger] words.contains(w) && w.len() > 0 && !stopword_list().contains(bare_form(w)) implies kept.contains(w) by {
        assert(keeps_word()(w));
    }
}

/// There is always at least one variant and never more than four: caller
/// keywords are capped, and without keywords the concept yields exactly one.
pub proof fn law_variant_count(concept: Seq<char>, keywords: Seq<Seq<char>>)
    ensures
        1 <= spec_variants(concept, keywords).len() <= MAX_VARIANTS,
        keywords.len() == 0 ==> spec_variants(concept, keywords).len() == 1,
{
}

/// The Stage 1 query variants: `-k` values pass through (capped at four),
/// otherwise the stopword-stripped concept is the single variant, or the
/// concept itself when it is all stopwords.
pub fn variants(concept: &str, keywords: &[String]) -> (r: Vec<String>)
    ensures
        strings_view(r@) == spec_variants(concept@, strings_view(keywords@)),
{
    if keywords.len() > 0 {
        let n = if keywords.len() < MAX_VARIANTS { keywords.len() } else { MAX_VARIANTS };
        let mut r: Vec<String> = Vec::new();
        let mut i: usize = 0;
        while i < n
            invariant
                n <= keywords@.len(),
                i <= n,
                strings_view(r@) == strings_view(keywords@).take(i as int),
            decreases n - i,
        {
            let k = keywords[i].clone();
            proof {
                lemma_strings_view_push(r@, k);
                assert(strings_view(keywords@).take(i as int + 1) =~= strings_view(keywords@).take(
                    i as int,
                ).push(keywords@[i as int]@));
            }
            r.push(k);
            i += 1;
        }
        return r;
    }
    let stripped = strip_stopwords(concept);
    let chosen = if stripped.as_str().is_empty() {
        concept.to_owned()
    } else {
        stripped
    };
    let mut r: Vec<String> = Vec::new();
    proof {
        lemma_strings_view_push(r@, chosen);
        assert(strings_view(keywords@) =~= Seq::<Seq<char>>::empty());
    }
    r.push(chosen);
    proof {
        assert(strings_view(r@) =~= spec_variants(concept@, strings_view(keywords@)));
    }
    r
}

/// Whether a (lowercase, bare) word is a stopword.
fn is_stopword(w: &str) -> (b: bool)
    ensures
        b == stopword_list().contains(w@),
{
    let mut i: usize = 0;
    while i < STOPWORDS.len()
        invariant
            i <= 35,
            forall|j: int| 0 <= j < i ==> stopword_list()[j] != w@,
        decreases 35 - i,
    {
        if str_eq(w, STOPWORDS[i]) {
            proof {
                assert(stopword_list()[i as int] == w@);
            }
            return true;
        }
        i += 1;
    }
    false
}

/// The lowercased alphanumeric characters of a word.
fn bare_word(word: &[char]) -> (r: String)
    ensures
        r@ == bare_form(word@),
{
    let mut kept: Vec<char> = Vec::new();
    let mut i: usize = 0;
    let ghost f = |c: char| unicode_alphanumeric(c);
    proof {
        assert(word@.take(0) =~= Seq::<char>::empty());
        reveal_with_fuel(Seq::filter, 1);
    }
    while i < word.len()
        invariant
            i <= word@.len(),
            f == (|c: char| unicode_alphanumeric(c)),
            kept@ == word@.take(i as int).filter(f),
        decreases word@.len() - i,
    {
        proof {
            assert(word@.take(i as int + 1) =~= word@.take(i as int).push(word@[i as int]));
            assert(word@.take(i as int + 1).drop_last() =~= word@.take(i as int));
            reveal_with_fuel(Seq::filter, 1);
        }
        if is_alphanumeric(word[i]) {
            kept.push(word[i]);
        }
        i += 1;
    }
    proof {
        assert(word@.take(i as int) =~= word@);
    }
    let s = string_from_chars(&kept);
    to_lowercase(s.as_str())
}

proof fn lemma_join_spaces_push(ws: Seq<Seq<char>>, w: Seq<char>)
    ensures
        join_spaces(ws.push(w)) == if ws.len() == 0 {
            w
        } else {
            join_spaces(ws) + seq![' '] + w
        },
{
    assert(ws.push(w).drop_last() =~= ws);
}

/// Closes one whitespace-separated word: appends it to `out` unless it is
/// empty or a stopword.
fn close_word(word: &[char], out: &mut Vec<char>, kept: &mut usize, Ghost(ws): Ghost<Seq<Seq<char>>>)
    requires
        old(out)@ == join_spaces(ws),
        *old(kept) == ws.len(),
        ws.len() < usize::MAX,
    ensures
        final(out)@ == join_spaces(if keeps_word()(word@) { ws.push(word@) } else { ws }),
        *final(kept) == (if keeps_word()(word@) { ws.push(word@) } else { ws }).len(),
{
    if word.len() == 0 {
        return;
    }
    let bare = bare_word(word);
    if is_stopword(bare.as_str()) {
        return;
    }
    proof {
        lemma_join_spaces_push(ws, word@);
    }
    if *kept > 0 {
        out.push(' ');
    }
    let mut i: usize = 0;
    let ghost base = out@;
    while i < word.len()
        invariant
            i <= word@.len(),
            out@ == base + word@.take(i as int),
        decreases word@.len() - i,
    {
        proof {
            assert(word@.take(i as int + 1) =~= word@.take(i as int).push(word@[i as int]));
        }
        out.push(word[i]);
        i += 1;
    }
    proof {
        assert(word@.take(i as int) =~= word@);
        if ws.len() == 0 {
            assert(base =~= Seq::<char>::empty());
            assert(out@ =~= word@);
        } else {
            assert(out@ =~= join_spaces(ws) + seq![' '] + word@);
        }
    }
    *kept = *kept + 1;
}

/// The concept with its stopword words removed, remaining words joined by
/// single spaces.
fn strip_stopwords(concept: &str) -> (r: String)
    ensures
        r@ == stripped_concept(concept@),
{
    let cs = chars_of(concept);
    let ghost s = cs@;
    let mut out: Vec<char> = Vec::new();
    let mut kept: usize = 0;
    let mut start: usize = 0;
    let mut i: usize = 0;
    proof {
        assert(s.take(0) =~= Seq::<char>::empty());
        reveal_with_fuel(Seq::filter, 1);
        assert(split_pieces(s.take(0), whitespace_sep()).drop_last() =~= Seq::<Seq<char>>::empty());
    }
    while i < cs.len()
        invariant
            s == cs@,
            start <= i <= s.len(),
            split_pieces(s.take(i as int), whitespace_sep()).len() >= 1,
            split_pieces(s.take(i as int), whitespace_sep()).last() == s.subrange(
                start as int,
                i as int,
            ),
            out@ == join_spaces(
                split_pieces(s.take(i as int), whitespace_sep()).drop_last().filter(keeps_word()),
            ),
            kept == split_pieces(s.take(i as int), whitespace_sep()).drop_last().filter(keeps_word()).len(),
            2 * kept <= start,
        decreases s.len() - i,
    {
        let ghost prev = split_pieces(s.take(i as int), whitespace_sep());
        proof {
            assert(s.take(i as int + 1) =~= s.take(i as int).push(s[i as int]));
            lemma_split_pieces_push(s.take(i as int), s[i as int], whitespace_sep());
        }
        if is_whitespace(cs[i]) {
            close_word(&cs[start..i], &mut out, &mut kept, Ghost(prev.drop_last().filter(keeps_word())));
            proof {
                let next = split_pieces(s.take(i as int + 1), whitespace_sep());
                assert(next.drop_last() =~= prev);
                assert(prev =~= prev.drop_last().push(prev.last()));
                assert(prev.drop_last().filter(keeps_word()).len() <= prev.drop_last().len());
                reveal_with_fuel(Seq::filter, 1);
                lemma_split_pieces_nonempty(s.take(i as int + 1), whitespace_sep());
                assert(s.subrange(i as int + 1, i as int + 1) =~= Seq::<char>::empty());
                lemma_split_pieces_nonempty(s.take(i as int), whitespace_sep());
            }
            start = i + 1;
        } else {
            proof {
                let next = split_pieces(s.take(i as int + 1), whitespace_sep());
                assert(next.drop_last() =~= prev.drop_last());
                assert(s.subrange(start as int, i as int + 1) =~= s.subrange(
                    start as int,
                    i as int,
                ).push(s[i as int]));
            }
        }
        i += 1;
    }
    let ghost prev = split_pieces(s.take(i as int), whitespace_sep());
    close_word(&cs[start..cs.len()], &mut out, &mut kept, Ghost(prev.drop_last().filter(keeps_word())));
    proof {
        assert(s.take(s.len() as int) =~= s);
        assert(prev =~= prev.drop_last().push(prev.last()));
        reveal_with_fuel(Seq::filter, 1);
    }
    string_from_chars(&out)
}

} // verus!
