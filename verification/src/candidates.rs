//! Candidate union (Stage 1 support).
//!
//! Each query variant contributes its own BM25 top list; Stage 2 re-scores
//! every candidate independently, so order is irrelevant and deduplication is
//! all that matters. The union is sorted for deterministic downstream
//! batching.

use vstd::prelude::*;
use vstd::hash_set::StringHashSet;
use crate::text::{
    char_seq_lt, chars_eq, chars_lt, chars_of, lemma_char_seq_lt_asymmetric,
    lemma_char_seq_lt_total, lemma_char_seq_lt_transitive, lemma_strings_view_push, lines_of,
    strictly_sorted, strings_view, text_lines,
};

verus! {

/// `x` is one of the strings of one of the lists.
pub open spec fn in_lists(lists: Seq<Vec<String>>, x: Seq<char>) -> bool {
    exists|i: int, j: int| 0 <= i < lists.len() && 0 <= j < lists[i]@.len() && (#[trigger] lists[i]@[j])@ == x
}

/// `x` is one of the strings.
pub open spec fn in_strings(v: Seq<String>, x: Seq<char>) -> bool {
    exists|j: int| 0 <= j < v.len() && (#[trigger] v[j])@ == x
}

/// A sorted, duplicate-free string list with the character vectors of its
/// entries alongside.
pub open spec fn sorted_keyed(out: Seq<String>, keys: Seq<Vec<char>>) -> bool {
    &&& keys.len() == out.len()
    &&& forall|i: int| 0 <= i < out.len() ==> (#[trigger] keys[i])@ == out[i]@
    &&& strictly_sorted(strings_view(out))
}

/// Inserts `s` into a sorted, duplicate-free list unless it is already there.
fn insert_sorted(out: &mut Vec<String>, keys: &mut Vec<Vec<char>>, s: &String)
    requires
        sorted_keyed(old(out)@, old(keys)@),
    ensures
        sorted_keyed(final(out)@, final(keys)@),
        forall|x: Seq<char>|
            strings_view(final(out)@).contains(x) <==> (strings_view(old(out)@).contains(x) || x
                == s@),
{
    let k = chars_of(s.as_str());
    let ghost v = strings_view(out@);
    let mut p: usize = 0;
    while p < keys.len() && chars_lt(&keys[p], &k)
        invariant
            sorted_keyed(out@, keys@),
            v == strings_view(out@),
            p <= keys@.len(),
            forall|i: int| 0 <= i < p ==> char_seq_lt(v[i], k@),
        decreases keys@.len() - p,
    {
        p += 1;
    }
    if p < keys.len() && chars_eq(&keys[p], &k) {
        assert forall|x: Seq<char>| v.contains(x) <==> (v.contains(x) || x == s@) by {
            if x == s@ {
                assert(v[p as int] == x);
            }
        }
        return;
    }
    proof {
        if p < v.len() {
            assert(keys@[p as int]@ == v[p as int]);
            lemma_char_seq_lt_total(v[p as int], k@);
            lemma_char_seq_lt_asymmetric(k@, v[p as int]);
            assert(char_seq_lt(k@, v[p as int]));
        }
    }
    out.insert(p, s.clone());
    keys.insert(p, k);
    proof {
        let nv = strings_view(out@);
        assert(nv =~= v.insert(p as int, s@));
        assert forall|i: int, j: int| 0 <= i < j < nv.len() implies char_seq_lt(nv[i], nv[j]) by {
            if j < p {
            } else if j == p {
            } else if i < p {
                lemma_char_seq_lt_transitive(nv[i], k@, nv[j]);
                if j > p + 1 {
                    lemma_char_seq_lt_transitive(k@, v[p as int], v[j - 1]);
                }
            } else if i == p {
                if j > p + 1 {
                    lemma_char_seq_lt_transitive(k@, v[p as int], v[j - 1]);
                }
            } else {
            }
        }
        assert forall|i: int| 0 <= i < out@.len() implies (#[trigger] keys@[i])@ == out@[i]@ by {
            if i < p {
            } else if i == p {
            } else {
                assert(keys@[i] == old(keys)@[i - 1]);
            }
        }
        assert forall|x: Seq<char>| nv.contains(x) <==> (v.contains(x) || x == s@) by {
            if nv.contains(x) {
                let i = choose|i: int| 0 <= i < nv.len() && nv[i] == x;
                if i < p {
                    assert(v[i] == x);
                } else if i > p {
                    assert(v[i - 1] == x);
                }
            }
            if v.contains(x) {
                let i = choose|i: int| 0 <= i < v.len() && v[i] == x;
                if i < p {
                    assert(nv[i] == x);
                } else {
                    assert(nv[i + 1] == x);
                }
            }
            if x == s@ {
                assert(nv[p as int] == x);
            }
        }
    }
}

/// Union of per-variant candidate lists and git-grep hits, deduplicated and
/// sorted for deterministic downstream batching.
pub fn union_candidates(variant_lists: &[Vec<String>], grep_hits: &[String]) -> (r: Vec<String>)
    ensures
        strictly_sorted(strings_view(r@)),
        forall|x: Seq<char>|
            strings_view(r@).contains(x) <==> (in_lists(variant_lists@, x) || in_strings(
                grep_hits@,
                x,
            )),
{
    let mut out: Vec<String> = Vec::new();
    let mut keys: Vec<Vec<char>> = Vec::new();
    let mut i: usize = 0;
    while i < variant_lists.len()
        invariant
            i <= variant_lists@.len(),
            sorted_keyed(out@, keys@),
            forall|x: Seq<char>|
                #![trigger strings_view(out@).contains(x)]
                strings_view(out@).contains(x) <==> in_lists(variant_lists@.take(i as int), x),
        decreases variant_lists@.len() - i,
    {
        let list = &variant_lists[i];
        let mut j: usize = 0;
        while j < list.len()
            invariant
                i < variant_lists@.len(),
                list == variant_lists@[i as int],
                j <= list@.len(),
                sorted_keyed(out@, keys@),
                forall|x: Seq<char>|
                    #![trigger strings_view(out@).contains(x)]
                    strings_view(out@).contains(x) <==> (in_lists(variant_lists@.take(i as int), x)
                        || in_strings(list@.take(j as int), x)),
            decreases list@.len() - j,
        {
            let ghost before = strings_view(out@);
            insert_sorted(&mut out, &mut keys, &list[j]);
            proof {
                assert forall|x: Seq<char>| in_strings(list@.take(j as int + 1), x) <==> (in_strings(
                    list@.take(j as int),
                    x,
                ) || x == list@[j as int]@) by {
                    if in_strings(list@.take(j as int + 1), x) {
                        let k = choose|k: int| 0 <= k < j + 1 && (#[trigger] list@.take(j as int + 1)[k])@ == x;
                        if k < j {
                            assert(list@.take(j as int)[k] == list@[k]);
                        }
                    }
                    if in_strings(list@.take(j as int), x) {
                        let k = choose|k: int| 0 <= k < j && (#[trigger] list@.take(j as int)[k])@ == x;
                        assert(list@.take(j as int + 1)[k] == list@[k]);
                    }
                    if x == list@[j as int]@ {
                        assert(list@.take(j as int + 1)[j as int] == list@[j as int]);
                    }
                }
                assert forall|x: Seq<char>| strings_view(out@).contains(x) <==> (in_lists(
                    variant_lists@.take(i as int),
                    x,
                ) || in_strings(list@.take(j as int + 1), x)) by {
                    assert(strings_view(out@).contains(x) <==> (before.contains(x) || x
                        == list@[j as int]@));
                    assert(before.contains(x) <==> (in_lists(variant_lists@.take(i as int), x)
                        || in_strings(list@.take(j as int), x)));
                }
            }
            j += 1;
        }
        proof {
            assert(list@.take(j as int) =~= list@);
            assert forall|x: Seq<char>| in_lists(variant_lists@.take(i as int + 1), x) <==> (in_lists(
                variant_lists@.take(i as int),
                x,
            ) || in_strings(list@, x)) by {
                let a = variant_lists@.take(i as int + 1);
                let b = variant_lists@.take(i as int);
                if in_lists(a, x) {
                    let (p, q) = choose|p: int, q: int| 0 <= p < a.len() && 0 <= q < a[p]@.len() && (#[trigger] a[p]@[q])@ == x;
                    if p < i {
                        assert(b[p] == a[p]);
                        assert(b[p]@[q]@ == x);
                    } else {
                        assert(list@[q]@ == x);
                    }
                }
                if in_lists(b, x) {
                    let (p, q) = choose|p: int, q: int| 0 <= p < b.len() && 0 <= q < b[p]@.len() && (#[trigger] b[p]@[q])@ == x;
                    assert(a[p] == b[p]);
                    assert(a[p]@[q]@ == x);
                }
                if in_strings(list@, x) {
                    let q = choose|q: int| 0 <= q < list@.len() && (#[trigger] list@[q])@ == x;
                    assert(a[i as int] == list);
                    assert(a[i as int]@[q]@ == x);
                }
            }
        }
        i += 1;
    }
    proof {
        assert(variant_lists@.take(i as int) =~= variant_lists@);
    }
    let mut j: usize = 0;
    while j < grep_hits.len()
        invariant
            j <= grep_hits@.len(),
            sorted_keyed(out@, keys@),
            forall|x: Seq<char>|
                #![trigger strings_view(out@).contains(x)]
                strings_view(out@).contains(x) <==> (in_lists(variant_lists@, x) || in_strings(
                    grep_hits@.take(j as int),
                    x,
                )),
        decreases grep_hits@.len() - j,
    {
        let ghost before = strings_view(out@);
        insert_sorted(&mut out, &mut keys, &grep_hits[j]);
        proof {
            let g = grep_hits@;
            assert forall|x: Seq<char>| in_strings(g.take(j as int + 1), x) <==> (in_strings(
                g.take(j as int),
                x,
            ) || x == g[j as int]@) by {
                if in_strings(g.take(j as int + 1), x) {
                    let k = choose|k: int| 0 <= k < j + 1 && (#[trigger] g.take(j as int + 1)[k])@ == x;
                    if k < j {
                        assert(g.take(j as int)[k] == g[k]);
                    }
                }
                if in_strings(g.take(j as int), x) {
                    let k = choose|k: int| 0 <= k < j && (#[trigger] g.take(j as int)[k])@ == x;
                    assert(g.take(j as int + 1)[k] == g[k]);
                }
                if x == g[j as int]@ {
                    assert(g.take(j as int + 1)[j as int] == g[j as int]);
                }
            }
            assert forall|x: Seq<char>| strings_view(out@).contains(x) <==> (in_lists(
                variant_lists@,
                x,
            ) || in_strings(g.take(j as int + 1), x)) by {
                assert(strings_view(out@).contains(x) <==> (before.contains(x) || x == g[j as int]@));
                assert(before.contains(x) <==> (in_lists(variant_lists@, x) || in_strings(
                    g.take(j as int),
                    x,
                )));
            }
        }
        j += 1;
    }
    proof {
        assert(grep_hits@.take(j as int) =~= grep_hits@);
    }
    out
}


/// The union depends on the names alone, not on their order or repetition
/// in the inputs: two strictly sorted name lists with the same members (as
/// `union_candidates` returns for inputs holding the same names) are the
/// same list.
pub proof fn law_union_is_determined_by_its_members(x: Seq<Seq<char>>, y: Seq<Seq<char>>)
    requires
        strictly_sorted(x),
        strictly_sorted(y),
        forall|t: Seq<char>| x.contains(t) <==> y.contains(t),
    ensures
        x == y,
    decreases x.len() + y.len(),
{
    if x.len() == 0 {
        if y.len() > 0 {
            assert(y.contains(y[0]));
        }
        assert(y =~= x);
    } else if y.len() == 0 {
        assert(x.contains(x[0]));
    } else {
        assert(x.contains(x[0]));
        assert(y.contains(y[0]));
        let j = choose|j: int| 0 <= j < y.len() && y[j] == x[0];
        let k = choose|k: int| 0 <= k < x.len() && x[k] == y[0];
        if x[0] != y[0] {
            assert(j > 0 && k > 0);
            // y[0] < y[j] = x[0] < x[k] = y[0]
            lemma_char_seq_lt_transitive(y[0], x[0], y[0]);
            crate::text::lemma_char_seq_lt_irreflexive(y[0]);
        }
        assert(x[0] == y[0]);
        let x1 = x.drop_first();
        let y1 = y.drop_first();
        assert forall|t: Seq<char>| x1.contains(t) <==> y1.contains(t) by {
            if x1.contains(t) {
                let i = choose|i: int| 0 <= i < x1.len() && x1[i] == t;
                assert(x[i + 1] == t);
                assert(char_seq_lt(x[0], t));
                crate::text::lemma_char_seq_lt_irreflexive(t);
                assert(x.contains(t));
                assert(y.contains(t));
                let m = choose|m: int| 0 <= m < y.len() && y[m] == t;
                assert(m != 0);
                assert(y1[m - 1] == t);
            }
            if y1.contains(t) {
                let i = choose|i: int| 0 <= i < y1.len() && y1[i] == t;
                assert(y[i + 1] == t);
                assert(char_seq_lt(y[0], t));
                crate::text::lemma_char_seq_lt_irreflexive(t);
                assert(y.contains(t));
                assert(x.contains(t));
                let m = choose|m: int| 0 <= m < x.len() && x[m] == t;
                assert(m != 0);
                assert(x1[m - 1] == t);
            }
        }
        law_union_is_determined_by_its_members(x1, y1);
        assert(x =~= seq![x[0]] + x1);
        assert(y =~= seq![y[0]] + y1);
    }
}

proof fn lemma_take_succ_contains(s: Seq<Seq<char>>, j: int, x: Seq<char>)
    requires
        0 <= j < s.len(),
    ensures
        s.take(j + 1).contains(x) <==> (s.take(j).contains(x) || x == s[j]),
{
    if s.take(j + 1).contains(x) {
        let k = choose|k: int| 0 <= k < j + 1 && #[trigger] s.take(j + 1)[k] == x;
        if k < j {
            assert(s.take(j)[k] == x);
        }
    }
    if s.take(j).contains(x) {
        let k = choose|k: int| 0 <= k < j && #[trigger] s.take(j)[k] == x;
        assert(s.take(j + 1)[k] == x);
    }
    if x == s[j] {
        assert(s.take(j + 1)[j] == x);
    }
}

/// `x` is a line of one of the outputs and one of the walked files.
pub open spec fn grep_selected(outputs: Seq<String>, walked: Seq<String>, x: Seq<char>) -> bool {
    &&& in_strings(walked, x)
    &&& exists|i: int| 0 <= i < outputs.len() && (#[trigger] text_lines(outputs[i]@)).contains(x)
}

/// The lines of `git grep -il` outputs that name a walked file, deduplicated
/// and sorted. Lines naming anything else are dropped.
pub fn select_grep_hits(outputs: &[String], walked: &[String]) -> (r: Vec<String>)
    ensures
        strictly_sorted(strings_view(r@)),
        forall|x: Seq<char>| strings_view(r@).contains(x) <==> grep_selected(outputs@, walked@, x),
{
    let mut known = StringHashSet::new();
    let mut w: usize = 0;
    while w < walked.len()
        invariant
            w <= walked@.len(),
            forall|x: Seq<char>| #![trigger known@.contains(x)] known@.contains(x) <==> in_strings(walked@.take(w as int), x),
        decreases walked@.len() - w,
    {
        let ghost before = known@;
        known.insert(walked[w].clone());
        proof {
            let g = walked@;
            assert forall|x: Seq<char>| known@.contains(x) <==> in_strings(g.take(w as int + 1), x) by {
                if in_strings(g.take(w as int + 1), x) {
                    let k = choose|k: int| 0 <= k < w + 1 && (#[trigger] g.take(w as int + 1)[k])@ == x;
                    if k < w {
                        assert(g.take(w as int)[k] == g[k]);
                    }
                }
                if in_strings(g.take(w as int), x) {
                    let k = choose|k: int| 0 <= k < w && (#[trigger] g.take(w as int)[k])@ == x;
                    assert(g.take(w as int + 1)[k] == g[k]);
                }
                if x == g[w as int]@ {
                    assert(g.take(w as int + 1)[w as int] == g[w as int]);
                }
                assert(before.contains(x) <==> in_strings(g.take(w as int), x));
            }
        }
        w += 1;
    }
    proof {
        assert(walked@.take(w as int) =~= walked@);
    }
    let mut out: Vec<String> = Vec::new();
    let mut keys: Vec<Vec<char>> = Vec::new();
    let mut i: usize = 0;
    while i < outputs.len()
        invariant
            i <= outputs@.len(),
            forall|x: Seq<char>| #![trigger known@.contains(x)] known@.contains(x) <==> in_strings(walked@, x),
            sorted_keyed(out@, keys@),
            forall|x: Seq<char>|
                #![trigger strings_view(out@).contains(x)]
                strings_view(out@).contains(x) <==> grep_selected(outputs@.take(i as int), walked@, x),
        decreases outputs@.len() - i,
    {
        let lines = lines_of(outputs[i].as_str());
        let ghost ls = text_lines(outputs@[i as int]@);
        let mut j: usize = 0;
        while j < lines.len()
            invariant
                i < outputs@.len(),
                strings_view(lines@) == ls,
                ls == text_lines(outputs@[i as int]@),
                j <= lines@.len(),
                forall|x: Seq<char>| #![trigger known@.contains(x)] known@.contains(x) <==> in_strings(walked@, x),
                sorted_keyed(out@, keys@),
                forall|x: Seq<char>|
                    #![trigger strings_view(out@).contains(x)]
                    strings_view(out@).contains(x) <==> (grep_selected(outputs@.take(i as int), walked@, x)
                        || (in_strings(walked@, x) && ls.take(j as int).contains(x))),
            decreases lines@.len() - j,
        {
            let ghost before = strings_view(out@);
            proof {
                assert(strings_view(lines@)[j as int] == lines@[j as int]@);
                assert(ls.take(j as int + 1) =~= ls.take(j as int).push(ls[j as int]));
            }
            if known.contains(lines[j].as_str()) {
                insert_sorted(&mut out, &mut keys, &lines[j]);
                proof {
                    assert forall|x: Seq<char>| strings_view(out@).contains(x) <==> (grep_selected(outputs@.take(i as int), walked@, x)
                        || (in_strings(walked@, x) && ls.take(j as int + 1).contains(x))) by {
                        assert(strings_view(out@).contains(x) <==> (before.contains(x) || x == ls[j as int]));
                        assert(before.contains(x) <==> (grep_selected(outputs@.take(i as int), walked@, x)
                            || (in_strings(walked@, x) && ls.take(j as int).contains(x))));
                        assert(known@.contains(ls[j as int]));
                        lemma_take_succ_contains(ls, j as int, x);
                    }
                }
            } else {
                proof {
                    assert forall|x: Seq<char>| strings_view(out@).contains(x) <==> (grep_selected(outputs@.take(i as int), walked@, x)
                        || (in_strings(walked@, x) && ls.take(j as int + 1).contains(x))) by {
                        assert(before.contains(x) <==> (grep_selected(outputs@.take(i as int), walked@, x)
                            || (in_strings(walked@, x) && ls.take(j as int).contains(x))));
                        lemma_take_succ_contains(ls, j as int, x);
                        if x == ls[j as int] {
                            assert(!known@.contains(x));
                        }
                    }
                }
            }
            j += 1;
        }
        proof {
            assert(ls.take(j as int) =~= ls);
            let a = outputs@.take(i as int + 1);
            let b = outputs@.take(i as int);
            assert forall|x: Seq<char>| strings_view(out@).contains(x) <==> grep_selected(a, walked@, x) by {
                if grep_selected(a, walked@, x) {
                    let k = choose|k: int| 0 <= k < a.len() && (#[trigger] text_lines(a[k]@)).contains(x);
                    if k < i {
                        assert(b[k] == a[k]);
                        assert(text_lines(b[k]@).contains(x));
                    } else {
                        assert(a[k] == outputs@[i as int]);
                    }
                }
                if grep_selected(b, walked@, x) {
                    let k = choose|k: int| 0 <= k < b.len() && (#[trigger] text_lines(b[k]@)).contains(x);
                    assert(a[k] == b[k]);
                    assert(text_lines(a[k]@).contains(x));
                }
                if in_strings(walked@, x) && ls.contains(x) {
                    assert(a[i as int] == outputs@[i as int]);
                    assert(text_lines(a[i as int]@).contains(x));
                }
            }
        }
        i += 1;
    }
    proof {
        assert(outputs@.take(i as int) =~= outputs@);
    }
    out
}

} // verus!
