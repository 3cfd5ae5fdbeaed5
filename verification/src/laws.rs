//! General laws of the sentence scan, stated and proved once for all inputs.

use vstd::prelude::*;

use crate::chars::{is_terminator, is_word_char, lemma_word_char_not_terminator};
use crate::scan::{
    first_hit, first_term, is_boundary, lemma_first_hit_props, lemma_first_hit_unique,
    lemma_first_term_props, lemma_first_term_unique, lemma_match_end_bounds, lemma_scan_spans_wf,
    match_at, match_end, occurs_at, scan_spans, sentences_of, term_free,
};

verus! {

/// Returned sentences keep the left-to-right order of their spans in the
/// text: earlier spans end before later ones begin.
pub proof fn lemma_ordering(t: Seq<char>, w: Seq<char>, i: int, j: int)
    requires
        0 <= i < j < scan_spans(t, w, 0).len(),
    ensures
        scan_spans(t, w, 0)[i].1 <= scan_spans(t, w, 0)[j].0,
        scan_spans(t, w, 0)[i].0 < scan_spans(t, w, 0)[j].0,
{
    lemma_scan_spans_wf(t, w, 0);
}

/// Every returned sentence contains the word, reached from the sentence
/// start without crossing a terminator; the sentence itself starts on a word
/// constituent, so its start lies on a word boundary of the text.
pub proof fn lemma_containment(t: Seq<char>, w: Seq<char>, i: int)
    requires
        0 <= i < scan_spans(t, w, 0).len(),
    ensures
        ({
            let m = sentences_of(t, scan_spans(t, w, 0))[i];
            (exists|k: int|
                0 <= k && k + w.len() <= m.len() && #[trigger] m.subrange(k, k + w.len() as int)
                    == w && term_free(m, 0, k)) && m.len() > 0 && is_word_char(m[0])
        }),
{
    lemma_scan_spans_wf(t, w, 0);
    lemma_scan_starts_word_char(t, w, 0, 0);
    let sp = scan_spans(t, w, 0)[i];
    let s = sp.0;
    let e = sp.1;
    let m = t.subrange(s, e);
    lemma_first_hit_props(t, w, s);
    let p = first_hit(t, w, s)->Some_0;
    lemma_first_term_props(t, p + w.len() as int);
    let q = first_term(t, p + w.len() as int);
    let k = p - s;
    assert(e == q + 1);
    assert(k + w.len() <= m.len());
    assert forall|d: int| 0 <= d < w.len() implies m.subrange(k, k + w.len() as int)[d]
        == w[d] by {
        assert(t.subrange(p, p + w.len() as int)[d] == w[d]);
    }
    assert(m.subrange(k, k + w.len() as int) =~= w);
    assert forall|j: int| 0 <= j < k implies !is_terminator(m[j]) by {
        assert(!is_terminator(t[s + j]));
    }
    assert(sentences_of(t, scan_spans(t, w, 0))[i] == m);
}

/// When the word itself holds no terminator, every returned sentence ends
/// with exactly one terminator and holds no other.
pub proof fn lemma_terminator_shape(t: Seq<char>, w: Seq<char>, i: int)
    requires
        forall|j: int| 0 <= j < w.len() ==> !is_terminator(w[j]),
        0 <= i < scan_spans(t, w, 0).len(),
    ensures
        ({
            let m = sentences_of(t, scan_spans(t, w, 0))[i];
            m.len() > 0 && is_terminator(m[m.len() - 1]) && term_free(m, 0, m.len() - 1)
        }),
{
    lemma_scan_spans_wf(t, w, 0);
    let sp = scan_spans(t, w, 0)[i];
    let s = sp.0;
    let e = sp.1;
    let m = t.subrange(s, e);
    lemma_first_hit_props(t, w, s);
    let p = first_hit(t, w, s)->Some_0;
    lemma_first_term_props(t, p + w.len() as int);
    let q = first_term(t, p + w.len() as int);
    assert(e == q + 1);
    assert(m[m.len() - 1] == t[q]);
    assert forall|j: int| 0 <= j < m.len() - 1 implies !is_terminator(m[j]) by {
        assert(m[j] == t[s + j]);
        if s + j < p {
            assert(!is_terminator(t[s + j]));
        } else if s + j < p + w.len() {
            assert(t.subrange(p, p + w.len() as int)[s + j - p] == w[s + j - p]);
            assert(!is_terminator(w[s + j - p]));
        } else {
            assert(!is_terminator(t[s + j]));
        }
    }
    assert(sentences_of(t, scan_spans(t, w, 0))[i] == m);
}

/// A word that occurs nowhere in the text yields an empty scan, and so an
/// empty sentence list.
pub proof fn lemma_no_occurrence_empty(t: Seq<char>, w: Seq<char>)
    requires
        forall|p: int| !occurs_at(t, w, p),
    ensures
        scan_spans(t, w, 0).len() == 0,
        sentences_of(t, scan_spans(t, w, 0)) =~= Seq::<Seq<char>>::empty(),
{
    lemma_no_occurrence_empty_from(t, w, 0);
}

/// A match could start at `s` if a boundary were there: the word is
/// reachable without crossing a terminator, and a terminator follows it.
spec fn reachable(t: Seq<char>, w: Seq<char>, s: int) -> bool {
    match first_hit(t, w, s) {
        Some(p) => first_term(t, p + w.len() as int) < t.len(),
        None => false,
    }
}

/// Reachability extends one step to the left over a non-terminator.
proof fn lemma_reachable_left(t: Seq<char>, w: Seq<char>, j: int)
    requires
        0 <= j < t.len(),
        !is_terminator(t[j]),
        reachable(t, w, j + 1),
    ensures
        reachable(t, w, j),
{
    lemma_first_hit_props(t, w, j + 1);
    let p1 = first_hit(t, w, j + 1)->Some_0;
    lemma_first_term_props(t, p1 + w.len() as int);
    let q1 = first_term(t, p1 + w.len() as int);
    if occurs_at(t, w, j) {
        lemma_first_term_props(t, j + w.len() as int);
        assert(first_term(t, j + w.len() as int) <= q1);
    } else {
        assert(first_hit(t, w, j) == first_hit(t, w, j + 1));
    }
}

/// Walking left over word constituents from a reachable position hits a
/// position where a match can start, no earlier than the enclosing sentence
/// start (the text start or a position right after a terminator).
proof fn lemma_walk_left(t: Seq<char>, w: Seq<char>, r: int, j: int)
    requires
        0 <= r <= j < t.len(),
        r == 0 || is_terminator(t[r - 1]),
        is_word_char(t[j]),
        reachable(t, w, j),
    ensures
        exists|s2: int| r <= s2 <= j && #[trigger] match_at(t, w, s2),
    decreases j - r,
{
    if match_at(t, w, j) {
    } else {
        assert(!is_boundary(t, j));
        assert(0 < j && is_word_char(t[j - 1]));
        if j == r {
            if r > 0 {
                lemma_word_char_not_terminator(t[r - 1]);
            }
            assert(false);
        } else {
            lemma_word_char_not_terminator(t[j - 1]);
            lemma_reachable_left(t, w, j - 1);
            lemma_walk_left(t, w, r, j - 1);
        }
    }
}

/// The earliest position at or after a sentence start (the text start or a
/// position right after a terminator) where a match can start is a word
/// constituent.
proof fn lemma_least_match_word_char(t: Seq<char>, w: Seq<char>, r: int, s: int)
    requires
        0 <= r <= s < t.len(),
        r == 0 || is_terminator(t[r - 1]),
        match_at(t, w, s),
        forall|s2: int| r <= s2 < s ==> !match_at(t, w, s2),
    ensures
        is_word_char(t[s]),
{
    if !is_word_char(t[s]) {
        assert(is_boundary(t, s));
        assert(0 < s && is_word_char(t[s - 1]));
        if s == r {
            if r > 0 {
                lemma_word_char_not_terminator(t[r - 1]);
            }
            assert(false);
        } else {
            lemma_word_char_not_terminator(t[s - 1]);
            lemma_reachable_left(t, w, s - 1);
            lemma_walk_left(t, w, r, s - 1);
            assert(false);
        }
    }
}

/// Every span of the scan starts on a word constituent, provided the scan
/// was started at the text start or right after a terminator.
proof fn lemma_scan_starts_word_char(t: Seq<char>, w: Seq<char>, r0: int, r: int)
    requires
        0 <= r0 <= r <= t.len(),
        r0 == 0 || is_terminator(t[r0 - 1]),
        forall|s2: int| r0 <= s2 < r ==> !match_at(t, w, s2),
    ensures
        forall|i: int|
            0 <= i < scan_spans(t, w, r).len() ==> is_word_char(
                t[(#[trigger] scan_spans(t, w, r)[i]).0],
            ),
    decreases t.len() - r,
{
    if r >= t.len() {
    } else if match_at(t, w, r) {
        lemma_least_match_word_char(t, w, r0, r);
        lemma_match_end_bounds(t, w, r);
        let e = match_end(t, w, r);
        lemma_first_hit_props(t, w, r);
        let p = first_hit(t, w, r)->Some_0;
        lemma_first_term_props(t, p + w.len() as int);
        assert(is_terminator(t[e - 1]));
        lemma_scan_starts_word_char(t, w, e, e);
        let rest = scan_spans(t, w, e);
        let whole = scan_spans(t, w, r);
        assert(whole =~= seq![(r, e)] + rest);
        assert forall|i: int| 0 <= i < whole.len() implies is_word_char(
            t[(#[trigger] whole[i]).0],
        ) by {
            if i > 0 {
                assert(whole[i] == rest[i - 1]);
            }
        }
    } else {
        lemma_scan_starts_word_char(t, w, r0, r + 1);
        assert(scan_spans(t, w, r) == scan_spans(t, w, r + 1));
        assert forall|i: int| 0 <= i < scan_spans(t, w, r).len() implies is_word_char(
            t[(#[trigger] scan_spans(t, w, r)[i]).0],
        ) by {
            assert(scan_spans(t, w, r)[i] == scan_spans(t, w, r + 1)[i]);
        }
    }
}

/// Scanning a returned sentence again with the same word yields exactly that
/// sentence as the sole match.
pub proof fn lemma_rescan(t: Seq<char>, w: Seq<char>, i: int)
    requires
        0 <= i < scan_spans(t, w, 0).len(),
    ensures
        ({
            let sp = scan_spans(t, w, 0)[i];
            let m = t.subrange(sp.0, sp.1);
            scan_spans(m, w, 0) =~= seq![(0int, m.len() as int)]
                && sentences_of(m, scan_spans(m, w, 0)) =~= seq![m]
        }),
{
    lemma_scan_spans_wf(t, w, 0);
    lemma_scan_starts_word_char(t, w, 0, 0);
    let sp = scan_spans(t, w, 0)[i];
    let s = sp.0;
    let e = sp.1;
    let m = t.subrange(s, e);
    lemma_first_hit_props(t, w, s);
    let p = first_hit(t, w, s)->Some_0;
    lemma_first_term_props(t, p + w.len() as int);
    let q = first_term(t, p + w.len() as int);
    assert(e == q + 1);
    let k = p - s;

    // The word occurs in `m` at `k`, and nowhere earlier.
    assert forall|d: int| 0 <= d < w.len() implies m.subrange(k, k + w.len() as int)[d]
        == w[d] by {
        assert(t.subrange(p, p + w.len() as int)[d] == w[d]);
    }
    assert(m.subrange(k, k + w.len() as int) =~= w);
    assert(occurs_at(m, w, k));
    assert forall|j: int| 0 <= j < k implies !occurs_at(m, w, j) by {
        if occurs_at(m, w, j) {
            assert forall|d: int| 0 <= d < w.len() implies t.subrange(
                s + j,
                s + j + w.len() as int,
            )[d] == w[d] by {
                assert(m.subrange(j, j + w.len() as int)[d] == w[d]);
                assert(m[j + d] == t[s + j + d]);
            }
            assert(t.subrange(s + j, s + j + w.len() as int) =~= w);
            assert(occurs_at(t, w, s + j));
        }
    }
    assert forall|j: int| 0 <= j < k implies !is_terminator(m[j]) by {
        assert(m[j] == t[s + j]);
    }
    lemma_first_hit_unique(m, w, 0, k);

    // The first terminator of `m` after the occurrence is its last character.
    assert forall|j: int| k + w.len() <= j < m.len() - 1 implies !is_terminator(m[j]) by {
        assert(m[j] == t[s + j]);
    }
    assert(m[m.len() - 1] == t[q]);
    lemma_first_term_unique(m, k + w.len() as int, m.len() - 1);

    // Position 0 of `m` is a word boundary, so the whole of `m` is matched.
    assert(is_word_char(t[s]));
    assert(m[0] == t[s]);
    assert(is_boundary(m, 0));
    assert(match_at(m, w, 0));
    assert(match_end(m, w, 0) == m.len());
    lemma_match_end_bounds(m, w, 0);
    assert(scan_spans(m, w, m.len() as int) =~= Seq::<(int, int)>::empty());
    assert(scan_spans(m, w, 0) =~= seq![(0int, m.len() as int)]);
    assert(m.subrange(0, m.len() as int) =~= m);
    assert(sentences_of(m, scan_spans(m, w, 0)) =~= seq![m]);
}

proof fn lemma_no_occurrence_empty_from(t: Seq<char>, w: Seq<char>, r: int)
    requires
        0 <= r <= t.len(),
        forall|p: int| !occurs_at(t, w, p),
    ensures
        scan_spans(t, w, r).len() == 0,
    decreases t.len() - r,
{
    if r < t.len() {
        crate::scan::lemma_first_hit_props(t, w, r);
        lemma_no_occurrence_empty_from(t, w, r + 1);
    }
}

} // verus!
