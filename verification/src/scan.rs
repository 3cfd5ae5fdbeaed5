//! The mathematical model of the sentence scan.
//!
//! A match starting at `s` exists when `s` lies on a word boundary and the
//! word can be reached from `s` without crossing a terminator, with some
//! terminator following the occurrence. The match runs from `s` to the first
//! terminator after the earliest such occurrence, terminator included. The
//! whole text is scanned left to right, non-overlapping: the earliest start
//! wins, and scanning resumes right after each match.

use vstd::prelude::*;

use crate::chars::{is_metachar, is_terminator, is_word_char};

verus! {

/// A word may be searched for only if it is free of pattern metacharacters;
/// otherwise pattern construction fails.
pub open spec fn word_ok(w: Seq<char>) -> bool {
    forall|i: int| 0 <= i < w.len() ==> !is_metachar(w[i])
}

/// No terminator occurs in `t` at the positions `from <= j < to`.
pub open spec fn term_free(t: Seq<char>, from: int, to: int) -> bool {
    forall|j: int| from <= j < to ==> !is_terminator(t[j])
}

/// The word `w` occurs in `t` starting at position `p`.
pub open spec fn occurs_at(t: Seq<char>, w: Seq<char>, p: int) -> bool {
    0 <= p && p + w.len() <= t.len() && t.subrange(p, p + w.len() as int) == w
}

/// Position `i` of `t` (`0 <= i <= t.len()`) is a word boundary: exactly one
/// of the two adjacent characters is a word constituent (a text edge counts
/// as a non-constituent side).
pub open spec fn is_boundary(t: Seq<char>, i: int) -> bool {
    let before = 0 < i <= t.len() && is_word_char(t[i - 1]);
    let after = 0 <= i < t.len() && is_word_char(t[i]);
    before != after
}

/// The first position at or after `from` holding a terminator; `t.len()` if
/// there is none.
pub open spec fn first_term(t: Seq<char>, from: int) -> int
    decreases t.len() - from
        when 0 <= from <= t.len()
{
    if from >= t.len() {
        t.len() as int
    } else if is_terminator(t[from]) {
        from
    } else {
        first_term(t, from + 1)
    }
}

/// The earliest occurrence of `w` at or after `from` that is reachable
/// without first crossing a terminator; `None` if a terminator (or the end of
/// the text) comes first. The occurrence itself is tested before the
/// terminator check, so a word may begin with a terminator character.
pub open spec fn first_hit(t: Seq<char>, w: Seq<char>, from: int) -> Option<int>
    decreases t.len() - from
        when 0 <= from <= t.len()
{
    if occurs_at(t, w, from) {
        Some(from)
    } else if from >= t.len() || is_terminator(t[from]) {
        None
    } else {
        first_hit(t, w, from + 1)
    }
}

/// A match can start at `s`: `s` is a word boundary, the word is reachable
/// from `s` without crossing a terminator, and a terminator follows the
/// occurrence.
pub open spec fn match_at(t: Seq<char>, w: Seq<char>, s: int) -> bool {
    is_boundary(t, s) && match first_hit(t, w, s) {
        Some(p) => first_term(t, p + w.len() as int) < t.len(),
        None => false,
    }
}

/// The end (exclusive) of the match starting at `s`: one past the first
/// terminator after the earliest reachable occurrence of the word.
pub open spec fn match_end(t: Seq<char>, w: Seq<char>, s: int) -> int {
    first_term(t, first_hit(t, w, s)->Some_0 + w.len() as int) + 1
}

/// `from <= first_term(t, from) <= t.len()`; the scanned prefix is
/// terminator-free; a result inside the text holds a terminator; and no
/// terminator at or after `from` lies before the result.
pub proof fn lemma_first_term_props(t: Seq<char>, from: int)
    requires
        0 <= from <= t.len(),
    ensures
        from <= first_term(t, from) <= t.len(),
        term_free(t, from, first_term(t, from)),
        first_term(t, from) < t.len() ==> is_terminator(t[first_term(t, from)]),
        forall|q: int| from <= q < t.len() && is_terminator(t[q]) ==> first_term(t, from) <= q,
    decreases t.len() - from,
{
    if from < t.len() && !is_terminator(t[from]) {
        lemma_first_term_props(t, from + 1);
    }
}

/// What `first_hit` returns: a hit is the earliest occurrence, reached over a
/// terminator-free prefix; `None` means every terminator-free extension from
/// `from` is occurrence-free.
pub proof fn lemma_first_hit_props(t: Seq<char>, w: Seq<char>, from: int)
    requires
        0 <= from <= t.len(),
    ensures
        match first_hit(t, w, from) {
            Some(p) => from <= p && occurs_at(t, w, p) && term_free(t, from, p)
                && (forall|p2: int| from <= p2 < p ==> !occurs_at(t, w, p2)),
            None => forall|p2: int|
                from <= p2 && term_free(t, from, p2) ==> !occurs_at(t, w, p2),
        },
    decreases t.len() - from,
{
    if occurs_at(t, w, from) {
    } else if from >= t.len() || is_terminator(t[from]) {
        assert forall|p2: int| from <= p2 && term_free(t, from, p2) implies !occurs_at(
            t,
            w,
            p2,
        ) by {
            if p2 > from {
                assert(!is_terminator(t[from]));
            }
        }
    } else {
        lemma_first_hit_props(t, w, from + 1);
    }
}

/// `first_term` is pinned down by its characterization: a terminator-free run
/// from `from` up to a terminator (or the text end) is the first terminator.
pub proof fn lemma_first_term_unique(t: Seq<char>, from: int, q: int)
    requires
        0 <= from <= q <= t.len(),
        term_free(t, from, q),
        q < t.len() ==> is_terminator(t[q]),
    ensures
        first_term(t, from) == q,
    decreases q - from,
{
    if from < q {
        lemma_first_term_unique(t, from + 1, q);
    }
}

/// `first_hit` is pinned down by its characterization: the earliest
/// occurrence over a terminator-free prefix is the hit.
pub proof fn lemma_first_hit_unique(t: Seq<char>, w: Seq<char>, from: int, p: int)
    requires
        0 <= from <= p,
        occurs_at(t, w, p),
        term_free(t, from, p),
        forall|p2: int| from <= p2 < p ==> !occurs_at(t, w, p2),
    ensures
        first_hit(t, w, from) == Some(p),
    decreases p - from,
{
    if from < p {
        assert(p + w.len() <= t.len());
        lemma_first_hit_unique(t, w, from + 1, p);
    }
}

/// A match that can start at `s` ends strictly after `s` and within the text.
pub proof fn lemma_match_end_bounds(t: Seq<char>, w: Seq<char>, s: int)
    requires
        0 <= s <= t.len(),
        match_at(t, w, s),
    ensures
        s < match_end(t, w, s) <= t.len(),
{
    let p = first_hit(t, w, s)->Some_0;
    lemma_first_hit_props(t, w, s);
    lemma_first_term_props(t, p + w.len() as int);
}

/// The non-overlapping left-to-right scan: the sequence of match spans
/// (start, end exclusive) found at or after `r`, earliest start first,
/// resuming after each match end.
pub open spec fn scan_spans(t: Seq<char>, w: Seq<char>, r: int) -> Seq<(int, int)>
    decreases t.len() - r
        when 0 <= r <= t.len()
{
    if r >= t.len() {
        Seq::empty()
    } else if match_at(t, w, r) {
        proof {
            lemma_match_end_bounds(t, w, r);
        }
        seq![(r, match_end(t, w, r))] + scan_spans(t, w, match_end(t, w, r))
    } else {
        scan_spans(t, w, r + 1)
    }
}

/// Every span of the scan is well formed: it starts at or after the resume
/// point, is non-empty, stays within the text, starts where a match can start
/// and ends where that match ends, and the spans do not overlap and come in
/// left-to-right order.
pub proof fn lemma_scan_spans_wf(t: Seq<char>, w: Seq<char>, r: int)
    requires
        0 <= r <= t.len(),
    ensures
        forall|i: int|
            0 <= i < scan_spans(t, w, r).len() ==> {
                let sp = #[trigger] scan_spans(t, w, r)[i];
                r <= sp.0 < sp.1 <= t.len() && match_at(t, w, sp.0) && sp.1 == match_end(
                    t,
                    w,
                    sp.0,
                )
            },
        forall|i: int, j: int|
            0 <= i < j < scan_spans(t, w, r).len() ==> (#[trigger] scan_spans(t, w, r)[i]).1 <= (
            #[trigger] scan_spans(t, w, r)[j]).0,
    decreases t.len() - r,
{
    if r >= t.len() {
    } else if match_at(t, w, r) {
        lemma_match_end_bounds(t, w, r);
        let e = match_end(t, w, r);
        lemma_scan_spans_wf(t, w, e);
        let rest = scan_spans(t, w, e);
        let whole = scan_spans(t, w, r);
        assert(whole =~= seq![(r, e)] + rest);
        assert forall|i: int| 0 <= i < whole.len() implies {
            let sp = #[trigger] whole[i];
            r <= sp.0 < sp.1 <= t.len() && match_at(t, w, sp.0) && sp.1 == match_end(t, w, sp.0)
        } by {
            if i > 0 {
                assert(whole[i] == rest[i - 1]);
            }
        }
        assert forall|i: int, j: int| 0 <= i < j < whole.len() implies (#[trigger] whole[i]).1 <= (
        #[trigger] whole[j]).0 by {
            assert(whole[j] == rest[j - 1]);
            if i > 0 {
                assert(whole[i] == rest[i - 1]);
            }
        }
    } else {
        lemma_scan_spans_wf(t, w, r + 1);
        assert(scan_spans(t, w, r) == scan_spans(t, w, r + 1));
        assert forall|i: int| 0 <= i < scan_spans(t, w, r).len() implies {
            let sp = #[trigger] scan_spans(t, w, r)[i];
            r <= sp.0 < sp.1 <= t.len() && match_at(t, w, sp.0) && sp.1 == match_end(t, w, sp.0)
        } by {
            assert(scan_spans(t, w, r)[i] == scan_spans(t, w, r + 1)[i]);
        }
    }
}

/// The matched sentences themselves: each span of `spans` cut out of `t`.
pub open spec fn sentences_of(t: Seq<char>, spans: Seq<(int, int)>) -> Seq<Seq<char>> {
    spans.map_values(|sp: (int, int)| t.subrange(sp.0, sp.1))
}

} // verus!
