//! The executable sentence matcher, verified against the model in `scan`.

use vstd::prelude::*;

use crate::chars::{metachar, terminator, word_char};
use crate::scan::{
    first_hit, first_term, is_boundary, match_at, match_end, occurs_at, scan_spans, word_ok,
};

verus! {

/// Whether `w` is free of pattern metacharacters, i.e. may be searched for.
pub fn check_word(w: &Vec<char>) -> (b: bool)
    ensures
        b == word_ok(w@),
{
    let mut i: usize = 0;
    while i < w.len()
        invariant
            0 <= i <= w@.len(),
            forall|j: int| 0 <= j < i ==> !crate::chars::is_metachar(w@[j]),
        decreases w@.len() - i,
    {
        if metachar(w[i]) {
            return false;
        }
        i = i + 1;
    }
    true
}

/// Whether `w` occurs in `t` at position `p`.
fn occurs_check(t: &Vec<char>, w: &Vec<char>, p: usize) -> (b: bool)
    requires
        p <= t@.len(),
    ensures
        b == occurs_at(t@, w@, p as int),
{
    if t.len() - p < w.len() {
        return false;
    }
    let mut j: usize = 0;
    while j < w.len()
        invariant
            0 <= j <= w@.len(),
            p + w@.len() <= t@.len(),
            forall|k: int| 0 <= k < j ==> t@[p + k] == w@[k],
        decreases w@.len() - j,
    {
        assert(p + j < t.len());
        if t[p + j] != w[j] {
            assert(t@.subrange(p as int, p + w@.len() as int)[j as int] != w@[j as int]);
            return false;
        }
        j = j + 1;
    }
    assert(t@.subrange(p as int, p + w@.len() as int) =~= w@);
    true
}

/// Whether position `i` of `t` is a word boundary.
fn boundary_check(t: &Vec<char>, i: usize) -> (b: bool)
    requires
        i <= t@.len(),
    ensures
        b == is_boundary(t@, i as int),
{
    let before: bool = if i > 0 {
        word_char(t[i - 1])
    } else {
        false
    };
    let after: bool = if i < t.len() {
        word_char(t[i])
    } else {
        false
    };
    before != after
}

/// The first position at or after `from` holding a terminator, `t.len()` if
/// there is none.
fn find_first_term(t: &Vec<char>, from: usize) -> (r: usize)
    requires
        from <= t@.len(),
    ensures
        r == first_term(t@, from as int),
{
    let mut i: usize = from;
    while i < t.len()
        invariant
            from <= i <= t@.len(),
            first_term(t@, from as int) == first_term(t@, i as int),
        decreases t@.len() - i,
    {
        if terminator(t[i]) {
            return i;
        }
        i = i + 1;
    }
    i
}

/// The earliest occurrence of `w` at or after `from` reachable without
/// crossing a terminator, `None` if a terminator or the text end comes first.
fn find_first_hit(t: &Vec<char>, w: &Vec<char>, from: usize) -> (r: Option<usize>)
    requires
        from <= t@.len(),
    ensures
        match r {
            Some(p) => first_hit(t@, w@, from as int) == Some(p as int),
            None => first_hit(t@, w@, from as int) is None,
        },
{
    let mut i: usize = from;
    while i < t.len()
        invariant
            from <= i <= t@.len(),
            first_hit(t@, w@, from as int) == first_hit(t@, w@, i as int),
        decreases t@.len() - i,
    {
        if occurs_check(t, w, i) {
            return Some(i);
        }
        if terminator(t[i]) {
            return None;
        }
        i = i + 1;
    }
    if occurs_check(t, w, i) {
        Some(i)
    } else {
        None
    }
}

/// One step of the scan: whether a match can start at `s`, and if so where it
/// ends (exclusive).
fn match_check(t: &Vec<char>, w: &Vec<char>, s: usize) -> (r: Option<usize>)
    requires
        s <= t@.len(),
    ensures
        match r {
            Some(e) => match_at(t@, w@, s as int) && e == match_end(t@, w@, s as int) && s < e
                <= t@.len(),
            None => !match_at(t@, w@, s as int),
        },
{
    if !boundary_check(t, s) {
        return None;
    }
    match find_first_hit(t, w, s) {
        None => None,
        Some(p) => {
            proof {
                crate::scan::lemma_first_hit_props(t@, w@, s as int);
                assert(occurs_at(t@, w@, p as int));
                assert(p + w.len() <= t.len());
            }
            let q = find_first_term(t, p + w.len());
            if q < t.len() {
                proof {
                    crate::scan::lemma_match_end_bounds(t@, w@, s as int);
                }
                Some(q + 1)
            } else {
                None
            }
        },
    }
}

/// All match spans of `w` in `t`, in scan order.
pub fn find_spans(t: &Vec<char>, w: &Vec<char>) -> (spans: Vec<(usize, usize)>)
    ensures
        spans@.len() == scan_spans(t@, w@, 0).len(),
        forall|i: int|
            0 <= i < spans@.len() ==> (#[trigger] spans@[i]).0 == scan_spans(t@, w@, 0)[i].0
                && spans@[i].1 == scan_spans(t@, w@, 0)[i].1,
{
    let mut spans: Vec<(usize, usize)> = Vec::new();
    let mut r: usize = 0;
    while r < t.len()
        invariant
            0 <= r <= t@.len(),
            scan_spans(t@, w@, 0) =~= spans@.map_values(
                |sp: (usize, usize)| (sp.0 as int, sp.1 as int),
            ) + scan_spans(t@, w@, r as int),
        decreases t@.len() - r,
    {
        match match_check(t, w, r) {
            Some(e) => {
                let ghost old_spans = spans@;
                spans.push((r, e));
                proof {
                    assert(spans@.map_values(|sp: (usize, usize)| (sp.0 as int, sp.1 as int))
                        =~= old_spans.map_values(|sp: (usize, usize)| (sp.0 as int, sp.1 as int))
                        + seq![(r as int, e as int)]);
                }
                r = e;
            },
            None => {
                r = r + 1;
            },
        }
    }
    proof {
        assert(scan_spans(t@, w@, 0) =~= spans@.map_values(
            |sp: (usize, usize)| (sp.0 as int, sp.1 as int),
        ));
        assert forall|i: int| 0 <= i < spans@.len() implies (#[trigger] spans@[i]).0 == scan_spans(
            t@,
            w@,
            0,
        )[i].0 && spans@[i].1 == scan_spans(t@, w@, 0)[i].1 by {
            assert(scan_spans(t@, w@, 0)[i] == spans@.map_values(
                |sp: (usize, usize)| (sp.0 as int, sp.1 as int),
            )[i]);
        }
    }
    spans
}

} // verus!
