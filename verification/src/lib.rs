//! Sentence search: extract from a text every sentence-like span that
//! contains a target word.
//!
//! A sentence span runs from a word boundary to the nearest following
//! terminator (`.`, `!`, `?`). The scan is left to right and non-overlapping:
//! each match starts at the earliest position from which the word can be
//! reached without crossing a terminator, and ends at the first terminator
//! after the word occurrence.
//!
//! Matching is literal and case-sensitive. A word containing an active
//! pattern metacharacter (such as `(` or `*`) is rejected with
//! [`SearchError::PatternBuildFailure`] rather than reinterpreted, so a
//! successful search always means the word was matched character for
//! character.

use vstd::prelude::*;

pub mod chars;
pub mod laws;
pub mod matcher;
pub mod scan;

use crate::matcher::{check_word, find_spans};
use crate::scan::{scan_spans, sentences_of, word_ok};
use vstd::string::StrSliceExecFns;

verus! {

/// The one failure of a search: the word cannot be compiled into a search
/// pattern because it contains an active pattern metacharacter.
#[derive(Debug, PartialEq, Eq)]
pub enum SearchError {
    PatternBuildFailure(String),
}

impl SearchError {
    /// The human-readable detail of the failure.
    pub fn message(&self) -> (m: &str)
        ensures
            self matches SearchError::PatternBuildFailure(d) && m@ == d@,
    {
        match self {
            SearchError::PatternBuildFailure(d) => d.as_str(),
        }
    }
}

/// The characters of `s`, in order.
fn str_chars(s: &str) -> (v: Vec<char>)
    ensures
        v@ == s@,
{
    let n = s.unicode_len();
    let mut v: Vec<char> = Vec::new();
    let mut i: usize = 0;
    while i < n
        invariant
            0 <= i <= n,
            n == s@.len(),
            v@ == s@.subrange(0, i as int),
        decreases n - i,
    {
        let c = s.get_char(i);
        v.push(c);
        proof {
            assert(v@ =~= s@.subrange(0, i + 1));
        }
        i = i + 1;
    }
    proof {
        assert(s@.subrange(0, s@.len() as int) =~= s@);
    }
    v
}

/// Every sentence of `text` that contains `word`, in left-to-right order of
/// occurrence, duplicates preserved; the empty list when the word does not
/// occur. Fails, and only fails, when `word` holds a pattern metacharacter.
pub fn find_sentences(word: &str, text: &str) -> (r: Result<Vec<String>, SearchError>)
    ensures
        word_ok(word@) ==> (r matches Ok(ms) && ms.deep_view() == sentences_of(
            text@,
            scan_spans(text@, word@, 0),
        )),
        !word_ok(word@) ==> (r matches Err(e) && e matches SearchError::PatternBuildFailure(d)
            && d@ == "word contains a pattern metacharacter"@),
{
    let wv = str_chars(word);
    if !check_word(&wv) {
        return Err(
            SearchError::PatternBuildFailure("word contains a pattern metacharacter".to_owned()),
        );
    }
    let tv = str_chars(text);
    let spans = find_spans(&tv, &wv);
    proof {
        crate::scan::lemma_scan_spans_wf(text@, word@, 0);
    }
    let ghost sentences = sentences_of(text@, scan_spans(text@, word@, 0));
    let mut out: Vec<String> = Vec::new();
    let mut i: usize = 0;
    proof {
        assert(out.deep_view() =~= sentences.subrange(0, 0));
    }
    while i < spans.len()
        invariant
            0 <= i <= spans@.len(),
            spans@.len() == scan_spans(text@, word@, 0).len(),
            forall|k: int|
                0 <= k < spans@.len() ==> (#[trigger] spans@[k]).0 == scan_spans(
                    text@,
                    word@,
                    0,
                )[k].0 && spans@[k].1 == scan_spans(text@, word@, 0)[k].1,
            forall|k: int|
                0 <= k < spans@.len() ==> 0 <= (#[trigger] scan_spans(text@, word@, 0)[k]).0 < scan_spans(
                    text@,
                    word@,
                    0,
                )[k].1 <= text@.len(),
            sentences == sentences_of(text@, scan_spans(text@, word@, 0)),
            out.deep_view() == sentences.subrange(0, i as int),
        decreases spans@.len() - i,
    {
        let (a, b) = spans[i];
        proof {
            assert(sentences.len() == spans@.len());
            assert(out.deep_view().len() == i as int);
            assert(out@.len() == i);
        }
        let ghost pre = out@;
        let m = text.substring_char(a, b).to_owned();
        out.push(m);
        proof {
            assert(sentences[i as int] == text@.subrange(
                scan_spans(text@, word@, 0)[i as int].0,
                scan_spans(text@, word@, 0)[i as int].1,
            ));
            assert(out@ == pre.push(m));
            assert forall|k: int| 0 <= k <= i implies #[trigger] out.deep_view()[k]
                == sentences.subrange(0, i + 1)[k] by {
                assert(out.deep_view()[k] == out@[k]@);
                if k < i {
                    assert(out@[k] == pre[k]);
                    assert(sentences.subrange(0, i as int)[k] == pre[k].deep_view());
                } else {
                    assert(out@[k] == m);
                }
            }
            assert(out.deep_view() =~= sentences.subrange(0, i + 1));
        }
        i = i + 1;
    }
    proof {
        assert(sentences.subrange(0, sentences.len() as int) =~= sentences);
    }
    Ok(out)
}

/// `find_sentences` with the failure turned into the error string the search
/// interface hands to its callers.
pub fn word_search(word: &str, text: &str) -> (r: Result<Vec<String>, String>)
    ensures
        word_ok(word@) ==> (r matches Ok(ms) && ms.deep_view() == sentences_of(
            text@,
            scan_spans(text@, word@, 0),
        )),
        !word_ok(word@) ==> (r matches Err(e) && e@
            == "Regex error : word contains a pattern metacharacter"@),
{
    match find_sentences(word, text) {
        Ok(ms) => Ok(ms),
        Err(SearchError::PatternBuildFailure(_d)) => Err(
            "Regex error : word contains a pattern metacharacter".to_owned(),
        ),
    }
}

} // verus!
