//! Character classes that drive the sentence matcher: terminators, word
//! constituents, and the pattern metacharacters that a search word must not
//! contain.

use vstd::prelude::*;

verus! {

/// A sentence terminator: one of `.`, `!`, `?`.
pub open spec fn is_terminator(c: char) -> bool {
    c == '.' || c == '!' || c == '?'
}

/// A word-constituent character: ASCII letter, ASCII digit, or `_`.
/// Word boundaries are defined between a word constituent and anything else.
pub open spec fn is_word_char(c: char) -> bool {
    (97 <= c as u32 && c as u32 <= 122)  // 'a' ..= 'z'
    || (65 <= c as u32 && c as u32 <= 90)  // 'A' ..= 'Z'
    || (48 <= c as u32 && c as u32 <= 57)  // '0' ..= '9'
    || c == '_'
}

/// A character that is an active metacharacter of the pattern dialect the
/// search word is written in. A word containing one of these is rejected
/// rather than reinterpreted, so matching is always literal.
pub open spec fn is_metachar(c: char) -> bool {
    c == '(' || c == ')' || c == '*' || c == '+' || c == '[' || c == ']'
    || c == '{' || c == '}' || c == '^' || c == '$' || c == '|' || c == '\\'
    || c == '.' || c == '?'
}

/// A word constituent is never a sentence terminator.
pub proof fn lemma_word_char_not_terminator(c: char)
    ensures
        is_word_char(c) ==> !is_terminator(c),
{
}

pub fn terminator(c: char) -> (b: bool)
    ensures
        b == is_terminator(c),
{
    c == '.' || c == '!' || c == '?'
}

pub fn word_char(c: char) -> (b: bool)
    ensures
        b == is_word_char(c),
{
    let u = c as u32;
    (97 <= u && u <= 122) || (65 <= u && u <= 90) || (48 <= u && u <= 57) || c == '_'
}

pub fn metachar(c: char) -> (b: bool)
    ensures
        b == is_metachar(c),
{
    c == '(' || c == ')' || c == '*' || c == '+' || c == '[' || c == ']'
    || c == '{' || c == '}' || c == '^' || c == '$' || c == '|' || c == '\\'
    || c == '.' || c == '?'
}

} // verus!
