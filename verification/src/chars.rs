//! Classes of chars.

use crate::rope::newlines;
use crate::unicode::alphanumeric;
use vstd::prelude::*;

verus! {

/// The chars that take room without showing anything, line breaks left aside.
pub open spec fn whitespace(c: char) -> bool {
    ||| c == '\t'
    ||| c == ' '
    ||| c == '\u{00A0}'
    ||| c == '\u{180E}'
    ||| '\u{2000}' <= c <= '\u{200B}'
    ||| c == '\u{202F}'
    ||| c == '\u{205F}'
    ||| c == '\u{3000}'
    ||| c == '\u{FEFF}'
}

/// The chars that words are made of: letters, numbers and the underscore.
pub open spec fn word_char(c: char) -> bool {
    if c <= '\u{7F}' {
        'a' <= c <= 'z' || 'A' <= c <= 'Z' || '0' <= c <= '9' || c == '_'
    } else {
        alphanumeric(c)
    }
}

/// Whether `s` holds nothing but whitespace.
pub open spec fn only_whitespace(s: Seq<char>) -> bool {
    forall|i: int| 0 <= i < s.len() ==> whitespace(#[trigger] s[i])
}

/// Whether `s` holds nothing but the chars of words.
pub open spec fn only_word_chars(s: Seq<char>) -> bool {
    forall|i: int| 0 <= i < s.len() ==> word_char(#[trigger] s[i])
}

/// Whether `c` is whitespace.
pub fn char_is_whitespace(c: char) -> (b: bool)
    ensures
        b == whitespace(c),
{
    c == '\t' || c == ' ' || c == '\u{00A0}' || c == '\u{180E}' || ('\u{2000}' <= c && c
        <= '\u{200B}') || c == '\u{202F}' || c == '\u{205F}' || c == '\u{3000}' || c == '\u{FEFF}'
}

/// Whether `c` can be part of a word.
pub fn char_is_word(c: char) -> (b: bool)
    ensures
        b == word_char(c),
{
    if c <= '\u{7F}' {
        ('a' <= c && c <= 'z') || ('A' <= c && c <= 'Z') || ('0' <= c && c <= '9') || c == '_'
    } else {
        c.is_alphanumeric()
    }
}

/// Whether every char of `s` is whitespace.
pub fn all_whitespace(s: &str) -> (b: bool)
    ensures
        b == only_whitespace(s@),
{
    for c in it: s.chars()
        invariant
            it.seq() == s@,
            forall|i: int| 0 <= i < it.index() ==> whitespace(#[trigger] s@[i]),
    {
        if !char_is_whitespace(c) {
            assert(!whitespace(s@[it.index()]));
            return false;
        }
    }
    true
}

/// Whether every char of `s` can be part of a word.
pub fn all_word(s: &str) -> (b: bool)
    ensures
        b == only_word_chars(s@),
{
    for c in it: s.chars()
        invariant
            it.seq() == s@,
            forall|i: int| 0 <= i < it.index() ==> word_char(#[trigger] s@[i]),
    {
        if !char_is_word(c) {
            assert(!word_char(s@[it.index()]));
            return false;
        }
    }
    true
}

/// How many chars `s` holds, and how many line feeds.
pub fn count_chars(s: &str) -> (counts: (usize, usize))
    ensures
        counts.0 == s@.len(),
        counts.1 == newlines(s@),
        counts.1 <= counts.0,
{
    let len: usize = s.unicode_len();
    let mut lines: usize = 0;
    assert(s@.take(0) =~= Seq::<char>::empty());
    for c in it: s.chars()
        invariant
            it.seq() == s@,
            len == s@.len(),
            lines == newlines(s@.take(it.index() as int)),
            lines <= it.index() <= len,
    {
        assert(s@.take(it.index() + 1).drop_last() =~= s@.take(it.index() as int));
        if c == '\n' {
            lines += 1;
        }
    }
    assert(s@.take(len as int) =~= s@);
    (len, lines)
}

} // verus!
