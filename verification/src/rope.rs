//! The document text is a slice of a `ropey` rope. This module says what the
//! crate relies on of it, and what a line of the document is: `ropey` is built
//! without its optional line breaks, so a line ends after a line feed and
//! nowhere else (a carriage return before the line feed belongs to the line).

use ropey::RopeSlice;
use vstd::prelude::*;

verus! {

/// `ropey::RopeSlice`, of which only the chars are known here.
#[verifier::external_type_specification]
#[verifier::external_body]
pub struct ExRopeSlice<'a>(RopeSlice<'a>);

/// The chars of a slice of a rope, in order.
pub uninterp spec fn rope_chars(text: RopeSlice<'_>) -> Seq<char>;

/// How many line feeds `chars` holds.
pub open spec fn newlines(chars: Seq<char>) -> nat
    decreases chars.len(),
{
    if chars.len() == 0 {
        0
    } else {
        newlines(chars.drop_last()) + if chars.last() == '\n' {
            1nat
        } else {
            0nat
        }
    }
}

/// Whether `start` is where line `line` of `chars` begins: the lines before it
/// are complete, and the last of them ends right there.
pub open spec fn is_line_start(chars: Seq<char>, line: int, start: int) -> bool {
    &&& 0 <= start <= chars.len()
    &&& newlines(chars.take(start)) == line
    &&& start > 0 ==> chars[start - 1] == '\n'
}

/// `RopeSlice::len_chars`: the number of chars of the slice.
pub assume_specification<'a>[ RopeSlice::<'a>::len_chars ](text: &RopeSlice<'a>) -> (n: usize)
    ensures
        n == rope_chars(*text).len(),
;

/// `RopeSlice::len_lines`: one more than the number of line breaks.
pub assume_specification<'a>[ RopeSlice::<'a>::len_lines ](text: &RopeSlice<'a>) -> (n: usize)
    ensures
        n == newlines(rope_chars(*text)) + 1,
;

/// `RopeSlice::char`: the char at an index. It panics past the end.
pub assume_specification<'a>[ RopeSlice::<'a>::char ](
    text: &RopeSlice<'a>,
    char_idx: usize,
) -> (c: char)
    requires
        char_idx < rope_chars(*text).len(),
    ensures
        c == rope_chars(*text)[char_idx as int],
;

/// `RopeSlice::char_to_line`: the number of line breaks before a char. The index
/// may be one past the end; it panics further out.
pub assume_specification<'a>[ RopeSlice::<'a>::char_to_line ](
    text: &RopeSlice<'a>,
    char_idx: usize,
) -> (line: usize)
    requires
        char_idx <= rope_chars(*text).len(),
    ensures
        line == newlines(rope_chars(*text).take(char_idx as int)),
;

/// `RopeSlice::line_to_char`: where a line begins, and the end of the text for
/// the line after the last one. It panics further out.
pub assume_specification<'a>[ RopeSlice::<'a>::line_to_char ](
    text: &RopeSlice<'a>,
    line_idx: usize,
) -> (start: usize)
    requires
        line_idx <= newlines(rope_chars(*text)) + 1,
    ensures
        line_idx <= newlines(rope_chars(*text)) ==> is_line_start(
            rope_chars(*text),
            line_idx as int,
            start as int,
        ),
        line_idx == newlines(rope_chars(*text)) + 1 ==> start == rope_chars(*text).len(),
;

/// `RopeSlice::slice` with an open end: the chars from `from` on. It panics if
/// `from` is past the end.
#[verifier::external_body]
pub(crate) fn slice_from<'a>(text: RopeSlice<'a>, from: usize) -> (rest: RopeSlice<'a>)
    requires
        from <= rope_chars(text).len(),
    ensures
        rope_chars(rest) == rope_chars(text).skip(from as int),
{
    text.slice(from..)
}

/// `String::from` for a `RopeSlice`: the chars of the slice as one string.
#[verifier::external_body]
pub(crate) fn slice_to_string(text: RopeSlice<'_>) -> (s: String)
    ensures
        s@ == rope_chars(text),
{
    String::from(text)
}

/// The line feeds of a concatenation are those of its parts.
pub proof fn lemma_newlines_add(a: Seq<char>, b: Seq<char>)
    ensures
        newlines(a + b) == newlines(a) + newlines(b),
    decreases b.len(),
{
    if b.len() == 0 {
        assert(a + b =~= a);
    } else {
        assert((a + b).drop_last() =~= a + b.drop_last());
        lemma_newlines_add(a, b.drop_last());
    }
}

/// A longer prefix holds at least as many line feeds.
pub proof fn lemma_newlines_monotone(chars: Seq<char>, i: int, j: int)
    requires
        0 <= i <= j <= chars.len(),
    ensures
        newlines(chars.take(i)) <= newlines(chars.take(j)),
        newlines(chars.take(j)) == newlines(chars.take(i)) + newlines(chars.subrange(i, j)),
{
    assert(chars.take(j) =~= chars.take(i) + chars.subrange(i, j));
    lemma_newlines_add(chars.take(i), chars.subrange(i, j));
}

/// A line begins in one place only.
pub proof fn lemma_line_start_unique(chars: Seq<char>, line: int, a: int, b: int)
    requires
        is_line_start(chars, line, a),
        is_line_start(chars, line, b),
    ensures
        a == b,
{
    if a < b {
        lemma_newlines_monotone(chars, a, b - 1);
        assert(chars.take(b).drop_last() =~= chars.take(b - 1));
    } else if b < a {
        lemma_newlines_monotone(chars, b, a - 1);
        assert(chars.take(a).drop_last() =~= chars.take(a - 1));
    }
}

} // verus!
