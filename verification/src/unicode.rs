//! What Unicode says of strings and chars, as the outside crates and the standard
//! library compute it.

use unicode_segmentation::UnicodeSegmentation;
use unicode_width::UnicodeWidthStr;
use vstd::prelude::*;

verus! {

/// The extended grapheme clusters of a string, in order.
pub uninterp spec fn grapheme_clusters(s: Seq<char>) -> Seq<Seq<char>>;

/// The number of columns that a string takes on a terminal.
pub uninterp spec fn display_width(s: Seq<char>) -> usize;

/// Whether Unicode counts a char as a letter or a number.
pub uninterp spec fn alphanumeric(c: char) -> bool;

/// The chars of each string.
pub open spec fn texts(strings: Seq<String>) -> Seq<Seq<char>> {
    Seq::new(strings.len(), |i: int| strings[i]@)
}

/// The strings that end a line: a line feed, alone or behind a carriage return.
pub open spec fn is_line_ending(g: Seq<char>) -> bool {
    g == seq!['\n'] || g == seq!['\r', '\n']
}

/// Whether the chars are ASCII.
pub open spec fn ascii(chars: Seq<char>) -> bool {
    forall|i: int| 0 <= i < chars.len() ==> #[trigger] chars[i] <= '\u{7F}'
}

/// What holds of the pieces that a text is cut into: none is empty, a line feed
/// stands in a piece of its own, but for a carriage return before it, and so does
/// an ASCII char, where only ASCII chars are near.
pub open spec fn well_segmented(pieces: Seq<Seq<char>>) -> bool {
    &&& forall|i: int| 0 <= i < pieces.len() ==> #[trigger] pieces[i].len() > 0
    &&& forall|i: int|
        0 <= i < pieces.len() && #[trigger] pieces[i].contains('\n') ==> is_line_ending(pieces[i])
    &&& forall|i: int|
        0 <= i < pieces.len() && #[trigger] ascii(pieces[i]) && pieces[i].len() > 1
            ==> is_line_ending(pieces[i])
}

/// `UnicodeSegmentation::graphemes` with extended clusters. The clusters make up
/// the string, none is empty, and a cluster that holds a line feed, or more than
/// one char and only ASCII ones, is a line ending (a cluster ends before and behind
/// a control char, and between two ASCII chars, except between a carriage return
/// and a line feed). Where else they end is left to the name.
#[verifier::external_body]
pub(crate) fn graphemes(s: &str) -> (clusters: Vec<String>)
    ensures
        texts(clusters@) == grapheme_clusters(s@),
        texts(clusters@).flatten() == s@,
        well_segmented(texts(clusters@)),
{
    s.graphemes(true).map(String::from).collect()
}

/// `UnicodeWidthStr::width`.
#[verifier::external_body]
pub(crate) fn width(s: &str) -> (columns: usize)
    ensures
        columns == display_width(s@),
{
    UnicodeWidthStr::width(s)
}

/// `char::is_alphanumeric`.
pub assume_specification[ char::is_alphanumeric ](c: char) -> (b: bool)
    ensures
        b == alphanumeric(c),
;

} // verus!
