//! What one step does to the screen, and what the line annotations hear of it.

use crate::formatted::GraphemeSource;
use crate::layout::{lemma_advance_frame, FormatterView};
use crate::position::Position;
use crate::reading::{lemma_fetch_tracks, lemma_place_tracks, lemma_ready_tracks, made_ready};
use crate::text_annotations::LineAnnotation;
use vstd::prelude::*;

verus! {

/// The law of the word at hand. Under soft wrap, a step that gives a grapheme first makes the
/// next word ready, if none is, and goes on from there.
pub proof fn law_step_goes_on_from_the_word<L: LineAnnotation>(s: FormatterView<L>)
    requires
        s.in_step(),
        s.fmt.soft_wrap,
        s.word_i >= s.word_buf.len(),
        s.next() is Some,
        (s.next()->0).1 is Some,
    ensures
        made_ready(s).word_i < made_ready(s).word_buf.len(),
        made_ready(s).next() == s.next(),
{
    lemma_ready_tracks(s);
}

/// The law of a step. Let no word have to be made ready for it. A row that is owed to the
/// annotations of a line end may come first, and comes before a grapheme of the document. The
/// grapheme is given right there, on the line that the layout is on. The line annotations hear
/// of it if it is of the document, and of nothing else. A line break of a char without
/// annotations starts the next row, below as many rows as the line annotations ask for, which
/// are asked at its end. Every other grapheme but a line break leads on by its columns. A fold
/// counts the lines that it hides.
pub proof fn law_step_places_the_grapheme<L: LineAnnotation>(s: FormatterView<L>) -> (ways: (
    bool,
    bool,
))
    requires
        s.in_step(),
        s.fmt.soft_wrap ==> s.word_i < s.word_buf.len(),
        s.next() is Some,
        (s.next()->0).1 is Some,
    ensures
        ({
            let (t, found) = s.next()->0;
            let g = found->0;
            let (owed, breaks) = ways;
            let asked = s.annotations.lines;
            let before = if owed {
                L::after_rows(asked, s.char_pos, s.visual_pos, s.line_pos)
            } else {
                asked
            };
            let heard = if g.source is Document {
                L::after_grapheme(before, g)
            } else {
                before
            };
            let end = Position {
                row: g.visual_pos.row,
                col: (g.visual_pos.col + g.raw.width()) as usize,
            };
            let line = g.line_idx + match g.source {
                GraphemeSource::Fold { lines, .. } => lines as int,
                _ => 0,
            };
            &&& owed ==> s.pending_eol
            &&& s.pending_eol && g.source is Document ==> owed
            &&& owed ==> {
                &&& g.visual_pos.row == s.visual_pos.row + 1 + L::rows_at(
                    asked,
                    s.char_pos,
                    s.visual_pos,
                    s.line_pos,
                )
                &&& g.visual_pos.col == 0
                &&& g.line_idx == s.line_pos + 1
            }
            &&& !owed ==> g.visual_pos == s.visual_pos && g.line_idx == s.line_pos
            &&& g.char_idx == s.char_pos
            &&& g.visual_pos.col + g.raw.width() <= usize::MAX
            &&& breaks ==> g.raw is Newline
            &&& g.raw is Newline && g.source is Document && !s.page().annotated_at(
                g.char_idx as int,
            ) ==> breaks
            &&& breaks ==> {
                &&& t.visual_pos.row == g.visual_pos.row + 1 + L::rows_at(
                    heard,
                    t.char_pos,
                    end,
                    line as usize,
                )
                &&& t.visual_pos.col == 0
                &&& t.annotations.lines == L::after_rows(heard, t.char_pos, end, line as usize)
                &&& t.line_pos == line + if g.source is Document {
                    1int
                } else {
                    0int
                }
            }
            &&& !breaks ==> {
                &&& t.visual_pos == end
                &&& t.annotations.lines == heard
                &&& t.line_pos == line
            }
            &&& t.pending_eol <==> s.pending_eol && !owed || g.raw is Newline && !breaks
            &&& t.char_pos == g.char_idx + g.source.covered()
        }),
{
    let (fetched, cell) = s.fetch()->0;
    lemma_fetch_tracks(s);
    if !s.fmt.soft_wrap {
        lemma_advance_frame(s, s.visual_pos.col as int, s.char_pos);
    }
    assert(fetched.annotations.lines == s.annotations.lines);
    assert(fetched.visual_pos == s.visual_pos);
    lemma_place_tracks(fetched, cell->0);
    let owed = s.pending_eol && (!cell->0.after_line_end || cell->0.source is Document);
    let breaks = cell->0.grapheme is Newline && !cell->0.after_line_end;
    (owed, breaks)
}

} // verus!
