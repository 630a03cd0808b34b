//! How a step of the layout moves on the screen and in the document.

use crate::formatted::{CellView, GraphemeSource};
use crate::graphemes::GraphemeView;
use crate::layout::{
    lemma_advance_frame, lemma_marked_cells, lemma_peek_frame, lemma_spelled_prefix,
    lemma_take_inline_frame, lemma_virtual_covered, lemma_word_grows, moved_to, spelled_at,
    total_covered, total_width, FormatterView,
};
use crate::position::Position;
use crate::text_annotations::LineAnnotation;
use vstd::prelude::*;

verus! {

impl<L: LineAnnotation> FormatterView<L> {
    /// Whether the other state is at the same char and line of the same document, drawn with
    /// the same format and annotations, and at the same place of the screen or on a row
    /// below.
    pub open spec fn same_place(self, other: Self) -> bool {
        &&& other.fmt == self.fmt
        &&& other.wrap_indicator == self.wrap_indicator
        &&& other.fold_marker == self.fold_marker
        &&& other.text == self.text
        &&& other.annotations.inline == self.annotations.inline
        &&& other.annotations.overlays == self.annotations.overlays
        &&& other.annotations.folds == self.annotations.folds
        &&& other.char_pos == self.char_pos
        &&& other.line_pos == self.line_pos
        &&& other.pending_eol == self.pending_eol
        &&& other.overflowed == self.overflowed
        &&& other.visual_pos == self.visual_pos || other.visual_pos.row > self.visual_pos.row
    }
}

/// A grapheme that is drawn takes a column.
pub proof fn lemma_spelled_shows(g: Seq<char>, x: int, tab_width: int)
    requires
        tab_width > 0,
    ensures
        GraphemeView::spelled(g, x, tab_width).width() >= 1,
{
    if g == seq!['\t'] {
        assert(tab_width - x % tab_width >= 1) by (nonlinear_arith)
            requires
                tab_width > 0,
        ;
    }
}

/// A grapheme that was moved still takes a column.
pub proof fn lemma_moved_shows(grapheme: GraphemeView, x: int, tab_width: int)
    requires
        tab_width > 0,
        grapheme.width() >= 1,
    ensures
        grapheme.moved_to(x, tab_width).width() >= 1,
{
    if grapheme is Tab {
        assert(tab_width - x % tab_width >= 1) by (nonlinear_arith)
            requires
                tab_width > 0,
        ;
    }
}

/// Cells that were moved still take a column each, and come from where they came from.
pub proof fn lemma_moved_cells_show(cells: Seq<CellView>, x: int, tab_width: int)
    requires
        tab_width > 0,
        forall|i: int| 0 <= i < cells.len() ==> (#[trigger] cells[i]).grapheme.width() >= 1,
    ensures
        moved_to(cells, x, tab_width).len() == cells.len(),
        forall|i: int|
            0 <= i < cells.len() ==> {
                &&& (#[trigger] moved_to(cells, x, tab_width)[i]).grapheme.width() >= 1
                &&& moved_to(cells, x, tab_width)[i].source == cells[i].source
                &&& moved_to(cells, x, tab_width)[i].after_line_end == cells[i].after_line_end
                &&& moved_to(cells, x, tab_width)[i].grapheme == cells[i].grapheme
                    || cells[i].grapheme is Tab && moved_to(cells, x, tab_width)[i].grapheme is Tab
            },
    decreases cells.len(),
{
    if cells.len() > 0 {
        let init = cells.drop_last();
        let before = moved_to(init, x, tab_width);
        assert forall|i: int| 0 <= i < init.len() implies (
        #[trigger] init[i]).grapheme.width() >= 1 by {
            assert(cells[i].grapheme.width() >= 1);
        }
        lemma_moved_cells_show(init, x, tab_width);
        assert(cells[cells.len() - 1].grapheme.width() >= 1);
        lemma_moved_shows(cells.last().grapheme, x + total_width(before), tab_width);
        let moved = moved_to(cells, x, tab_width);
        assert forall|i: int| 0 <= i < cells.len() implies {
            &&& (#[trigger] moved[i]).grapheme.width() >= 1
            &&& moved[i].source == cells[i].source
            &&& moved[i].after_line_end == cells[i].after_line_end
            &&& moved[i].grapheme == cells[i].grapheme || cells[i].grapheme is Tab
                && moved[i].grapheme is Tab
        } by {
            if i < init.len() {
                assert(moved[i] == before[i]);
                assert(cells[i] == init[i]);
            }
        }
    }
}

/// Graphemes that are drawn side by side take a column each, and come from `source`.
pub proof fn lemma_spelled_cells_show(
    graphemes: Seq<Seq<char>>,
    x: int,
    tab_width: int,
    source: GraphemeSource,
)
    requires
        tab_width > 0,
    ensures
        ({
            let cells = spelled_at(graphemes, x, tab_width, source);
            forall|i: int|
                0 <= i < cells.len() ==> {
                    &&& (#[trigger] cells[i]).grapheme.width() >= 1
                    &&& cells[i].source == source
                }
        }),
    decreases graphemes.len(),
{
    if graphemes.len() > 0 {
        let before = spelled_at(graphemes.drop_last(), x, tab_width, source);
        lemma_spelled_cells_show(graphemes.drop_last(), x, tab_width, source);
        lemma_spelled_shows(graphemes.last(), x + total_width(before), tab_width);
    }
}

/// The wrap indicator is virtual text that takes a column for each grapheme. It belongs to a
/// line end if the word that it precedes does.
pub proof fn lemma_indicator<L: LineAnnotation>(s: FormatterView<L>)
    requires
        s.fmt.tab_width > 0,
    ensures
        ({
            let indicator = s.indicator();
            let source = GraphemeSource::VirtualText { highlight: s.fmt.wrap_indicator_highlight };
            &&& indicator.len() == s.wrap_indicator.len()
            &&& total_covered(indicator) == 0
            &&& total_width(indicator) == total_width(
                spelled_at(
                    s.wrap_indicator,
                    s.carried_indent(),
                    s.fmt.tab_width as int,
                    source,
                ),
            )
            &&& forall|i: int|
                0 <= i < indicator.len() ==> {
                    &&& (#[trigger] indicator[i]).grapheme.width() >= 1
                    &&& indicator[i].source == source
                    &&& indicator[i].after_line_end == s.behind_line_end()
                }
        }),
{
    let tab_width = s.fmt.tab_width as int;
    let highlight = s.fmt.wrap_indicator_highlight;
    let source = GraphemeSource::VirtualText { highlight };
    let indent = s.carried_indent();
    let cells = spelled_at(s.wrap_indicator, indent, tab_width, source);
    lemma_spelled_prefix(
        s.wrap_indicator,
        s.wrap_indicator.len() as int,
        indent,
        tab_width,
        source,
    );
    lemma_spelled_cells_show(s.wrap_indicator, indent, tab_width, source);
    lemma_virtual_covered(s.wrap_indicator, indent, tab_width, highlight);
    lemma_marked_cells(cells, s.behind_line_end());
    assert forall|i: int| 0 <= i < s.indicator().len() implies {
        &&& (#[trigger] s.indicator()[i]).grapheme.width() >= 1
        &&& s.indicator()[i].source == source
        &&& s.indicator()[i].after_line_end == s.behind_line_end()
    } by {
        assert(s.indicator()[i] == cells[i].marked(s.behind_line_end()));
    }
}

/// A cell that is read takes a column.
proof fn lemma_advance_shows<L: LineAnnotation>(s: FormatterView<L>, col: int, char_pos: usize)
    requires
        s.fmt.tab_width > 0,
        s.advance(col, char_pos) is Some,
        (s.advance(col, char_pos)->0).1 is Some,
    ensures
        (s.advance(col, char_pos)->0).1->0.grapheme.width() >= 1,
{
    let cell = (s.advance(col, char_pos)->0).1->0;
    let tab_width = s.fmt.tab_width as int;
    lemma_take_inline_frame(s, char_pos);
    let t = match s.eol_anchor {
        Some(anchor) => {
            lemma_take_inline_frame(s, anchor);
            FormatterView { eol_anchor: None, ..s.take_inline(anchor).0 }
        },
        None => s,
    };
    if cell.grapheme is Tab {
        assert(tab_width - col % tab_width >= 1) by (nonlinear_arith)
            requires
                tab_width > 0,
        ;
        lemma_take_inline_frame(t, char_pos);
        lemma_take_inline_frame(t.take_marker(col).0, char_pos);
    }
}

/// A look at the next cell moves nothing.
proof fn lemma_look_frame<L: LineAnnotation>(
    s: FormatterView<L>,
    col: int,
    char_pos: usize,
) -> (looked: FormatterView<L>)
    requires
        s.cells_show(),
        s.peek(col, char_pos) is Some,
    ensures
        looked == s.peek(col, char_pos)->0,
        looked.cells_show(),
        looked.word_buf == s.word_buf,
        looked.word_i == s.word_i,
        looked.visual_pos == s.visual_pos,
        s.same_place(looked),
{
    lemma_peek_frame(s, col, char_pos);
    if s.peeked is None && (s.advance(col, char_pos)->0).1 is Some {
        lemma_advance_shows(s, col, char_pos);
    }
    s.peek(col, char_pos)->0
}

/// A cell that goes into the word moves nothing.
proof fn lemma_take_frame<L: LineAnnotation>(s: FormatterView<L>, col: int, char_pos: usize)
    requires
        s.cells_show(),
        s.take_into_word(col, char_pos) is Some,
    ensures
        ({
            let (t, go_on) = s.take_into_word(col, char_pos)->0;
            &&& t.cells_show()
            &&& t.visual_pos == s.visual_pos
            &&& s.same_place(t)
        }),
{
    let looked = lemma_look_frame(s, col, char_pos);
    let t = (s.take_into_word(col, char_pos)->0).0;
    assert(looked.word_buf == s.word_buf);
    assert forall|i: int| 0 <= i < t.word_buf.len() implies (
    #[trigger] t.word_buf[i]).grapheme.width() >= 1 by {
        if i < s.word_buf.len() {
            assert(t.word_buf[i] == s.word_buf[i]);
        }
    }
}

/// A word that is wrapped moves on the screen only, to a row below.
pub proof fn lemma_wrap_frame<L: LineAnnotation>(s: FormatterView<L>)
    requires
        s.cells_show(),
        s.wrap_word() is Some,
    ensures
        s.wrap_word()->0.cells_show(),
        s.same_place(s.wrap_word()->0),
{
    let t = s.wrap_word()->0;
    let tab_width = s.fmt.tab_width as int;
    let indicator = s.indicator();
    let x = s.carried_indent() + total_width(indicator);
    lemma_indicator(s);
    lemma_moved_cells_show(s.word_buf, x, tab_width);
    if s.peeked is Some {
        lemma_moved_shows(
            s.peeked->0.grapheme,
            s.carried_indent() + total_width(s.wrapped_word()),
            tab_width,
        );
    }
    assert forall|i: int| 0 <= i < t.word_buf.len() implies (
    #[trigger] t.word_buf[i]).grapheme.width() >= 1 by {
        if i < indicator.len() {
            assert(t.word_buf[i] == indicator[i]);
        } else {
            assert(t.word_buf[i] == moved_to(s.word_buf, x, tab_width)[i - indicator.len()]);
        }
    }
}

/// One step in filling a word moves on the screen only.
proof fn lemma_step_frame<L: LineAnnotation>(s: FormatterView<L>)
    requires
        s.cells_show(),
        s.word_step() is Some,
    ensures
        (s.word_step()->0).0.cells_show(),
        s.same_place((s.word_step()->0).0),
{
    let width = total_width(s.word_buf);
    let col = s.visual_pos.col + width;
    let pos = (s.char_pos + total_covered(s.word_buf)) as usize;
    let edge = s.fmt.viewport_width as int;
    let t = (s.word_step()->0).0;
    if col < edge {
        lemma_take_frame(s, col, pos);
    } else {
        let at_edge = col == edge && s.fmt.soft_wrap_at_text_width;
        let looked = if at_edge || s.word_buf.len() == 0 {
            lemma_look_frame(s, col, pos)
        } else {
            s
        };
        assert(looked.word_buf == s.word_buf);
        assert(looked.cells_show());
        if at_edge && looked.line_end_peeked() {
            lemma_take_frame(looked, col, pos);
        } else if width > s.fmt.max_wrap {
            if col > edge {
                assert(s.word_buf[s.word_buf.len() - 1].grapheme.width() >= 1);
            }
        } else {
            lemma_wrap_frame(looked);
            let w = looked.wrap_word()->0;
            lemma_take_frame(w, w.visual_pos.col + total_width(w.word_buf), pos);
        }
    }
}

/// Filling a word moves on the screen only.
proof fn lemma_fill_frame<L: LineAnnotation>(s: FormatterView<L>)
    requires
        s.cells_show(),
        s.fill_word() is Some,
    ensures
        s.fill_word()->0.cells_show(),
        s.same_place(s.fill_word()->0),
    decreases
            (if s.word_buf.len() < s.word_limit() {
                s.word_limit() - s.word_buf.len()
            } else {
                0
            }),
{
    lemma_step_frame(s);
    let (t, go_on) = s.word_step()->0;
    if go_on {
        lemma_word_grows(s);
        lemma_fill_frame(t);
    }
}

/// The next cell is found without moving but on the screen, and there only if a word is
/// wrapped.
pub proof fn lemma_fetch_frame<L: LineAnnotation>(s: FormatterView<L>)
    requires
        s.cells_show(),
        s.word_i >= 0,
        s.fetch() is Some,
    ensures
        ({
            let (t, cell) = s.fetch()->0;
            &&& t.cells_show()
            &&& t.word_i >= 0
            &&& s.same_place(t)
            &&& !s.fmt.soft_wrap ==> t.visual_pos == s.visual_pos
            &&& cell is Some ==> cell->0.grapheme.width() >= 1
        }),
{
    let (t, cell) = s.fetch()->0;
    if s.fmt.soft_wrap {
        let begun = FormatterView { word_buf: Seq::empty(), ..s };
        let ready = if s.word_i >= s.word_buf.len() {
            if s.exhausted {
                let looked = lemma_look_frame(begun, s.visual_pos.col as int, s.char_pos);
                if looked.peeked is Some {
                    lemma_fill_frame(looked);
                }
            } else {
                lemma_fill_frame(begun);
            }
            FormatterView { word_i: 0, ..s.advance_to_next_word()->0 }
        } else {
            s
        };
        if cell is Some {
            assert(ready.word_buf[ready.word_i].grapheme.width() >= 1);
            assert(seq![' '][0] == ' ');
        }
    } else {
        lemma_advance_frame(s, s.visual_pos.col as int, s.char_pos);
        if cell is Some {
            lemma_advance_shows(s, s.visual_pos.col as int, s.char_pos);
        }
    }
}

/// The law of motion. A grapheme is placed where the last one ended, or at a row below, and
/// takes at least one column. The layout goes on at its end: behind it on its row, or, if it
/// is a line break, at the start of a row below. The char position moves by the chars that
/// the grapheme stands for. Without soft wrap, a row below is reached behind a line break
/// only.
pub proof fn law_step_moves_forward<L: LineAnnotation>(s: FormatterView<L>)
    requires
        s.cells_show(),
        s.word_i >= 0,
        s.next() is Some,
        (s.next()->0).1 is Some,
    ensures
        ({
            let (t, found) = s.next()->0;
            let g = found->0;
            &&& t.cells_show()
            &&& t.word_i >= 0
            &&& g.visual_pos == s.visual_pos || g.visual_pos.row > s.visual_pos.row
            &&& !s.fmt.soft_wrap && !s.pending_eol ==> g.visual_pos == s.visual_pos
            &&& g.raw.width() >= 1
            &&& {
                ||| t.visual_pos == Position {
                    row: g.visual_pos.row,
                    col: (g.visual_pos.col + g.raw.width()) as usize,
                } && g.visual_pos.col + g.raw.width() <= usize::MAX
                ||| g.raw is Newline && t.visual_pos.row > g.visual_pos.row && t.visual_pos.col == 0
            }
            &&& g.char_idx == s.char_pos
            &&& t.char_pos == g.char_idx + g.source.covered()
            &&& s.line_pos <= g.line_idx <= t.line_pos
        }),
{
    lemma_fetch_frame(s);
    let (fetched, cell) = s.fetch()->0;
}

} // verus!
