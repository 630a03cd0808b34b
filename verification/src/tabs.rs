//! Tabs reach the next tab stop, wherever they are drawn.

use crate::formatted::{CellView, GraphemeSource};
use crate::graphemes::{law_tab_reaches_the_stop, GraphemeView};
use crate::layout::{
    lemma_advance_frame, lemma_marked_cells, lemma_take_inline_frame, lemma_word_grows,
    marked_cells, moved_to, spelled_at, total_covered, total_width, FormatterView,
};
use crate::motion::{lemma_indicator, lemma_moved_cells_show};
use crate::reading::{
    filling, lemma_no_end_looked, lemma_no_end_parts, lemma_peek_tracks, lemma_step_tracks,
    lemma_word_begins,
};
use crate::rows::{
    lemma_own_width, lemma_peek_rows, lemma_step_rows, lemma_wrap_rows, no_breaks, rows_filling,
    rows_ready, solid, Lead,
};
use crate::text_annotations::LineAnnotation;
use crate::wrapping::no_tabs;
use vstd::prelude::*;

verus! {

/// Whether a grapheme that is drawn at column `x` reaches the next tab stop, if it is a tab.
pub open spec fn tab_fits(grapheme: GraphemeView, x: int, tab_width: int) -> bool {
    grapheme is Tab ==> {
        &&& 1 <= grapheme.width() <= tab_width
        &&& (x + grapheme.width()) % tab_width == 0
    }
}

/// Whether all tabs among cells that are drawn side by side, from column `x` on, fit.
pub open spec fn tabs_fit(cells: Seq<CellView>, x: int, tab_width: int) -> bool {
    forall|i: int|
        0 <= i < cells.len() ==> tab_fits(
            (#[trigger] cells[i]).grapheme,
            x + total_width(cells.take(i)),
            tab_width,
        )
}

impl<L: LineAnnotation> FormatterView<L> {
    /// Whether the tabs of the word at hand and behind it fit.
    pub open spec fn word_fits(self) -> bool {
        let tab_width = self.fmt.tab_width as int;
        let rest = self.word_buf.skip(self.word_i);
        &&& tabs_fit(rest, self.visual_pos.col as int, tab_width)
        &&& self.peeked is Some ==> tab_fits(
            self.peeked->0.grapheme,
            self.visual_pos.col + total_width(rest),
            tab_width,
        )
        &&& rest.len() > 0 && rest.last().grapheme is Newline ==> self.peeked is None
    }
}

/// A tab that is drawn at a column reaches the next tab stop.
proof fn lemma_tab_spelled(g: Seq<char>, x: int, tab_width: int)
    requires
        x >= 0,
        tab_width > 0,
    ensures
        tab_fits(GraphemeView::spelled(g, x, tab_width), x, tab_width),
{
    law_tab_reaches_the_stop(x, tab_width);
}

/// A tab that is moved to a column reaches the next tab stop from there.
proof fn lemma_tab_moved(grapheme: GraphemeView, x: int, tab_width: int)
    requires
        x >= 0,
        tab_width > 0,
    ensures
        tab_fits(grapheme.moved_to(x, tab_width), x, tab_width),
{
    law_tab_reaches_the_stop(x, tab_width);
}

/// A tab that is read for a column reaches the next tab stop.
pub proof fn lemma_advance_tab<L: LineAnnotation>(s: FormatterView<L>, col: int, char_pos: usize)
    requires
        col >= 0,
        s.fmt.tab_width > 0,
        s.advance(col, char_pos) is Some,
    ensures
        (s.advance(col, char_pos)->0).1 matches Some(cell) ==> tab_fits(
            cell.grapheme,
            col,
            s.fmt.tab_width as int,
        ),
{
    let tab_width = s.fmt.tab_width as int;
    assert forall|g: Seq<char>| tab_fits(
        #[trigger] GraphemeView::spelled(g, col, tab_width),
        col,
        tab_width,
    ) by {
        lemma_tab_spelled(g, col, tab_width);
    }
    let t = match s.eol_anchor {
        Some(anchor) => {
            lemma_take_inline_frame(s, anchor);
            FormatterView { eol_anchor: None, ..s.take_inline(anchor).0 }
        },
        None => s,
    };
}

/// Graphemes that are spelled side by side: the tabs among them fit.
proof fn lemma_tabs_spelled(texts: Seq<Seq<char>>, x: int, tab_width: int, source: GraphemeSource)
    requires
        x >= 0,
        tab_width > 0,
    ensures
        tabs_fit(spelled_at(texts, x, tab_width, source), x, tab_width),
    decreases texts.len(),
{
    if texts.len() > 0 {
        let before = spelled_at(texts.drop_last(), x, tab_width, source);
        let cells = spelled_at(texts, x, tab_width, source);
        lemma_tabs_spelled(texts.drop_last(), x, tab_width, source);
        lemma_tab_spelled(texts.last(), x + total_width(before), tab_width);
        lemma_tabs_push(before, x, tab_width, cells.last());
        assert(cells =~= before.push(cells.last()));
    }
}

/// One more cell that fits.
proof fn lemma_tabs_push(cells: Seq<CellView>, x: int, tab_width: int, cell: CellView)
    requires
        tabs_fit(cells, x, tab_width),
        tab_fits(cell.grapheme, x + total_width(cells), tab_width),
    ensures
        tabs_fit(cells.push(cell), x, tab_width),
{
    let all = cells.push(cell);
    assert forall|i: int| 0 <= i < all.len() implies tab_fits(
        (#[trigger] all[i]).grapheme,
        x + total_width(all.take(i)),
        tab_width,
    ) by {
        assert(all.take(i) =~= cells.take(i));
        if i < cells.len() {
            assert(all[i] == cells[i]);
        } else {
            assert(cells.take(i) =~= cells);
        }
    }
}

/// Cells behind others.
proof fn lemma_tabs_add(a: Seq<CellView>, b: Seq<CellView>, x: int, tab_width: int)
    requires
        tabs_fit(a, x, tab_width),
        no_tabs(b),
    ensures
        tabs_fit(a + b, x, tab_width),
{
    assert forall|i: int| 0 <= i < (a + b).len() implies tab_fits(
        (#[trigger] (a + b)[i]).grapheme,
        x + total_width((a + b).take(i)),
        tab_width,
    ) by {
        if i < a.len() {
            assert((a + b).take(i) =~= a.take(i));
            assert((a + b)[i] == a[i]);
        } else {
            assert((a + b)[i] == b[i - a.len()]);
        }
    }
}

/// Fewer cells.
proof fn lemma_tabs_drop_last(cells: Seq<CellView>, x: int, tab_width: int)
    requires
        tabs_fit(cells, x, tab_width),
        cells.len() > 0,
    ensures
        tabs_fit(cells.drop_last(), x, tab_width),
{
    let init = cells.drop_last();
    assert forall|i: int| 0 <= i < init.len() implies tab_fits(
        (#[trigger] init[i]).grapheme,
        x + total_width(init.take(i)),
        tab_width,
    ) by {
        assert(init.take(i) =~= cells.take(i));
        assert(init[i] == cells[i]);
    }
}

/// What holds of the tabs while a word is filled.
spec fn tabs_ready<L: LineAnnotation>(t: FormatterView<L>) -> bool {
    let x = t.visual_pos.col as int;
    let tab_width = t.fmt.tab_width as int;
    &&& tabs_fit(t.word_buf, x, tab_width)
    &&& t.peeked is Some ==> tab_fits(
        t.peeked->0.grapheme,
        x + total_width(t.word_buf),
        tab_width,
    )
    &&& t.word_buf.len() > 0 && t.word_buf.last().grapheme is Newline ==> t.peeked is None
}

/// A look at the next cell.
proof fn lemma_peek_tabs<L: LineAnnotation>(t: FormatterView<L>, col: int, char_pos: usize)
    requires
        tabs_ready(t),
        t.fmt.tab_width > 0,
        no_breaks(t.word_buf),
        col == t.visual_pos.col + total_width(t.word_buf),
        t.peek(col, char_pos) is Some,
    ensures
        tabs_ready(t.peek(col, char_pos)->0),
        t.peek(col, char_pos)->0.word_buf == t.word_buf,
        t.peek(col, char_pos)->0.visual_pos == t.visual_pos,
        t.peek(col, char_pos)->0.fmt == t.fmt,
{
    if t.peeked is None {
        lemma_advance_frame(t, col, char_pos);
        lemma_advance_tab(t, col, char_pos);
    }
}

/// A cell that goes into the word.
proof fn lemma_take_tabs<L: LineAnnotation>(t: FormatterView<L>, col: int, char_pos: usize)
    requires
        tabs_ready(t),
        t.fmt.tab_width > 0,
        no_breaks(t.word_buf),
        col == t.visual_pos.col + total_width(t.word_buf),
        t.take_into_word(col, char_pos) is Some,
    ensures
        tabs_ready((t.take_into_word(col, char_pos)->0).0),
{
    lemma_peek_tabs(t, col, char_pos);
    let looked = t.peek(col, char_pos)->0;
    if looked.peeked is Some {
        lemma_tabs_push(
            t.word_buf,
            t.visual_pos.col as int,
            t.fmt.tab_width as int,
            looked.peeked->0,
        );
    }
}

/// A word that is moved to the next row.
proof fn lemma_wrap_tabs<L: LineAnnotation>(t: FormatterView<L>)
    requires
        t.cells_show(),
        solid(t.word_buf),
        t.wrap_word() is Some,
        no_breaks(t.wrap_word()->0.word_buf),
    ensures
        tabs_ready(t.wrap_word()->0),
{
    let w = t.wrap_word()->0;
    let tab_width = t.fmt.tab_width as int;
    let indent = t.carried_indent();
    let indicator = t.indicator();
    let source = GraphemeSource::VirtualText { highlight: t.fmt.wrap_indicator_highlight };
    let spelled = spelled_at(t.wrap_indicator, indent, tab_width, source);
    let x = indent + total_width(indicator);
    let moved = moved_to(t.word_buf, x, tab_width);
    lemma_indicator(t);
    lemma_tabs_spelled(t.wrap_indicator, indent, tab_width, source);
    lemma_tabs_marked(spelled, t.behind_line_end(), indent, tab_width);
    lemma_moved_cells_show(t.word_buf, x, tab_width);
    assert forall|i: int| 0 <= i < moved.len() implies !((
    #[trigger] moved[i]).grapheme is Tab) by {
        assert(!t.word_buf[i].grapheme.is_word_boundary());
    }
    lemma_tabs_add(indicator, moved, indent, tab_width);
    if t.peeked is Some {
        lemma_tab_moved(t.peeked->0.grapheme, indent + total_width(w.word_buf), tab_width);
    }
    if w.word_buf.len() > 0 {
        assert(w.word_buf[w.word_buf.len() - 1] == w.word_buf.last());
    }
}

/// The mark for line ends changes no tab.
proof fn lemma_tabs_marked(cells: Seq<CellView>, mark: bool, x: int, tab_width: int)
    requires
        tabs_fit(cells, x, tab_width),
    ensures
        tabs_fit(marked_cells(cells, mark), x, tab_width),
{
    let marked = marked_cells(cells, mark);
    assert forall|i: int| 0 <= i < marked.len() implies tab_fits(
        (#[trigger] marked[i]).grapheme,
        x + total_width(marked.take(i)),
        tab_width,
    ) by {
        lemma_marked_cells(cells.take(i), mark);
        assert(marked.take(i) =~= marked_cells(cells.take(i), mark));
        assert(tab_fits(cells[i].grapheme, x + total_width(cells.take(i)), tab_width));
    }
}

/// One step in filling a word.
proof fn lemma_step_tabs<L: LineAnnotation>(
    s: FormatterView<L>,
    lead: Lead,
    t: FormatterView<L>,
    broke: Option<int>,
)
    requires
        filling(t),
        t.word_step() is Some,
        rows_filling(s, lead, t, broke),
        tabs_ready(t),
    ensures
        tabs_ready((t.word_step()->0).0),
{
    let width = total_width(t.word_buf);
    let col = t.visual_pos.col + width;
    let pos = (t.char_pos + total_covered(t.word_buf)) as usize;
    let edge = t.fmt.viewport_width as int;
    let (u, go_on) = t.word_step()->0;
    lemma_no_end_parts(t);
    if col < edge {
        lemma_take_tabs(t, col, pos);
    } else {
        let at_edge = col == edge && t.fmt.soft_wrap_at_text_width;
        let looked = if at_edge || t.word_buf.len() == 0 {
            lemma_peek_tracks(t, col, pos);
            lemma_peek_rows(s, lead, t, broke, col, pos);
            lemma_peek_tabs(t, col, pos);
            t.peek(col, pos)->0
        } else {
            t
        };
        if at_edge && looked.line_end_peeked() {
            lemma_take_tabs(looked, col, pos);
        } else if width > t.fmt.max_wrap {
            if col > edge {
                let n = t.word_buf.len() as int;
                lemma_tabs_drop_last(t.word_buf, t.visual_pos.col as int, t.fmt.tab_width as int);
                assert(!t.word_buf[n - 1].grapheme.is_word_boundary());
                if n > 1 {
                    assert(!(t.word_buf[n - 2].grapheme is Newline));
                }
            }
        } else {
            if broke is Some {
                lemma_own_width(t, broke);
            }
            assert(broke is None);
            lemma_wrap_rows(s, lead, looked);
            lemma_wrap_tabs(looked);
            let w = looked.wrap_word()->0;
            lemma_take_tabs(w, w.visual_pos.col + total_width(w.word_buf), pos);
        }
    }
}

/// Filling a word.
proof fn lemma_fill_tabs<L: LineAnnotation>(
    s: FormatterView<L>,
    lead: Lead,
    t: FormatterView<L>,
    broke: Option<int>,
)
    requires
        filling(t),
        t.fill_word() is Some,
        rows_filling(s, lead, t, broke),
        tabs_ready(t),
    ensures
        tabs_ready(t.fill_word()->0),
    decreases
            (if t.word_buf.len() < t.word_limit() {
                t.word_limit() - t.word_buf.len()
            } else {
                0
            }),
{
    lemma_step_tracks(t);
    lemma_step_tabs(s, lead, t, broke);
    let after = lemma_step_rows(s, lead, t, broke);
    let (u, go_on) = t.word_step()->0;
    if go_on {
        lemma_word_grows(t);
        lemma_fill_tabs(s, lead, u, after);
    }
}

/// The tabs of the next word fit.
pub proof fn lemma_word_tabs<L: LineAnnotation>(s: FormatterView<L>, lead: Lead)
    requires
        s.in_step(),
        s.word_i >= s.word_buf.len(),
        s.has_room(),
        s.plain_words(),
        s.knows(lead),
        s.word_fits(),
        s.advance_to_next_word() is Some,
    ensures
        ({
            let t = FormatterView { word_i: 0, ..s.advance_to_next_word()->0 };
            t.word_fits()
        }),
{
    let begun = lemma_word_begins(s);
    let empty = FormatterView { word_buf: Seq::empty(), ..s };
    assert(s.word_buf.skip(s.word_i) =~= empty.word_buf);
    assert(empty.gathered() =~= s.waiting());
    assert(total_width(empty.word_buf) == 0);
    assert(total_covered(empty.word_buf) == 0);
    assert(empty.has_room());
    assert(tabs_ready(empty));
    assert(rows_ready(s, lead, empty, None));
    if s.exhausted {
        lemma_no_end_looked(empty);
        lemma_peek_rows(s, lead, empty, None, s.visual_pos.col as int, s.char_pos);
        lemma_peek_tabs(empty, s.visual_pos.col as int, s.char_pos);
    }
    assert(rows_filling(s, lead, begun, None));
    if !(s.exhausted && begun.peeked is None) {
        lemma_fill_tabs(s, lead, begun, None);
    }
    let full = s.advance_to_next_word()->0;
    assert(full.word_buf.skip(0) =~= full.word_buf);
}

} // verus!
