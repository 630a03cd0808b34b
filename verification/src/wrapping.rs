//! Under soft wrap the layout stays inside the viewport.

use crate::formatted::{CellView, GraphemeSource};
use crate::layout::{
    lemma_peek_frame, lemma_total_width_add, lemma_word_grows, lemma_wrapped_covered, moved_to, spelled_at,
    total_covered, total_width, FormatterView,
};
use crate::motion::{lemma_indicator, lemma_moved_cells_show};
use crate::reading::{
    as_cells, filling, lemma_fetch_of_ready, lemma_fetch_tracks, lemma_no_end_parts,
    lemma_peek_tracks, lemma_take_tracks, lemma_word_begins, lemma_wrap_tracks, made_ready, no_end,
};
use crate::text_annotations::{AnnotationsView, LineAnnotation};
use crate::text_format::TextFormat;
use crate::unicode::well_segmented;
use vstd::prelude::*;

verus! {

/// Whether a cell is a line break or the blank behind the text.
pub open spec fn ends_line(cell: CellView) -> bool {
    cell.grapheme is Newline || cell.source.at_end_of_text()
}

/// Whether each of the cells, drawn side by side from column `x` on, starts inside the
/// viewport. If the text is wrapped at a width of its own, a line may end right behind that.
pub open spec fn inside(fmt: TextFormat, x: int, cells: Seq<CellView>) -> bool {
    forall|i: int|
        0 <= i < cells.len() ==> {
            let at = x + total_width(#[trigger] cells.take(i));
            ||| at < fmt.viewport_width
            ||| at == fmt.viewport_width && fmt.soft_wrap_at_text_width && ends_line(cells[i])
        }
}

/// Whether none of the cells is a tab.
pub open spec fn no_tabs(cells: Seq<CellView>) -> bool {
    forall|i: int| 0 <= i < cells.len() ==> !((#[trigger] cells[i]).grapheme is Tab)
}

impl<L: LineAnnotation> FormatterView<L> {
    /// Whether a word that may be moved fits in the viewport behind the deepest indentation
    /// that is kept and the wrap indicator, and leaves a column for the next grapheme.
    pub open spec fn has_room(self) -> bool {
        forall|x: int|
            0 <= x <= self.fmt.max_indent_retain ==> x + #[trigger] total_width(
                spelled_at(
                    self.wrap_indicator,
                    x,
                    self.fmt.tab_width as int,
                    GraphemeSource::VirtualText { highlight: self.fmt.wrap_indicator_highlight },
                ),
            ) + self.fmt.max_wrap < self.fmt.viewport_width
    }

    /// Whether what is left of the word starts inside the viewport.
    pub open spec fn word_inside(self) -> bool {
        inside(self.fmt, self.visual_pos.col as int, self.word_buf.skip(self.word_i))
    }
}

/// Fewer cells are as wide at most.
proof fn lemma_total_width_take(cells: Seq<CellView>, i: int)
    requires
        0 <= i <= cells.len(),
    ensures
        total_width(cells.take(i)) <= total_width(cells),
{
    assert(cells =~= cells.take(i) + cells.skip(i));
    lemma_total_width_add(cells.take(i), cells.skip(i));
}

/// Cells that are no tabs keep their width where they are moved.
pub proof fn lemma_moved_width(cells: Seq<CellView>, x: int, tab_width: int)
    requires
        no_tabs(cells),
    ensures
        total_width(moved_to(cells, x, tab_width)) == total_width(cells),
    decreases cells.len(),
{
    if cells.len() > 0 {
        let init = cells.drop_last();
        assert forall|i: int| 0 <= i < init.len() implies !((
        #[trigger] init[i]).grapheme is Tab) by {
            assert(!(cells[i].grapheme is Tab));
        }
        lemma_moved_width(init, x, tab_width);
        assert(!(cells[cells.len() - 1].grapheme is Tab));
        let before = moved_to(init, x, tab_width);
        assert(moved_to(cells, x, tab_width).drop_last() =~= before);
    }
}

/// What holds while a word is filled.
spec fn filling_inside<L: LineAnnotation>(s: FormatterView<L>) -> bool {
    &&& filling(s)
    &&& s.has_room()
    &&& inside(s.fmt, s.visual_pos.col as int, s.word_buf)
    &&& s.visual_pos.col + s.fmt.max_wrap < s.fmt.viewport_width || no_tabs(s.word_buf)
}

/// A cell that goes into the word is inside if it starts there.
proof fn lemma_take_inside<L: LineAnnotation>(s: FormatterView<L>, col: int, char_pos: usize)
    requires
        s.cells_show(),
        s.tracks(s.gathered()),
        no_end(s.word_buf),
        s.exhausted && s.word_buf.len() == 0 ==> s.peeked is Some,
        char_pos == s.char_pos + total_covered(s.word_buf),
        s.has_room(),
        inside(s.fmt, s.visual_pos.col as int, s.word_buf),
        s.visual_pos.col + s.fmt.max_wrap < s.fmt.viewport_width || no_tabs(s.word_buf),
        col == s.visual_pos.col + total_width(s.word_buf),
        col < s.fmt.viewport_width || col == s.fmt.viewport_width && s.fmt.soft_wrap_at_text_width
            && s.line_end_peeked(),
        s.take_into_word(col, char_pos) is Some,
    ensures
        ({
            let (t, go_on) = s.take_into_word(col, char_pos)->0;
            &&& inside(t.fmt, t.visual_pos.col as int, t.word_buf)
            &&& go_on ==> filling_inside(t)
        }),
{
    lemma_take_tracks(s, col, char_pos);
    let (t, go_on) = s.take_into_word(col, char_pos)->0;
    let n = s.word_buf.len() as int;
    if s.peeked is None {
        assert(s.gathered() =~= s.word_buf);
        lemma_peek_tracks(s, col, char_pos);
    }
    let looked = s.peek(col, char_pos)->0.peeked;
    assert(t.word_buf =~= s.word_buf + as_cells(looked));
    assert forall|i: int| 0 <= i < t.word_buf.len() implies {
        let at = t.visual_pos.col + total_width(#[trigger] t.word_buf.take(i));
        ||| at < t.fmt.viewport_width
        ||| at == t.fmt.viewport_width && t.fmt.soft_wrap_at_text_width && ends_line(t.word_buf[i])
    } by {
        assert(t.word_buf.take(i) =~= s.word_buf.take(i));
        if i == n {
            assert(s.word_buf.take(n) =~= s.word_buf);
        }
    }
    if go_on {
        assert forall|i: int| 0 <= i < t.word_buf.len() && no_tabs(s.word_buf) implies !((
        #[trigger] t.word_buf[i]).grapheme is Tab) by {
            if i < n {
                assert(t.word_buf[i] == s.word_buf[i]);
            }
        }
    }
}

/// A word that is moved to the next visual line is inside, and leaves a column.
proof fn lemma_wrap_inside<L: LineAnnotation>(s: FormatterView<L>)
    requires
        s.fmt.tab_width > 0,
        s.has_room(),
        no_tabs(s.word_buf),
        total_width(s.word_buf) <= s.fmt.max_wrap,
        s.wrap_word() is Some,
    ensures
        ({
            let t = s.wrap_word()->0;
            &&& inside(t.fmt, t.visual_pos.col as int, t.word_buf)
            &&& t.visual_pos.col + total_width(t.word_buf) < t.fmt.viewport_width
            &&& t.visual_pos.col + t.fmt.max_wrap < t.fmt.viewport_width
        }),
{
    let t = s.wrap_word()->0;
    let tab_width = s.fmt.tab_width as int;
    let indent = s.carried_indent();
    let indicator = s.indicator();
    let x = indent + total_width(indicator);
    lemma_indicator(s);
    lemma_moved_width(s.word_buf, x, tab_width);
    lemma_total_width_add(indicator, moved_to(s.word_buf, x, tab_width));
    assert(0 <= indent <= s.fmt.max_indent_retain);
    assert forall|i: int| 0 <= i < t.word_buf.len() implies t.visual_pos.col + total_width(
        #[trigger] t.word_buf.take(i),
    ) < t.fmt.viewport_width by {
        lemma_total_width_take(t.word_buf, i);
    }
}

/// One step in filling a word stays inside.
proof fn lemma_step_inside<L: LineAnnotation>(s: FormatterView<L>)
    requires
        filling_inside(s),
        s.word_step() is Some,
    ensures
        ({
            let (t, go_on) = s.word_step()->0;
            &&& inside(t.fmt, t.visual_pos.col as int, t.word_buf)
            &&& go_on ==> filling_inside(t)
        }),
{
    let width = total_width(s.word_buf);
    let col = s.visual_pos.col + width;
    let pos = (s.char_pos + total_covered(s.word_buf)) as usize;
    let edge = s.fmt.viewport_width as int;
    let (t, go_on) = s.word_step()->0;
    lemma_no_end_parts(s);
    if col < edge {
        lemma_take_inside(s, col, pos);
    } else {
        let at_edge = col == edge && s.fmt.soft_wrap_at_text_width;
        let looked = if at_edge || s.word_buf.len() == 0 {
            lemma_peek_tracks(s, col, pos);
            s.peek(col, pos)->0
        } else {
            s
        };
        if at_edge && looked.line_end_peeked() {
            lemma_take_inside(looked, col, pos);
        } else if width > s.fmt.max_wrap {
            if col > edge {
                assert forall|i: int| 0 <= i < t.word_buf.len() implies {
                    let at = t.visual_pos.col + total_width(#[trigger] t.word_buf.take(i));
                    ||| at < t.fmt.viewport_width
                    ||| at == t.fmt.viewport_width && t.fmt.soft_wrap_at_text_width && ends_line(
                        t.word_buf[i],
                    )
                } by {
                    assert(t.word_buf.take(i) =~= s.word_buf.take(i));
                }
            }
        } else {
            lemma_wrap_tracks(looked);
            lemma_wrap_inside(looked);
            let w = looked.wrap_word()->0;
            lemma_take_inside(w, w.visual_pos.col + total_width(w.word_buf), pos);
        }
    }
}

/// A word that is filled is inside.
proof fn lemma_fill_inside<L: LineAnnotation>(s: FormatterView<L>)
    requires
        filling_inside(s),
        s.fill_word() is Some,
    ensures
        ({
            let t = s.fill_word()->0;
            inside(t.fmt, t.visual_pos.col as int, t.word_buf)
        }),
    decreases
            (if s.word_buf.len() < s.word_limit() {
                s.word_limit() - s.word_buf.len()
            } else {
                0
            }),
{
    lemma_step_inside(s);
    let (t, go_on) = s.word_step()->0;
    if go_on {
        lemma_word_grows(s);
        lemma_fill_inside(t);
    }
}

/// The law of the wrapped word. A word that is moved to the next visual line stands behind the
/// indentation that is kept and the wrap indicator, which is virtual text. The indentation is
/// kept if it is known and at most `max_indent_retain`; else the next visual line starts at
/// column 0. If it was not known, it is 0 for the rest of the line. The word has the same
/// cells as before: they stand for the same chars, and only tabs change their width.
pub proof fn law_wrapping_keeps_the_word<L: LineAnnotation>(s: FormatterView<L>)
    requires
        s.cells_show(),
        s.wrap_word() is Some,
    ensures
        ({
            let t = s.wrap_word()->0;
            let n = s.wrap_indicator.len() as int;
            &&& t.visual_pos.col == s.carried_indent()
            &&& t.visual_pos.col <= s.fmt.max_indent_retain
            &&& s.indent_level is None ==> t.visual_pos.col == 0 && t.indent_level == Some(0usize)
            &&& s.indent_level matches Some(indent) ==> {
                &&& t.indent_level == s.indent_level
                &&& indent <= u16::MAX ==> t.visual_pos.col == if indent
                    <= s.fmt.max_indent_retain {
                    indent
                } else {
                    0
                }
            }
            &&& t.word_buf.len() == n + s.word_buf.len()
            &&& forall|i: int| 0 <= i < n ==> (#[trigger] t.word_buf[i]).source is VirtualText
            &&& forall|i: int|
                n <= i < t.word_buf.len() ==> {
                    &&& (#[trigger] t.word_buf[i]).source == s.word_buf[i - n].source
                    &&& t.word_buf[i].grapheme == s.word_buf[i - n].grapheme || s.word_buf[i
                        - n].grapheme is Tab && t.word_buf[i].grapheme is Tab
                }
            &&& total_covered(t.word_buf) == total_covered(s.word_buf)
        }),
{
    let t = s.wrap_word()->0;
    let tab_width = s.fmt.tab_width as int;
    let indent = s.carried_indent();
    let indicator = s.indicator();
    let x = indent + total_width(indicator);
    let moved = moved_to(s.word_buf, x, tab_width);
    let n = s.wrap_indicator.len() as int;
    lemma_indicator(s);
    lemma_moved_cells_show(s.word_buf, x, tab_width);
    lemma_wrapped_covered(s);
    assert forall|i: int| 0 <= i < n implies (#[trigger] t.word_buf[i]).source is VirtualText by {
        assert(t.word_buf[i] == indicator[i]);
    }
    assert forall|i: int| n <= i < t.word_buf.len() implies {
        &&& (#[trigger] t.word_buf[i]).source == s.word_buf[i - n].source
        &&& t.word_buf[i].grapheme == s.word_buf[i - n].grapheme || s.word_buf[i
            - n].grapheme is Tab && t.word_buf[i].grapheme is Tab
    } by {
        assert(t.word_buf[i] == moved[i - n]);
    }
}

/// The law of the indentation. Behind a line break, annotated or not, the indentation is not
/// known. Where it is not known, the first cell that is no whitespace makes it the column at
/// which the word starts that the cell goes into. No other cell changes it.
pub proof fn law_line_breaks_forget_the_indentation<L: LineAnnotation>(
    s: FormatterView<L>,
    col: int,
    char_pos: usize,
)
    requires
        s.take_into_word(col, char_pos) is Some,
    ensures
        ({
            let t = (s.take_into_word(col, char_pos)->0).0;
            let cell = t.word_buf.last();
            &&& t.visual_pos == s.visual_pos
            &&& t.word_buf == s.word_buf ==> t.indent_level == s.indent_level
            &&& t.word_buf != s.word_buf ==> {
                &&& t.word_buf.len() == s.word_buf.len() + 1
                &&& t.word_buf.drop_last() == s.word_buf
                &&& cell.grapheme is Newline ==> t.indent_level is None
                &&& !(cell.grapheme is Newline) ==> t.indent_level == if s.indent_level is None
                    && !cell.grapheme.is_whitespace() {
                    Some(s.visual_pos.col)
                } else {
                    s.indent_level
                }
            }
        }),
{
    lemma_peek_frame(s, col, char_pos);
    let t = (s.take_into_word(col, char_pos)->0).0;
    if t.word_buf.len() > s.word_buf.len() {
        assert(t.word_buf.drop_last() =~= s.word_buf);
    }
}

/// The law of room. A wrap indicator of one ASCII char that is no tab takes one column, so there
/// is room if the deepest indentation that is kept, that column and a word that may be moved are
/// less wide than the viewport.
pub proof fn law_short_indicator_leaves_room<L: LineAnnotation>(s: FormatterView<L>, c: char)
    requires
        s.wrap_indicator.flatten() == seq![c],
        well_segmented(s.wrap_indicator),
        c <= '\u{7F}',
        c != '\t',
        s.fmt.max_indent_retain + 1 + s.fmt.max_wrap < s.fmt.viewport_width,
    ensures
        s.has_room(),
{
    let pieces = s.wrap_indicator;
    let tab_width = s.fmt.tab_width as int;
    let source = GraphemeSource::VirtualText { highlight: s.fmt.wrap_indicator_highlight };
    assert(seq![c].len() == 1);
    assert(pieces.len() == 1 && pieces[0] =~= seq![c]) by {
        if pieces.len() == 0 {
            assert(pieces.flatten().len() == 0);
        } else {
            assert(pieces[0].len() > 0);
            let rest = pieces.drop_first();
            assert(pieces.flatten() == pieces.first() + rest.flatten());
            if rest.len() > 0 {
                assert(rest[0] == pieces[1]);
                assert(rest[0].len() > 0);
                assert(rest.flatten() == rest.first() + rest.drop_first().flatten());
            } else {
                assert(rest.flatten().len() == 0);
            }
            assert(pieces[0][0] == pieces.flatten()[0]);
        }
    }
    assert(pieces[0][0] == c);
    assert forall|x: int| 0 <= x <= s.fmt.max_indent_retain implies x + #[trigger] total_width(
        spelled_at(pieces, x, tab_width, source),
    ) + s.fmt.max_wrap < s.fmt.viewport_width by {
        let before = spelled_at(pieces.drop_last(), x, tab_width, source);
        assert(before.len() == 0);
        let all = spelled_at(pieces, x, tab_width, source);
        assert(all.drop_last() =~= before);
        assert(seq!['\t'][0] == '\t');
        assert(all.last().grapheme.width() == 1);
    }
}

/// The law of the empty word. At the start of a block no word waits, so none is outside.
pub proof fn law_block_starts_inside<L: LineAnnotation>(
    text: Seq<char>,
    fmt: TextFormat,
    annotations: AnnotationsView<L>,
    start: usize,
    doc: Seq<Seq<char>>,
    wrap_indicator: Seq<Seq<char>>,
    fold_marker: Seq<Seq<char>>,
)
    ensures
        FormatterView::at_block(text, fmt, annotations, start, doc, wrap_indicator, fold_marker)
            .word_inside(),
{
}

/// The next word starts inside.
proof fn lemma_begin_inside<L: LineAnnotation>(s: FormatterView<L>)
    requires
        s.in_step(),
        s.has_room(),
        s.word_i >= s.word_buf.len(),
        s.advance_to_next_word() is Some,
    ensures
        ({
            let full = s.advance_to_next_word()->0;
            inside(full.fmt, full.visual_pos.col as int, full.word_buf)
        }),
{
    let begun = lemma_word_begins(s);
    if !(s.exhausted && begun.peeked is None) {
        assert(begun.has_room());
        lemma_fill_inside(begun);
    }
}

/// The word that is at hand starts inside.
proof fn lemma_ready_inside<L: LineAnnotation>(s: FormatterView<L>)
    requires
        s.in_step(),
        s.fmt.soft_wrap,
        s.has_room(),
        s.word_inside(),
        s.fetch() is Some,
    ensures
        made_ready(s).word_inside(),
{
    if s.word_i >= s.word_buf.len() {
        lemma_begin_inside(s);
        let full = s.advance_to_next_word()->0;
        assert(full.word_buf.skip(0) =~= full.word_buf);
    }
}

/// What is next, and what is left of the word behind it, start inside.
proof fn lemma_fetch_inside<L: LineAnnotation>(s: FormatterView<L>)
    requires
        s.in_step(),
        s.fmt.soft_wrap,
        s.has_room(),
        s.word_inside(),
        s.fetch() is Some,
    ensures
        ({
            let (t, cell) = s.fetch()->0;
            let rest = t.word_buf.skip(t.word_i);
            inside(t.fmt, t.visual_pos.col as int, as_cells(cell) + rest)
        }),
{
    lemma_ready_inside(s);
    lemma_fetch_of_ready(s);
}

/// Behind a cell, the cells that follow it start where they started, or further to the left.
proof fn lemma_inside_behind(
    fmt: TextFormat,
    x: int,
    cell: CellView,
    rest: Seq<CellView>,
    y: int,
)
    requires
        inside(fmt, x, seq![cell] + rest),
        y <= x + cell.grapheme.width(),
    ensures
        inside(fmt, y, rest),
        x < fmt.viewport_width || x == fmt.viewport_width && fmt.soft_wrap_at_text_width
            && ends_line(cell),
{
    let cells = seq![cell] + rest;
    assert(total_width(cells.take(0)) == 0);
    assert(cells[0] == cell);
    assert(total_width(seq![cell]) == cell.grapheme.width()) by {
        assert(seq![cell].drop_last() =~= Seq::<CellView>::empty());
        assert(total_width(seq![cell].drop_last()) == 0);
    }
    assert forall|i: int| 0 <= i < rest.len() implies {
        let at = y + total_width(#[trigger] rest.take(i));
        ||| at < fmt.viewport_width
        ||| at == fmt.viewport_width && fmt.soft_wrap_at_text_width && ends_line(rest[i])
    } by {
        assert(cells.take(i + 1) =~= seq![cell] + rest.take(i));
        lemma_total_width_add(seq![cell], rest.take(i));
        assert(cells[i + 1] == rest[i]);
    }
}

/// The law of soft wrap. If there is room for it, every grapheme starts inside the viewport,
/// so that it can be seen and selected. If the text is wrapped at a width of its own, a line
/// break and the blank behind the text may stand right behind that.
pub proof fn law_soft_wrap_stays_inside<L: LineAnnotation>(s: FormatterView<L>)
    requires
        s.in_step(),
        s.fmt.soft_wrap,
        s.has_room(),
        s.word_inside(),
        s.next() is Some,
    ensures
        ({
            let (t, found) = s.next()->0;
            &&& t.fmt == s.fmt
            &&& t.has_room()
            &&& t.word_inside()
            &&& found matches Some(g) ==> {
                ||| g.visual_pos.col < s.fmt.viewport_width
                ||| {
                    &&& g.visual_pos.col == s.fmt.viewport_width
                    &&& s.fmt.soft_wrap_at_text_width
                    &&& g.raw is Newline || g.source.at_end_of_text()
                }
            }
        }),
{
    lemma_fetch_tracks(s);
    lemma_fetch_inside(s);
    let (fetched, cell) = s.fetch()->0;
    let (t, found) = s.next()->0;
    if cell is None {
        assert(as_cells(cell) + t.word_buf.skip(t.word_i) =~= t.word_buf.skip(t.word_i));
    }
    if cell is Some {
        let x = fetched.visual_pos.col as int;
        let rest = fetched.word_buf.skip(fetched.word_i);
        assert(as_cells(cell) == seq![cell->0]);
        lemma_inside_behind(s.fmt, x, cell->0, rest, t.visual_pos.col as int);
        assert(t.word_buf.skip(t.word_i) =~= rest);
        assert(0int + total_width(
            spelled_at(
                s.wrap_indicator,
                0,
                s.fmt.tab_width as int,
                GraphemeSource::VirtualText { highlight: s.fmt.wrap_indicator_highlight },
            ),
        ) + s.fmt.max_wrap < s.fmt.viewport_width);
    }
}

} // verus!
