//! The `DocumentFormatter` is the bridge between the text of a document and the
//! positions on the screen. It walks over (part of) the text, finds the graphemes,
//! wraps lines and draws annotations, and gives `FormattedGrapheme`s with their
//! visual positions.
//!
//! As both virtual text and soft wrapping put additional lines on the screen, the
//! start of the previous visual line can not be found in general. Instead the
//! `DocumentFormatter` starts at the last checkpoint (a line break) before a char, and
//! the caller advances it as needed.

use crate::chars::count_chars;
use crate::fold::Fold;
use crate::formatted::{
    CellView, FormattedGrapheme, FormattedView, GraphemeSource, GraphemeWithSource,
};
use crate::hiding::{law_checkpoint_is_a_line_start, law_way_to_the_checkpoint};
use crate::highlight::Highlight;
use crate::layout::{
    checkpoint, fits, graphemes_within, header, lemma_flatten_take_monotone,
    lemma_flatten_take_step, lemma_graphemes_within, lemma_line_start, lemma_moved_prefix,
    lemma_peek_frame, lemma_spelled_prefix, lemma_take_inline_frame, lemma_total_width_add,
    lemma_word_grows, lemma_wrapped_covered, line_ends_at, line_start, marked_cells, moved_to,
    spelled_at, total_covered, total_width, FormatterView, MarkerView,
};
use crate::motion::lemma_indicator;
use crate::numbering::law_block_starts_on_its_line;
use crate::position::Position;
use crate::reading::{
    counted, folds_counted, law_ascii_texts_are_counted, law_block_starts_in_step,
    law_short_texts_are_counted,
};
use crate::rope::{
    lemma_line_start_unique, lemma_newlines_add, lemma_newlines_monotone, newlines, rope_chars,
    slice_from, slice_to_string,
};
use crate::text_annotations::{
    fold_over, lemma_fold_over, lemma_seek, LineAnnotation, TextAnnotations,
};
use crate::text_format::TextFormat;
use crate::unicode::{ascii, graphemes, texts, well_segmented};
use crate::wrapping::law_block_starts_inside;
use ropey::RopeSlice;
use vstd::prelude::*;

verus! {

/// A position on the screen or in the document got too large for a machine word.
#[derive(Debug, Clone, Copy, PartialEq, Eq, Structural)]
pub struct LayoutOverflow;

/// Graphemes that are handed out one by one.
#[derive(Debug)]
struct GraphemeQueue {
    graphemes: Vec<String>,
    next: usize,
}

impl View for GraphemeQueue {
    type V = Seq<Seq<char>>;

    closed spec fn view(&self) -> Seq<Seq<char>> {
        texts(self.graphemes@).skip(self.next as int)
    }
}

impl GraphemeQueue {
    #[verifier::type_invariant]
    spec fn inv(self) -> bool {
        self.next <= self.graphemes@.len()
    }

    fn new(graphemes: Vec<String>) -> (queue: GraphemeQueue)
        ensures
            queue@ == texts(graphemes@),
    {
        let queue = GraphemeQueue { graphemes, next: 0 };
        assert(queue@ =~= texts(graphemes@));
        queue
    }

    fn next(&mut self) -> (g: Option<String>)
        ensures
            match g {
                Some(g) => {
                    &&& old(self)@.len() > 0
                    &&& g@ == old(self)@.first()
                    &&& final(self)@ == old(self)@.drop_first()
                },
                None => old(self)@.len() == 0 && final(self)@ == old(self)@,
            },
    {
        proof {
            use_type_invariant(&*self);
        }
        if self.next < self.graphemes.len() {
            let g = self.graphemes[self.next].clone();
            self.next = self.next + 1;
            assert(final(self)@ =~= old(self)@.drop_first());
            Some(g)
        } else {
            None
        }
    }
}

/// A fold marker drawn one cell at a time; the hidden chars and lines are attached to
/// its last cell.
#[derive(Debug)]
struct FoldMarkerGraphemes {
    /// The next grapheme of the marker.
    next: usize,
    highlight: Option<Highlight>,
    codepoints: u32,
    lines: u32,
}

/// Lays out a document, one grapheme after the other.
#[derive(Debug)]
pub struct DocumentFormatter<'t, L: LineAnnotation> {
    text_fmt: &'t TextFormat,
    /// The graphemes of the wrap indicator.
    wrap_indicator: Vec<String>,
    /// The graphemes of the fold marker.
    fold_marker: Vec<String>,
    annotations: TextAnnotations<L>,
    /// The visual position at the end of the last grapheme.
    visual_pos: Position,
    graphemes: GraphemeQueue,
    /// The char position at the end of the last grapheme.
    char_pos: usize,
    /// The document line at the end of the last grapheme.
    line_pos: usize,
    exhausted: bool,
    inline_annotation_graphemes: Option<(GraphemeQueue, Option<Highlight>)>,
    /// The whole document, to look ahead at line ends.
    text: RopeSlice<'t>,
    /// The char whose line end annotations are still being drawn.
    eol_annotation_anchor: Option<usize>,
    /// A row advance that waits until the line end annotations are drawn.
    pending_eol_row_advance: bool,
    fold_marker_graphemes: Option<FoldMarkerGraphemes>,
    /// The indentation of the current line. `None` as long as nothing but whitespace
    /// has been met.
    indent_level: Option<usize>,
    /// A long word may have to be cut: its last grapheme is then wrapped while the rest
    /// of the word stays on the line.
    peeked_grapheme: Option<GraphemeWithSource>,
    /// The graphemes of the current word, first in, first out.
    word_buf: Vec<GraphemeWithSource>,
    /// The next grapheme of the word.
    word_i: usize,
    /// Whether a position did not fit.
    overflowed: bool,
}

/// The row below `row` and `rows` more.
fn next_row(row: usize, rows: usize) -> (r: Option<usize>)
    ensures
        match r {
            Some(n) => n == row + 1 + rows,
            None => !fits(row + 1 + rows),
        },
{
    match row.checked_add(1) {
        Some(below) => below.checked_add(rows),
        None => None,
    }
}

/// What optional cells stand for.
pub open spec fn cell_view(cell: Option<GraphemeWithSource>) -> Option<CellView> {
    match cell {
        Some(cell) => Some(cell@),
        None => None,
    }
}

/// What an optional result stands for.
pub open spec fn formatted_view(grapheme: Option<FormattedGrapheme>) -> Option<FormattedView> {
    match grapheme {
        Some(grapheme) => Some(grapheme@),
        None => None,
    }
}

/// What cells stand for.
pub open spec fn cell_views(cells: Seq<GraphemeWithSource>) -> Seq<CellView> {
    Seq::new(cells.len(), |i: int| cells[i]@)
}

impl<'t, L: LineAnnotation> View for DocumentFormatter<'t, L> {
    type V = FormatterView<L>;

    closed spec fn view(&self) -> FormatterView<L> {
        FormatterView {
            fmt: *self.text_fmt,
            wrap_indicator: texts(self.wrap_indicator@),
            fold_marker: texts(self.fold_marker@),
            text: rope_chars(self.text),
            annotations: self.annotations@,
            visual_pos: self.visual_pos,
            doc: self.graphemes@,
            char_pos: self.char_pos,
            line_pos: self.line_pos,
            exhausted: self.exhausted,
            inline: match self.inline_annotation_graphemes {
                Some((queue, highlight)) => Some((queue@, highlight)),
                None => None,
            },
            eol_anchor: self.eol_annotation_anchor,
            pending_eol: self.pending_eol_row_advance,
            marker: match self.fold_marker_graphemes {
                Some(marker) => Some(
                    MarkerView {
                        graphemes: texts(self.fold_marker@).skip(marker.next as int),
                        highlight: marker.highlight,
                        codepoints: marker.codepoints,
                        lines: marker.lines,
                    },
                ),
                None => None,
            },
            indent_level: self.indent_level,
            peeked: cell_view(self.peeked_grapheme),
            word_buf: cell_views(self.word_buf@),
            word_i: self.word_i as int,
            overflowed: self.overflowed,
        }
    }
}

impl<'t, L: LineAnnotation> DocumentFormatter<'t, L> {
    /// What holds while positions fit.
    pub closed spec fn sound(&self) -> bool {
        &&& self@.cells_show()
        &&& self.fold_marker_graphemes is Some ==> self.fold_marker_graphemes->0.next
            <= self.fold_marker@.len()
        &&& self.annotations@.next_inline <= self.annotations@.inline.len()
    }

    /// What holds of every formatter.
    pub closed spec fn wf(&self) -> bool {
        self.overflowed || self.sound()
    }

    /// Begins to draw an inline annotation that is cut into graphemes. What is left of
    /// another one is dropped.
    pub fn begin_inline_annotation(
        &mut self,
        graphemes: Vec<String>,
        highlight: Option<Highlight>,
    )
        ensures
            final(self)@ == (FormatterView {
                inline: Some((texts(graphemes@), highlight)),
                ..old(self)@
            }),
            old(self).wf() ==> final(self).wf(),
            old(self).sound() ==> final(self).sound(),
    {
        self.inline_annotation_graphemes = Some((GraphemeQueue::new(graphemes), highlight));
    }

    /// The next grapheme of the inline annotations of the char at `char_pos`.
    fn next_inline_annotation_grapheme(&mut self, char_pos: usize) -> (found: Option<
        (String, Option<Highlight>),
    >)
        requires
            old(self).sound(),
        ensures
            final(self).sound(),
            final(self)@ == old(self)@.take_inline(char_pos).0,
            match found {
                Some((g, highlight)) => old(self)@.take_inline(char_pos).1 == Some((g@, highlight)),
                None => old(self)@.take_inline(char_pos).1 is None,
            },
    {
        loop
            invariant
                self.sound(),
                self@.take_inline(char_pos) == old(self)@.take_inline(char_pos),
            decreases self.annotations@.inline.len() - self.annotations@.next_inline,
        {
            let ghost before = self@;
            if let Some((queue, highlight)) = &mut self.inline_annotation_graphemes {
                let g = queue.next();
                if let Some(g) = g {
                    let highlight = *highlight;
                    assert(self@ =~= before.take_inline(char_pos).0);
                    return Some((g, highlight));
                }
            }
            assert(self@ =~= before);
            match self.annotations.next_inline_annotation_at(char_pos) {
                Some((text, highlight)) => {
                    self.begin_inline_annotation(graphemes(&text), highlight);
                },
                None => {
                    assert(self@ =~= before.take_inline(char_pos).0);
                    return None;
                },
            }
        }
    }

    /// The next cell of a fold marker that was begun. Each grapheme is a cell of its own,
    /// so a marker of several chars is drawn right; the last cell carries the hidden
    /// chars and lines, the others are virtual text.
    fn next_fold_marker_grapheme(&mut self, col: usize) -> (cell: Option<GraphemeWithSource>)
        requires
            old(self).sound(),
        ensures
            final(self).sound(),
            old(self)@.take_marker(col as int) == (final(self)@, cell_view(cell)),
            cell is Some ==> cell->0@.grapheme.width() >= 1,
    {
        match &mut self.fold_marker_graphemes {
            None => None,
            Some(marker) => {
                if marker.next >= self.fold_marker.len() {
                    return None;
                }
                let g = self.fold_marker[marker.next].clone();
                let is_last = marker.next + 1 == self.fold_marker.len();
                let source = if is_last {
                    GraphemeSource::Fold {
                        highlight: marker.highlight,
                        codepoints: marker.codepoints,
                        lines: marker.lines,
                    }
                } else {
                    GraphemeSource::VirtualText { highlight: marker.highlight }
                };
                marker.next = marker.next + 1;
                if is_last {
                    self.fold_marker_graphemes = None;
                }
                assert(self@ =~= old(self)@.take_marker(col as int).0);
                Some(GraphemeWithSource::new(g, col, self.text_fmt.tab_width, source))
            },
        }
    }

    /// Whether the grapheme at `char_pos` is a line break or the end of the text.
    fn at_line_end(&self, char_pos: usize) -> (b: bool)
        ensures
            b == line_ends_at(self@.text, char_pos as int),
    {
        let len: usize = self.text.len_chars();
        if char_pos >= len {
            return true;
        }
        let c = self.text.char(char_pos);
        c == '\n' || (c == '\r' && char_pos + 1 < len && self.text.char(char_pos + 1) == '\n')
    }

    /// Skips the graphemes that `fold` hides, which starts at `char_pos`, and begins its
    /// marker.
    fn begin_fold(&mut self, char_pos: usize, fold: Fold) -> (r: Result<(), LayoutOverflow>)
        requires
            old(self).sound(),
        ensures
            match r {
                Ok(_) => final(self).sound() && old(self)@.begin_fold(char_pos, fold) == Some(
                    final(self)@,
                ),
                Err(_) => old(self)@.begin_fold(char_pos, fold) is None,
            },
    {
        let ghost doc = self@.doc;
        let ghost before = self@;
        let ghost whole = fold.end_char - char_pos;
        let span: usize = fold.end_char.saturating_sub(char_pos);
        let mut skipped: usize = 0;
        let mut lines: u32 = 0;
        let ghost mut n: int = 0;
        let ghost all = graphemes_within(doc, whole) as int;
        proof {
            lemma_graphemes_within(doc, whole);
            assert(doc.take(0) =~= Seq::<Seq<char>>::empty());
            assert(doc.skip(0) =~= doc);
        }
        while skipped < span
            invariant_except_break
                0 <= n <= all <= doc.len(),
                all == n + graphemes_within(doc.skip(n), whole - skipped),
            invariant
                0 <= n <= doc.len(),
                doc == before.doc,
                all == graphemes_within(doc, whole),
                all <= doc.len(),
                span == if whole > 0 { whole } else { 0 },
                whole == fold.end_char - char_pos,
                before == old(self)@,
                self.sound(),
                self@ == (FormatterView { doc: doc.skip(n), ..before }),
                skipped == doc.take(n).flatten().len(),
                lines == newlines(doc.take(n).flatten()),
            ensures
                n == all,
            decreases doc.len() - n,
        {
            let ghost rest = doc.skip(n);
            let next = self.graphemes.next();
            match next {
                Some(g) => {
                    let (len, breaks) = count_chars(&g);
                    proof {
                        assert(rest[0] == doc[n]);
                        assert(rest.drop_first() =~= doc.skip(n + 1));
                        lemma_flatten_take_step(doc, n);
                        lemma_newlines_add(doc.take(n).flatten(), doc[n]);
                        lemma_flatten_take_monotone(doc, n + 1, all);
                        n = n + 1;
                    }
                    skipped = match skipped.checked_add(len) {
                        Some(sum) => sum,
                        None => {
                            return Err(LayoutOverflow);
                        },
                    };
                    if breaks > (u32::MAX - lines) as usize {
                        return Err(LayoutOverflow);
                    }
                    lines = lines + breaks as u32;
                    assert(self@ =~= FormatterView { doc: doc.skip(n), ..before });
                },
                None => {
                    break;
                },
            }
        }
        self.fold_marker_graphemes = Some(
            FoldMarkerGraphemes {
                next: 0,
                highlight: self.text_fmt.fold_marker_highlight,
                codepoints: skipped as u32,
                lines,
            },
        );
        assert(texts(self.fold_marker@).skip(0) =~= texts(self.fold_marker@));
        assert(self@ =~= before.begin_fold(char_pos, fold)->0);
        Ok(())
    }

    /// The next cell, to be drawn at column `col`, where the document has been read up to
    /// `char_pos`.
    fn advance_grapheme(&mut self, col: usize, char_pos: usize) -> (r: Result<
        Option<GraphemeWithSource>,
        LayoutOverflow,
    >)
        requires
            old(self).sound(),
        ensures
            match r {
                Ok(cell) => {
                    &&& final(self).sound()
                    &&& old(self)@.advance(col as int, char_pos) == Some(
                        (final(self)@, cell_view(cell)),
                    )
                    &&& cell is Some ==> cell->0@.grapheme.width() >= 1
                },
                Err(_) => old(self)@.advance(col as int, char_pos) is None,
            },
    {
        // the annotations of a line end that was drawn already
        if let Some(anchor) = self.eol_annotation_anchor {
            if let Some((g, highlight)) = self.next_inline_annotation_grapheme(anchor) {
                let mut cell = GraphemeWithSource::new(
                    g,
                    col,
                    self.text_fmt.tab_width,
                    GraphemeSource::VirtualText { highlight },
                );
                cell.after_line_end = true;
                proof {
                    lemma_take_inline_frame(old(self)@, anchor);
                }
                return Ok(Some(cell));
            }
            self.eol_annotation_anchor = None;
            assert(self@ =~= FormatterView {
                eol_anchor: None,
                ..old(self)@.take_inline(anchor).0
            });
        }
        let ghost s = self@;
        assert(old(self)@.advance(col as int, char_pos) == s.advance_past_line_end(
            col as int,
            char_pos,
        ));
        // a marker that was begun
        if let Some(cell) = self.next_fold_marker_grapheme(col) {
            return Ok(Some(cell));
        }
        assert(self@ == s.take_marker(col as int).0);
        // a fold starts here: skip what it hides, then draw its marker
        if let Some(fold) = self.annotations.fold_starting_at(char_pos) {
            return match self.begin_fold(char_pos, fold) {
                Ok(_) => Ok(self.next_fold_marker_grapheme(col)),
                Err(_) => Err(LayoutOverflow),
            };
        }
        Ok(self.advance_in_text(col, char_pos))
    }

    /// The next cell of the text and its inline annotations, where no fold is near.
    fn advance_in_text(&mut self, col: usize, char_pos: usize) -> (cell: Option<
        GraphemeWithSource,
    >)
        requires
            old(self).sound(),
        ensures
            final(self).sound(),
            old(self)@.advance_in_text(col as int, char_pos) == (final(self)@, cell_view(cell)),
            cell is Some ==> cell->0@.grapheme.width() >= 1,
    {
        // annotations of a char that ends a line come behind it, so a cursor at the end of
        // the actual text stays in front of the virtual text
        let line_end = self.at_line_end(char_pos) && self.annotations.has_inline_annotation_at(
            char_pos,
        );
        let annotation = if line_end {
            self.eol_annotation_anchor = Some(char_pos);
            None
        } else {
            self.next_inline_annotation_grapheme(char_pos)
        };
        let ghost s = self@;
        proof {
            lemma_take_inline_frame(old(self)@, char_pos);
            if line_end {
                assert(s =~= FormatterView { eol_anchor: Some(char_pos), ..old(self)@ });
            }
        }
        let (g, source) = if let Some((g, highlight)) = annotation {
            (g, GraphemeSource::VirtualText { highlight })
        } else if let Some(g) = self.graphemes.next() {
            let (len, _) = count_chars(&g);
            let g = match self.annotations.overlay_at(char_pos) {
                Some(overlay) => overlay,
                None => g,
            };
            assert(self@ =~= FormatterView {
                doc: s.doc.drop_first(),
                annotations: s.annotations.take_overlay(char_pos).0,
                ..s
            });
            (g, GraphemeSource::Document { codepoints: len as u32 })
        } else {
            assert(self@ =~= s);
            if self.exhausted {
                return None;
            }
            self.exhausted = true;
            // the blank behind the last char is needed for drawing and for positions
            let mut cell = GraphemeWithSource::placeholder();
            cell.after_line_end = line_end;
            assert(self@ =~= FormatterView { exhausted: true, ..s });
            return Some(cell);
        };
        let mut cell = GraphemeWithSource::new(g, col, self.text_fmt.tab_width, source);
        cell.after_line_end = line_end;
        Some(cell)
    }

    /// The cells of the wrap indicator from column `x` on, with the mark for line ends, and
    /// their width.
    fn indicator_cells(&self, x: usize, after_line_end: bool) -> (r: Result<
        (Vec<GraphemeWithSource>, usize),
        LayoutOverflow,
    >)
        requires
            self@.fmt.tab_width > 0,
        ensures
            ({
                let indicator = spelled_at(
                    self@.wrap_indicator,
                    x as int,
                    self@.fmt.tab_width as int,
                    GraphemeSource::VirtualText { highlight: self@.fmt.wrap_indicator_highlight },
                );
                match r {
                    Ok((cells, width)) => {
                        &&& cell_views(cells@) == marked_cells(indicator, after_line_end)
                        &&& width == total_width(indicator)
                        &&& x + width <= usize::MAX
                        &&& forall|i: int|
                            0 <= i < cells.len() ==> (#[trigger] cells@[i])@.grapheme.width() >= 1
                    },
                    Err(_) => !fits(x + total_width(indicator)),
                }
            }),
    {
        let ghost tab_width = self@.fmt.tab_width as int;
        let ghost all = self@.wrap_indicator;
        let source = GraphemeSource::VirtualText {
            highlight: self.text_fmt.wrap_indicator_highlight,
        };
        let mut cells: Vec<GraphemeWithSource> = Vec::new();
        let mut end: usize = x;
        let mut k: usize = 0;
        assert(all.take(0) =~= Seq::<Seq<char>>::empty());
        assert(cell_views(cells@) =~= marked_cells(Seq::empty(), after_line_end));
        while k < self.wrap_indicator.len()
            invariant
                k <= self.wrap_indicator.len(),
                all == texts(self.wrap_indicator@),
                tab_width == self.text_fmt.tab_width,
                self.text_fmt.tab_width > 0,
                all == self@.wrap_indicator,
                *self.text_fmt == self@.fmt,
                source == (GraphemeSource::VirtualText {
                    highlight: self@.fmt.wrap_indicator_highlight,
                }),
                cell_views(cells@) == marked_cells(
                    spelled_at(all.take(k as int), x as int, tab_width, source),
                    after_line_end,
                ),
                end == x + total_width(
                    spelled_at(all.take(k as int), x as int, tab_width, source),
                ),
                forall|i: int|
                    0 <= i < cells.len() ==> (#[trigger] cells@[i])@.grapheme.width() >= 1,
            decreases self.wrap_indicator.len() - k,
        {
            let g = self.wrap_indicator[k].clone();
            let ghost before = cells@;
            let mut cell = GraphemeWithSource::new(g, end, self.text_fmt.tab_width, source);
            cell.after_line_end = after_line_end;
            let width: usize = cell.width();
            cells.push(cell);
            proof {
                let spelled = spelled_at(all.take(k as int), x as int, tab_width, source);
                let longer = spelled_at(all.take(k + 1), x as int, tab_width, source);
                assert(all.take(k + 1).drop_last() =~= all.take(k as int));
                assert(longer.drop_last() =~= spelled);
                assert(cell_views(cells@) =~= cell_views(before).push(cell@));
                assert(cell_views(cells@) =~= marked_cells(longer, after_line_end));
                lemma_spelled_prefix(all, k + 1, x as int, tab_width, source);
            }
            end = match end.checked_add(width) {
                Some(sum) => sum,
                None => {
                    return Err(LayoutOverflow);
                },
            };
            k += 1;
        }
        assert(all.take(k as int) =~= all);
        Ok((cells, end - x))
    }

    /// Moves the cells of the word side by side, from column `x` on, and gives the column
    /// behind them.
    fn move_word(&mut self, x: usize) -> (r: Result<usize, LayoutOverflow>)
        requires
            old(self).sound(),
        ensures
            ({
                let moved = moved_to(old(self)@.word_buf, x as int, old(self)@.fmt.tab_width as int);
                match r {
                    Ok(end) => {
                        &&& final(self).sound()
                        &&& final(self)@ == (FormatterView { word_buf: moved, ..old(self)@ })
                        &&& end == x + total_width(moved)
                    },
                    Err(_) => !fits(x + total_width(moved)),
                }
            }),
    {
        let ghost before = self@;
        let ghost cells = self@.word_buf;
        let ghost tab_width = self@.fmt.tab_width as int;
        let mut end: usize = x;
        let mut i: usize = 0;
        assert(cells.take(0) =~= Seq::<CellView>::empty());
        assert(self@.word_buf.take(0) =~= Seq::<CellView>::empty());
        while i < self.word_buf.len()
            invariant
                i <= self.word_buf.len(),
                self.sound(),
                before == old(self)@,
                cells == before.word_buf,
                tab_width == before.fmt.tab_width,
                self@ == (FormatterView { word_buf: self@.word_buf, ..before }),
                self@.word_buf.len() == cells.len(),
                self@.word_buf.take(i as int) == moved_to(cells.take(i as int), x as int, tab_width),
                forall|j: int| i <= j < cells.len() ==> #[trigger] self@.word_buf[j] == cells[j],
                end == x + total_width(self@.word_buf.take(i as int)),
            decreases self.word_buf.len() - i,
        {
            let ghost prev = self@;
            self.word_buf[i].grapheme.change_position(end, self.text_fmt.tab_width);
            let width: usize = self.word_buf[i].width();
            proof {
                assert(prev.word_buf[i as int] == cells[i as int]);
                assert(self@.word_buf =~= prev.word_buf.update(
                    i as int,
                    cells[i as int].moved_to(end as int, tab_width),
                ));
                assert(self@ =~= FormatterView { word_buf: self@.word_buf, ..before });
                assert(cells.take(i + 1).drop_last() =~= cells.take(i as int));
                assert(self@.word_buf.take(i + 1).drop_last() =~= prev.word_buf.take(i as int));
                assert(self@.word_buf.take(i + 1) =~= moved_to(
                    cells.take(i + 1),
                    x as int,
                    tab_width,
                ));
                lemma_moved_prefix(cells, i + 1, x as int, tab_width);
            }
            end = match end.checked_add(width) {
                Some(sum) => sum,
                None => {
                    return Err(LayoutOverflow);
                },
            };
            i += 1;
        }
        assert(cells.take(i as int) =~= cells);
        assert(self@.word_buf.take(i as int) =~= self@.word_buf);
        Ok(end)
    }

    /// Moves the word to the next visual line and gives its width there.
    fn wrap_word(&mut self) -> (r: Result<usize, LayoutOverflow>)
        requires
            old(self).sound(),
        ensures
            match r {
                Ok(width) => {
                    &&& final(self).sound()
                    &&& old(self)@.wrap_word() == Some(final(self)@)
                    &&& width == total_width(final(self)@.word_buf)
                },
                Err(_) => old(self)@.wrap_word() is None,
            },
    {
        let ghost before = self@;
        let carried: u16 = match self.indent_level {
            Some(indent) => {
                let low: u16 = #[verifier::truncate] (indent as u16);
                if low <= self.text_fmt.max_indent_retain {
                    low
                } else {
                    0
                }
            },
            None => {
                // the indentation stays none
                self.indent_level = Some(0);
                0
            },
        };
        let indent: usize = carried as usize;
        let rows: usize = self.annotations.virtual_lines_at(
            self.char_pos,
            self.visual_pos,
            self.line_pos,
        );
        let row: usize = match next_row(self.visual_pos.row, rows) {
            Some(row) => row,
            None => {
                return Err(LayoutOverflow);
            },
        };
        self.visual_pos = Position { row, col: indent };
        let ghost tab_width = before.fmt.tab_width as int;
        let ghost indicator = before.indicator();
        let ghost moved = moved_to(before.word_buf, indent + total_width(indicator), tab_width);
        proof {
            lemma_total_width_add(indicator, moved);
            lemma_indicator(before);
        }
        // an indicator before an annotation of a line end belongs to the line end too
        let behind_line_end = if self.word_buf.len() > 0 {
            self.word_buf[0].annotates_line_end()
        } else {
            match &self.peeked_grapheme {
                Some(cell) => cell.annotates_line_end(),
                None => false,
            }
        };
        let (mut cells, width) = match self.indicator_cells(indent, behind_line_end) {
            Ok(cells) => cells,
            Err(_) => {
                return Err(LayoutOverflow);
            },
        };
        let end: usize = match self.move_word(indent + width) {
            Ok(end) => end,
            Err(_) => {
                return Err(LayoutOverflow);
            },
        };
        let ghost mid = *self;
        cells.append(&mut self.word_buf);
        self.word_buf = cells;
        proof {
            assert(cell_views(self.word_buf@) =~= indicator + moved);
            assert forall|i: int| 0 <= i < self@.word_buf.len() implies (
            #[trigger] self@.word_buf[i]).grapheme.width() >= 1 by {
                if i >= indicator.len() {
                    assert(self@.word_buf[i] == mid@.word_buf[i - indicator.len()]);
                }
            }
        }
        if let Some(cell) = &mut self.peeked_grapheme {
            cell.grapheme.change_position(end, self.text_fmt.tab_width);
        }
        assert(self@ =~= before.wrap_word()->0);
        Ok(end - indent)
    }

    /// Makes sure that the next cell is at hand, if there is one.
    fn peek_grapheme(&mut self, col: usize, char_pos: usize) -> (r: Result<(), LayoutOverflow>)
        requires
            old(self).sound(),
        ensures
            match r {
                Ok(_) => final(self).sound() && old(self)@.peek(col as int, char_pos) == Some(
                    final(self)@,
                ),
                Err(_) => old(self)@.peek(col as int, char_pos) is None,
            },
    {
        if self.peeked_grapheme.is_none() {
            let cell = match self.advance_grapheme(col, char_pos) {
                Ok(cell) => cell,
                Err(_) => {
                    return Err(LayoutOverflow);
                },
            };
            let ghost read = self@;
            self.peeked_grapheme = cell;
            assert(self@ =~= FormatterView { peeked: cell_view(cell), ..read });
        }
        Ok(())
    }

    /// The next cell, the one at hand first.
    fn next_grapheme(&mut self, col: usize, char_pos: usize) -> (r: Result<
        Option<GraphemeWithSource>,
        LayoutOverflow,
    >)
        requires
            old(self).sound(),
        ensures
            match r {
                Ok(cell) => {
                    &&& final(self).sound()
                    &&& old(self)@.peek(col as int, char_pos) is Some
                    &&& cell_view(cell) == (old(self)@.peek(col as int, char_pos)->0).peeked
                    &&& final(self)@ == (FormatterView {
                        peeked: None,
                        ..old(self)@.peek(col as int, char_pos)->0
                    })
                    &&& cell is Some ==> cell->0@.grapheme.width() >= 1
                },
                Err(_) => old(self)@.peek(col as int, char_pos) is None,
            },
    {
        match self.peek_grapheme(col, char_pos) {
            Ok(_) => {},
            Err(_) => {
                return Err(LayoutOverflow);
            },
        }
        let ghost looked = self@;
        let cell = self.peeked_grapheme.take();
        assert(self@ =~= FormatterView { peeked: None, ..looked });
        Ok(cell)
    }

    /// Takes the next cell into the word, whose width and chars are given. Gives them back
    /// as they are then, if the word goes on.
    fn take_into_word(
        &mut self,
        col: usize,
        char_pos: usize,
        word_width: usize,
        word_chars: usize,
    ) -> (r: Result<Option<(usize, usize)>, LayoutOverflow>)
        requires
            old(self).sound(),
            word_width == total_width(old(self)@.word_buf),
            word_chars == total_covered(old(self)@.word_buf),
        ensures
            match r {
                Ok(go_on) => {
                    &&& final(self).sound()
                    &&& old(self)@.take_into_word(col as int, char_pos) == Some(
                        (final(self)@, go_on is Some),
                    )
                    &&& go_on matches Some((width, chars)) ==> width == total_width(
                        final(self)@.word_buf,
                    ) && chars == total_covered(final(self)@.word_buf)
                },
                Err(_) => old(self)@.take_into_word(col as int, char_pos) is None,
            },
    {
        let ghost looked = self@.peek(col as int, char_pos);
        proof {
            if looked is Some {
                lemma_peek_frame(self@, col as int, char_pos);
            }
        }
        let cell = match self.next_grapheme(col, char_pos) {
            Ok(Some(cell)) => cell,
            Ok(None) => {
                assert(self@ =~= looked->0);
                return Ok(None);
            },
            Err(_) => {
                return Err(LayoutOverflow);
            },
        };
        let ghost word = self@.word_buf.push(cell@);
        assert(word.drop_last() =~= self@.word_buf);
        let word_chars: usize = match word_chars.checked_add(cell.doc_chars()) {
            Some(sum) => sum,
            None => {
                return Err(LayoutOverflow);
            },
        };
        // keep track of the indentation
        if !cell.is_whitespace() && self.indent_level.is_none() {
            self.indent_level = Some(self.visual_pos.col);
        } else if cell.is_newline() {
            self.indent_level = None;
        }
        let is_word_boundary = cell.is_word_boundary();
        let word_width: usize = match word_width.checked_add(cell.width()) {
            Some(sum) => sum,
            None => {
                return Err(LayoutOverflow);
            },
        };
        let ghost before = self.word_buf@;
        self.word_buf.push(cell);
        proof {
            assert(cell_views(self.word_buf@) =~= word);
            let want = (old(self)@.take_into_word(col as int, char_pos)->0).0;
            assert(self@ =~= want);
        }
        if is_word_boundary {
            Ok(None)
        } else {
            Ok(Some((word_width, word_chars)))
        }
    }

    /// Fills the buffer with the next word.
    fn advance_to_next_word(&mut self) -> (r: Result<(), LayoutOverflow>)
        requires
            old(self).sound(),
        ensures
            match r {
                Ok(_) => final(self).sound() && old(self)@.advance_to_next_word() == Some(
                    final(self)@,
                ),
                Err(_) => old(self)@.advance_to_next_word() is None,
            },
    {
        self.word_buf.clear();
        assert(self@ =~= FormatterView { word_buf: Seq::empty(), ..old(self)@ });
        // behind the end of the text only its annotations are left
        let ghost begun = self@;
        if self.exhausted {
            match self.peek_grapheme(self.visual_pos.col, self.char_pos) {
                Ok(_) => {
                    proof {
                        lemma_peek_frame(begun, begun.visual_pos.col as int, begun.char_pos);
                    }
                },
                Err(_) => {
                    return Err(LayoutOverflow);
                },
            }
            if self.peeked_grapheme.is_none() {
                return Ok(());
            }
        }
        let ghost want = self@.fill_word();
        let edge: usize = self.text_fmt.viewport_width as usize;
        let max_wrap: usize = self.text_fmt.max_wrap as usize;
        let mut word_width: usize = 0;
        let mut word_chars: usize = 0;
        loop
            invariant
                self.sound(),
                self@.fill_word() == want,
                old(self)@.advance_to_next_word() == want,
                edge == self@.fmt.viewport_width,
                max_wrap == self@.fmt.max_wrap,
                word_width == total_width(self@.word_buf),
                word_chars == total_covered(self@.word_buf),
            decreases
                    (if self@.word_buf.len() < self@.word_limit() {
                        self@.word_limit() - self@.word_buf.len()
                    } else {
                        0
                    }),
        {
            let ghost before = self@;
            let col: usize = match self.visual_pos.col.checked_add(word_width) {
                Some(sum) => sum,
                None => {
                    return Err(LayoutOverflow);
                },
            };
            let char_pos: usize = match self.char_pos.checked_add(word_chars) {
                Some(sum) => sum,
                None => {
                    return Err(LayoutOverflow);
                },
            };
            let mut take_at: usize = col;
            if col >= edge {
                // The end of the text and line breaks can be selected. So a word that fits a
                // line perfectly is wrapped "too early": whatever can be selected stays visible,
                // and the cursor never disappears. Where the user has set a smaller width that
                // is not wanted: a word that ends at the edge may then be followed by the end
                // of the line.
                let mut stays = false;
                let at_edge = col == edge && self.text_fmt.soft_wrap_at_text_width;
                if at_edge || self.word_buf.len() == 0 {
                    match self.peek_grapheme(col, char_pos) {
                        Ok(_) => {},
                        Err(_) => {
                            return Err(LayoutOverflow);
                        },
                    }
                    proof {
                        lemma_peek_frame(before, col as int, char_pos);
                    }
                    stays = at_edge && match &self.peeked_grapheme {
                        Some(cell) => cell.is_newline() || cell.is_eof(),
                        None => false,
                    };
                }
                if !stays {
                    let ghost looked = self@;
                    if word_width > max_wrap {
                        if col > edge {
                            let ghost cells = self.word_buf@;
                            self.peeked_grapheme = self.word_buf.pop();
                            proof {
                                assert(cells.len() > 0);
                                assert(cell_views(self.word_buf@) =~= looked.word_buf.drop_last());
                                assert(looked.word_buf[cells.len() - 1] == cells[cells.len() - 1]@);
                                assert(self@ =~= FormatterView {
                                    peeked: Some(looked.word_buf.last()),
                                    word_buf: looked.word_buf.drop_last(),
                                    ..looked
                                });
                            }
                        }
                        return Ok(());
                    }
                    proof {
                        lemma_wrapped_covered(looked);
                    }
                    word_width = match self.wrap_word() {
                        Ok(width) => width,
                        Err(_) => {
                            return Err(LayoutOverflow);
                        },
                    };
                    take_at = self.visual_pos.col + word_width;
                }
            }
            match self.take_into_word(take_at, char_pos, word_width, word_chars) {
                Ok(Some((width, chars))) => {
                    word_width = width;
                    word_chars = chars;
                    proof {
                        lemma_word_grows(before);
                    }
                },
                Ok(None) => {
                    return Ok(());
                },
                Err(_) => {
                    return Err(LayoutOverflow);
                },
            }
        }
    }

    /// Puts `cell` on the screen.
    fn place(&mut self, cell: GraphemeWithSource) -> (r: Result<FormattedGrapheme, LayoutOverflow>)
        requires
            old(self).sound(),
        ensures
            match r {
                Ok(grapheme) => final(self).sound() && old(self)@.place(cell@) == Some(
                    (final(self)@, grapheme@),
                ),
                Err(_) => old(self)@.place(cell@) is None,
            },
    {
        let ghost view = cell@;
        // the row advance that a line end left to its annotations
        if self.pending_eol_row_advance && (!cell.after_line_end || !cell.source.is_virtual()) {
            let rows: usize = self.annotations.virtual_lines_at(
                self.char_pos,
                self.visual_pos,
                self.line_pos,
            );
            let row = next_row(self.visual_pos.row, rows);
            let line = self.line_pos.checked_add(1);
            match (row, line) {
                (Some(row), Some(line)) => {
                    self.visual_pos = Position { row, col: 0 };
                    self.line_pos = line;
                    self.pending_eol_row_advance = false;
                },
                _ => {
                    return Err(LayoutOverflow);
                },
            }
            assert(self@ =~= old(self)@.flush_line_end(view)->0);
        }
        let ghost flushed = self@;
        assert(old(self)@.flush_line_end(view) == Some(flushed));
        let after_line_end = cell.after_line_end;
        let grapheme = FormattedGrapheme {
            raw: cell.grapheme,
            source: cell.source,
            visual_pos: self.visual_pos,
            line_idx: self.line_pos,
            char_idx: self.char_pos,
        };
        assert(grapheme@ =~= flushed.placed(view));
        self.char_pos = match self.char_pos.checked_add(grapheme.doc_chars()) {
            Some(sum) => sum,
            None => {
                return Err(LayoutOverflow);
            },
        };
        // a fold marker hides whole lines: go past them, so line numbers and anchors stay
        // correct behind the fold
        if let GraphemeSource::Fold { lines, .. } = grapheme.source {
            self.line_pos = match self.line_pos.checked_add(lines as usize) {
                Some(sum) => sum,
                None => {
                    return Err(LayoutOverflow);
                },
            };
        }
        if !grapheme.is_virtual() {
            self.annotations.process_virtual_text_anchors(&grapheme);
        }
        assert(self@ =~= flushed.pass(view)->0);
        let ghost passed = self@;
        let end: usize = match self.visual_pos.col.checked_add(grapheme.width()) {
            Some(sum) => sum,
            None => {
                return Err(LayoutOverflow);
            },
        };
        self.visual_pos.col = end;
        if grapheme.raw.is_newline() {
            if after_line_end {
                // annotations follow on this row
                self.pending_eol_row_advance = true;
            } else {
                let rows: usize = self.annotations.virtual_lines_at(
                    self.char_pos,
                    self.visual_pos,
                    self.line_pos,
                );
                let row: usize = match next_row(self.visual_pos.row, rows) {
                    Some(row) => row,
                    None => {
                        return Err(LayoutOverflow);
                    },
                };
                self.visual_pos = Position { row, col: 0 };
                if !grapheme.is_virtual() {
                    self.line_pos = match self.line_pos.checked_add(1) {
                        Some(sum) => sum,
                        None => {
                            return Err(LayoutOverflow);
                        },
                    };
                }
            }
        }
        assert(self@ =~= passed.step_over(view)->0);
        Ok(grapheme)
    }

    /// The next cell.
    fn fetch(&mut self) -> (r: Result<Option<GraphemeWithSource>, LayoutOverflow>)
        requires
            old(self).sound(),
        ensures
            match r {
                Ok(cell) => final(self).sound() && old(self)@.fetch() == Some(
                    (final(self)@, cell_view(cell)),
                ),
                Err(_) => old(self)@.fetch() is None,
            },
    {
        if self.text_fmt.soft_wrap {
            if self.word_i >= self.word_buf.len() {
                match self.advance_to_next_word() {
                    Ok(_) => {},
                    Err(_) => {
                        return Err(LayoutOverflow);
                    },
                }
                let ghost filled = self@;
                self.word_i = 0;
                assert(self@ =~= FormatterView { word_i: 0, ..filled });
            }
            let ghost ready = self@;
            if self.word_i < self.word_buf.len() {
                let i: usize = self.word_i;
                let mut cell = GraphemeWithSource::placeholder();
                std::mem::swap(&mut cell, &mut self.word_buf[i]);
                self.word_i = i + 1;
                assert(self@.word_buf =~= ready.word_buf.update(i as int, CellView::blank()));
                assert(self@ =~= FormatterView {
                    word_buf: ready.word_buf.update(i as int, CellView::blank()),
                    word_i: i + 1,
                    ..ready
                });
                Ok(Some(cell))
            } else {
                Ok(None)
            }
        } else {
            self.advance_grapheme(self.visual_pos.col, self.char_pos)
        }
    }

    /// The next grapheme and where it goes, or `None` behind the last one. If a position
    /// does not fit in a machine word, the layout ends there for good.
    pub fn next(&mut self) -> (r: Result<Option<FormattedGrapheme>, LayoutOverflow>)
        requires
            old(self).wf(),
        ensures
            final(self).wf(),
            match r {
                Ok(grapheme) => old(self)@.next() == Some(
                    (final(self)@, formatted_view(grapheme)),
                ),
                Err(_) => old(self)@.next() is None && final(self)@.overflowed,
            },
    {
        if self.overflowed {
            return Err(LayoutOverflow);
        }
        match self.fetch() {
            Ok(Some(cell)) => match self.place(cell) {
                Ok(grapheme) => Ok(Some(grapheme)),
                Err(_) => {
                    self.overflowed = true;
                    Err(LayoutOverflow)
                },
            },
            Ok(None) => Ok(None),
            Err(_) => {
                self.overflowed = true;
                Err(LayoutOverflow)
            },
        }
    }

    /// The char index at the end of the last grapheme.
    pub fn next_char_pos(&self) -> (pos: usize)
        ensures
            pos == self@.char_pos,
    {
        self.char_pos
    }

    /// The visual position at the end of the last grapheme.
    pub fn next_visual_pos(&self) -> (pos: Position)
        ensures
            pos == self@.visual_pos,
    {
        self.visual_pos
    }

    /// A formatter at the last block before `char_idx`. A block is a chunk which always
    /// ends with a line break.
    pub fn new_at_prev_checkpoint(
        text: RopeSlice<'t>,
        text_fmt: &'t TextFormat,
        annotations: TextAnnotations<L>,
        char_idx: usize,
    ) -> (formatter: Self)
        requires
            text_fmt.tab_width > 0,
        ensures
            formatter.wf(),
            formatter@ == FormatterView::at_checkpoint(
                rope_chars(text),
                *text_fmt,
                annotations@,
                char_idx as int,
            ),
            formatter@.doc.flatten() == rope_chars(text).skip(formatter@.char_pos as int),
            well_segmented(formatter@.doc),
            formatter@.fold_marker.flatten() == text_fmt.fold_marker@,
            well_segmented(formatter@.fold_marker),
            formatter@.wrap_indicator.flatten() == text_fmt.wrap_indicator@,
            well_segmented(formatter@.wrap_indicator),
            formatter@.on_its_line(),
            formatter@.word_inside(),
            rope_chars(text).len() <= u32::MAX ==> counted(formatter@.doc, annotations@.folds),
            ascii(rope_chars(text)) && folds_counted(annotations@.folds) ==> counted(
                formatter@.doc,
                annotations@.folds,
            ),
            counted(formatter@.doc, annotations@.folds) && text_fmt.fold_marker@.len() > 0
                ==> formatter@.in_step(),
            formatter@.visual_pos == (Position { row: 0, col: 0 }),
            formatter@.annotations.inline == annotations@.inline,
            formatter@.annotations.overlays == annotations@.overlays,
            formatter@.annotations.folds == annotations@.folds,
            formatter@.annotations.lines == L::after_reset(
                annotations@.lines,
                formatter@.char_pos,
            ),
            formatter@.char_pos <= char_idx,
            formatter@.char_pos > 0 ==> rope_chars(text)[formatter@.char_pos - 1] == '\n',
            annotations@.folds.len() == 0 ==> forall|k: int|
                formatter@.char_pos <= k < char_idx && k < rope_chars(text).len()
                    ==> #[trigger] rope_chars(text)[k] != '\n',
    {
        let ghost chars = rope_chars(text);
        let len: usize = text.len_chars();
        let target: usize = char_idx.min(len);
        let block_line_idx: usize = text.char_to_line(target);
        proof {
            lemma_line_start(chars, target as int);
            lemma_newlines_monotone(chars, target as int, len as int);
            assert(chars.take(len as int) =~= chars);
        }
        let mut block_char_idx: usize = text.line_to_char(block_line_idx);
        proof {
            lemma_line_start_unique(
                chars,
                block_line_idx as int,
                block_char_idx as int,
                line_start(chars, target as int),
            );
        }
        // Do not start inside a fold: go back to the line with its marker, not forward past
        // it. That way a caller that looks for an earlier position comes closer to the start
        // of the text every time.
        let ghost folds = annotations@.folds;
        loop
            invariant
                chars == rope_chars(text),
                len == chars.len(),
                folds == annotations@.folds,
                block_char_idx <= len,
                header(chars, folds, block_char_idx as int) == checkpoint(
                    chars,
                    folds,
                    char_idx as int,
                ),
            ensures
                fold_over(folds, 0, block_char_idx as int) is None,
            decreases block_char_idx,
        {
            match annotations.fold_reaching_over(block_char_idx) {
                Some(fold) => {
                    proof {
                        lemma_fold_over(folds, 0, block_char_idx as int);
                    }
                    let header_line: usize = text.char_to_line(fold.start_char);
                    proof {
                        lemma_line_start(chars, fold.start_char as int);
                        lemma_newlines_monotone(chars, fold.start_char as int, len as int);
                        assert(chars.take(len as int) =~= chars);
                    }
                    block_char_idx = text.line_to_char(header_line);
                    proof {
                        lemma_line_start_unique(
                            chars,
                            header_line as int,
                            block_char_idx as int,
                            line_start(chars, fold.start_char as int),
                        );
                    }
                },
                None => {
                    break;
                },
            }
        }
        assert(block_char_idx == checkpoint(chars, annotations@.folds, char_idx as int));
        let rest = slice_to_string(slice_from(text, block_char_idx));
        let doc = graphemes(&rest);
        let wrap_indicator = graphemes(&text_fmt.wrap_indicator);
        let fold_marker = graphemes(&text_fmt.fold_marker);
        proof {
            let (d, w, m) = (texts(doc@), texts(wrap_indicator@), texts(fold_marker@));
            let start = block_char_idx;
            law_checkpoint_is_a_line_start(chars, folds, char_idx as int);
            let line_begins = law_way_to_the_checkpoint(chars, folds, char_idx as int);
            law_block_starts_on_its_line(chars, *text_fmt, annotations@, start, d, w, m);
            law_block_starts_inside(chars, *text_fmt, annotations@, start, d, w, m);
            if chars.len() <= u32::MAX {
                law_short_texts_are_counted(d, folds);
            }
            if ascii(chars) && folds_counted(folds) {
                assert(ascii(d.flatten())) by {
                    assert forall|i: int| 0 <= i < d.flatten().len() implies #[trigger] d.flatten()[i]
                        <= '\u{7F}' by {
                        assert(d.flatten()[i] == chars[start + i]);
                    }
                }
                law_ascii_texts_are_counted(d, folds);
            }
            if counted(d, folds) && text_fmt.fold_marker@.len() > 0 {
                if m.len() == 0 {
                    assert(m.flatten().len() == 0);
                }
                law_block_starts_in_step(chars, *text_fmt, annotations@, start, d, w, m);
            }
        }
        Self::new_at_block(
            text,
            text_fmt,
            annotations,
            block_char_idx,
            doc,
            wrap_indicator,
            fold_marker,
        )
    }

    /// A formatter at the block that starts at `block_char_idx`, with the text from there
    /// on, the wrap indicator and the fold marker cut into graphemes.
    pub fn new_at_block(
        text: RopeSlice<'t>,
        text_fmt: &'t TextFormat,
        annotations: TextAnnotations<L>,
        block_char_idx: usize,
        doc: Vec<String>,
        wrap_indicator: Vec<String>,
        fold_marker: Vec<String>,
    ) -> (formatter: Self)
        requires
            text_fmt.tab_width > 0,
            block_char_idx <= rope_chars(text).len(),
        ensures
            formatter.wf(),
            formatter@ == FormatterView::at_block(
                rope_chars(text),
                *text_fmt,
                annotations@,
                block_char_idx,
                texts(doc@),
                texts(wrap_indicator@),
                texts(fold_marker@),
            ),
    {
        let line_pos: usize = text.char_to_line(block_char_idx);
        let mut annotations = annotations;
        annotations.reset_pos(block_char_idx);
        let formatter = DocumentFormatter {
            text_fmt,
            wrap_indicator,
            fold_marker,
            annotations,
            visual_pos: Position { row: 0, col: 0 },
            graphemes: GraphemeQueue::new(doc),
            char_pos: block_char_idx,
            line_pos,
            exhausted: false,
            inline_annotation_graphemes: None,
            text,
            eol_annotation_anchor: None,
            pending_eol_row_advance: false,
            fold_marker_graphemes: None,
            indent_level: None,
            peeked_grapheme: None,
            word_buf: Vec::with_capacity(64),
            word_i: 0,
            overflowed: false,
        };
        assert(cell_views(formatter.word_buf@) =~= Seq::<CellView>::empty());
        proof {
            lemma_seek(annotations@.inline_positions(), 0, block_char_idx as int);
        }
        formatter
    }
}

} // verus!
