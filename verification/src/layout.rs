//! What the formatter does, as functions of its state.
//!
//! Positions are machine words. A step in which one of them would not fit is no
//! step: the functions that add to positions give `None` then.

use crate::fold::Fold;
use crate::formatted::{CellView, FormattedView, GraphemeSource};
use crate::highlight::Highlight;
use crate::position::Position;
use crate::rope::{is_line_start, lemma_newlines_add, newlines};
use crate::text_annotations::{
    fold_over, lemma_fold_over, lemma_seek, AnnotationsView, LineAnnotation,
};
use crate::text_format::TextFormat;
use crate::unicode::grapheme_clusters;
use vstd::prelude::*;

verus! {

/// A fold marker of which some graphemes are still to be drawn. The hidden chars
/// and lines are attached to the last one.
#[verifier::ext_equal]
pub struct MarkerView {
    pub graphemes: Seq<Seq<char>>,
    pub highlight: Option<Highlight>,
    pub codepoints: u32,
    pub lines: u32,
}

/// The state of a `DocumentFormatter`.
#[verifier::ext_equal]
pub struct FormatterView<L: LineAnnotation> {
    pub fmt: TextFormat,
    /// The graphemes of the wrap indicator.
    pub wrap_indicator: Seq<Seq<char>>,
    /// The graphemes of the fold marker.
    pub fold_marker: Seq<Seq<char>>,
    /// The whole document.
    pub text: Seq<char>,
    pub annotations: AnnotationsView<L>,
    /// Where the next grapheme goes.
    pub visual_pos: Position,
    /// The graphemes of the document that have not been read.
    pub doc: Seq<Seq<char>>,
    /// The char position of the next grapheme.
    pub char_pos: usize,
    /// The document line of the next grapheme.
    pub line_pos: usize,
    /// Whether the blank behind the last char has been read.
    pub exhausted: bool,
    /// The rest of the inline annotation that is being drawn.
    pub inline: Option<(Seq<Seq<char>>, Option<Highlight>)>,
    /// The char at a line end whose annotations are being drawn.
    pub eol_anchor: Option<usize>,
    /// Whether the next visual line starts once those annotations are drawn.
    pub pending_eol: bool,
    /// The rest of the fold marker that is being drawn.
    pub marker: Option<MarkerView>,
    /// The indentation of the line, once it is known.
    pub indent_level: Option<usize>,
    /// A cell that was read too early.
    pub peeked: Option<CellView>,
    /// The cells of a word.
    pub word_buf: Seq<CellView>,
    /// The next cell of the word.
    pub word_i: int,
    /// Whether a position did not fit. No step leads on from there.
    pub overflowed: bool,
}

pub open spec fn fits(n: int) -> bool {
    n <= usize::MAX
}

/// The columns that cells take side by side.
pub open spec fn total_width(cells: Seq<CellView>) -> nat
    decreases cells.len(),
{
    if cells.len() == 0 {
        0
    } else {
        total_width(cells.drop_last()) + cells.last().grapheme.width()
    }
}

/// The chars of the document that cells stand for.
pub open spec fn total_covered(cells: Seq<CellView>) -> nat
    decreases cells.len(),
{
    if cells.len() == 0 {
        0
    } else {
        total_covered(cells.drop_last()) + cells.last().source.covered()
    }
}

/// Graphemes drawn side by side, from column `x` on.
pub open spec fn spelled_at(
    graphemes: Seq<Seq<char>>,
    x: int,
    tab_width: int,
    source: GraphemeSource,
) -> Seq<CellView>
    decreases graphemes.len(),
{
    if graphemes.len() == 0 {
        Seq::empty()
    } else {
        let before = spelled_at(graphemes.drop_last(), x, tab_width, source);
        before.push(
            CellView::spelled(graphemes.last(), x + total_width(before), tab_width, source),
        )
    }
}

/// Cells, with the mark for line ends.
pub open spec fn marked_cells(cells: Seq<CellView>, after_line_end: bool) -> Seq<CellView> {
    Seq::new(cells.len(), |i: int| cells[i].marked(after_line_end))
}

/// Cells moved side by side, from column `x` on.
pub open spec fn moved_to(cells: Seq<CellView>, x: int, tab_width: int) -> Seq<CellView>
    decreases cells.len(),
{
    if cells.len() == 0 {
        Seq::empty()
    } else {
        let before = moved_to(cells.drop_last(), x, tab_width);
        before.push(cells.last().moved_to(x + total_width(before), tab_width))
    }
}

/// How many graphemes from the front it takes to make up `span` chars, if there are
/// as many.
pub open spec fn graphemes_within(graphemes: Seq<Seq<char>>, span: int) -> nat
    decreases graphemes.len(),
{
    if span <= 0 || graphemes.len() == 0 {
        0
    } else {
        1 + graphemes_within(graphemes.drop_first(), span - graphemes[0].len())
    }
}

/// Whether a line break or the end of the text is at `char_pos`.
pub open spec fn line_ends_at(text: Seq<char>, char_pos: int) -> bool {
    ||| char_pos >= text.len()
    ||| text[char_pos] == '\n'
    ||| text[char_pos] == '\r' && char_pos + 1 < text.len() && text[char_pos + 1] == '\n'
}

/// The start of the line that `pos` is on.
pub open spec fn line_start(text: Seq<char>, pos: int) -> int
    decreases pos,
{
    if pos <= 0 || text[pos - 1] == '\n' {
        pos
    } else {
        line_start(text, pos - 1)
    }
}

/// The start of the first line above `block`, or of its own, that no fold reaches over. Where
/// one does, its marker is on a line above.
pub open spec fn header(text: Seq<char>, folds: Seq<Fold>, block: int) -> int
    decreases block,
{
    match fold_over(folds, 0, block) {
        Some(fold) => {
            proof {
                lemma_fold_over(folds, 0, block);
                lemma_line_start_bounds(text, fold.start_char as int);
            }
            header(text, folds, line_start(text, fold.start_char as int))
        },
        None => block,
    }
}

/// Where the layout starts that is to reach `char_idx`: at the start of its line, or, as it
/// does not start inside of a fold, of the line with the marker of the fold.
pub open spec fn checkpoint(text: Seq<char>, folds: Seq<Fold>, char_idx: int) -> int {
    header(
        text,
        folds,
        line_start(
            text,
            if char_idx <= text.len() {
                char_idx
            } else {
                text.len() as int
            },
        ),
    )
}

impl<L: LineAnnotation> FormatterView<L> {
    /// The state at `start`, with the document from there on, the wrap indicator and the
    /// fold marker cut into graphemes.
    pub open spec fn at_block(
        text: Seq<char>,
        fmt: TextFormat,
        annotations: AnnotationsView<L>,
        start: usize,
        doc: Seq<Seq<char>>,
        wrap_indicator: Seq<Seq<char>>,
        fold_marker: Seq<Seq<char>>,
    ) -> Self {
        FormatterView {
            fmt,
            wrap_indicator,
            fold_marker,
            text,
            annotations: annotations.reset(start),
            visual_pos: Position { row: 0, col: 0 },
            doc,
            char_pos: start,
            line_pos: newlines(text.take(start as int)) as usize,
            exhausted: false,
            inline: None,
            eol_anchor: None,
            pending_eol: false,
            marker: None,
            indent_level: None,
            peeked: None,
            word_buf: Seq::empty(),
            word_i: 0,
            overflowed: false,
        }
    }

    /// The state at the checkpoint before `char_idx`.
    pub open spec fn at_checkpoint(
        text: Seq<char>,
        fmt: TextFormat,
        annotations: AnnotationsView<L>,
        char_idx: int,
    ) -> Self {
        let start = checkpoint(text, annotations.folds, char_idx);
        FormatterView::at_block(
            text,
            fmt,
            annotations,
            start as usize,
            grapheme_clusters(text.skip(start)),
            grapheme_clusters(fmt.wrap_indicator@),
            grapheme_clusters(fmt.fold_marker@),
        )
    }

    /// The next grapheme of the inline annotations of the char at `char_pos`. An
    /// annotation that was begun goes on first.
    pub open spec fn take_inline(self, char_pos: usize) -> (Self, Option<
        (Seq<char>, Option<Highlight>),
    >)
        decreases self.annotations.inline.len() - self.annotations.next_inline,
    {
        if self.inline is Some && (self.inline->0).0.len() > 0 {
            let (graphemes, highlight) = self.inline->0;
            (
                FormatterView { inline: Some((graphemes.drop_first(), highlight)), ..self },
                Some((graphemes.first(), highlight)),
            )
        } else {
            let (annotations, found) = self.annotations.take_inline(char_pos);
            match found {
                Some(annotation) => {
                    proof {
                        lemma_seek(
                            self.annotations.inline_positions(),
                            self.annotations.next_inline,
                            char_pos as int,
                        );
                    }
                    FormatterView {
                        annotations,
                        inline: Some((grapheme_clusters(annotation.text), annotation.highlight)),
                        ..self
                    }.take_inline(char_pos)
                },
                None => (FormatterView { annotations, ..self }, None),
            }
        }
    }

    /// The next cell of a fold marker that was begun. The last cell carries the
    /// hidden chars and lines, the others are virtual text.
    pub open spec fn take_marker(self, col: int) -> (Self, Option<CellView>) {
        match self.marker {
            Some(marker) => if marker.graphemes.len() == 0 {
                (self, None)
            } else {
                let last = marker.graphemes.len() == 1;
                let source = if last {
                    GraphemeSource::Fold {
                        highlight: marker.highlight,
                        codepoints: marker.codepoints,
                        lines: marker.lines,
                    }
                } else {
                    GraphemeSource::VirtualText { highlight: marker.highlight }
                };
                (
                    FormatterView {
                        marker: if last {
                            None
                        } else {
                            Some(
                                MarkerView { graphemes: marker.graphemes.drop_first(), ..marker },
                            )
                        },
                        ..self
                    },
                    Some(
                        CellView::spelled(
                            marker.graphemes.first(),
                            col,
                            self.fmt.tab_width as int,
                            source,
                        ),
                    ),
                )
            },
            None => (self, None),
        }
    }

    /// The chars that a fold of `span` chars hides: whole graphemes.
    pub open spec fn hidden(self, span: int) -> Seq<char> {
        self.doc.take(graphemes_within(self.doc, span) as int).flatten()
    }

    /// The state with the graphemes of a fold skipped and its marker begun.
    pub open spec fn begin_fold(self, char_pos: usize, fold: Fold) -> Option<Self> {
        let span = fold.end_char - char_pos;
        let hidden = self.hidden(span);
        if fits(hidden.len() as int) && newlines(hidden) <= u32::MAX {
            Some(
                FormatterView {
                    doc: self.doc.skip(graphemes_within(self.doc, span) as int),
                    marker: Some(
                        MarkerView {
                            graphemes: self.fold_marker,
                            highlight: self.fmt.fold_marker_highlight,
                            codepoints: hidden.len() as u32,
                            lines: newlines(hidden) as u32,
                        },
                    ),
                    ..self
                },
            )
        } else {
            None
        }
    }

    /// The next cell of the text and its inline annotations, where no fold is near.
    /// Annotations of a char that ends a line come behind that char.
    pub open spec fn advance_in_text(self, col: int, char_pos: usize) -> (Self, Option<CellView>) {
        let line_end = line_ends_at(self.text, char_pos as int) && self.annotations.take_inline(
            char_pos,
        ).1 is Some;
        let (s, found) = if line_end {
            (FormatterView { eol_anchor: Some(char_pos), ..self }, None)
        } else {
            self.take_inline(char_pos)
        };
        let tab_width = self.fmt.tab_width as int;
        match found {
            Some((g, highlight)) => (
                s,
                Some(
                    CellView::spelled(
                        g,
                        col,
                        tab_width,
                        GraphemeSource::VirtualText { highlight },
                    ).marked(line_end),
                ),
            ),
            None => if s.doc.len() > 0 {
                let (annotations, overlay) = s.annotations.take_overlay(char_pos);
                let g = match overlay {
                    Some(overlay) => overlay.grapheme,
                    None => s.doc.first(),
                };
                (
                    FormatterView { doc: s.doc.drop_first(), annotations, ..s },
                    Some(
                        CellView::spelled(
                            g,
                            col,
                            tab_width,
                            GraphemeSource::Document { codepoints: s.doc.first().len() as u32 },
                        ).marked(line_end),
                    ),
                )
            } else if s.exhausted {
                (s, None)
            } else {
                (
                    FormatterView { exhausted: true, ..s },
                    Some(CellView::blank().marked(line_end)),
                )
            },
        }
    }

    /// The next cell, behind the annotations of a line end.
    pub open spec fn advance_past_line_end(self, col: int, char_pos: usize) -> Option<
        (Self, Option<CellView>),
    > {
        let (s, cell) = self.take_marker(col);
        if cell is Some {
            Some((s, cell))
        } else {
            match s.annotations.fold_at_start(char_pos) {
                Some(fold) => match s.begin_fold(char_pos, fold) {
                    Some(begun) => Some(begun.take_marker(col)),
                    None => None,
                },
                None => Some(s.advance_in_text(col, char_pos)),
            }
        }
    }

    /// The next cell, to be drawn at column `col`, where the document has been read up
    /// to `char_pos`.
    pub open spec fn advance(self, col: int, char_pos: usize) -> Option<
        (Self, Option<CellView>),
    > {
        match self.eol_anchor {
            Some(anchor) => {
                let (s, found) = self.take_inline(anchor);
                match found {
                    Some((g, highlight)) => Some(
                        (
                            s,
                            Some(
                                CellView::spelled(
                                    g,
                                    col,
                                    self.fmt.tab_width as int,
                                    GraphemeSource::VirtualText { highlight },
                                ).marked(true),
                            ),
                        ),
                    ),
                    None => FormatterView { eol_anchor: None, ..s }.advance_past_line_end(
                        col,
                        char_pos,
                    ),
                }
            },
            None => self.advance_past_line_end(col, char_pos),
        }
    }

    /// The state after a look at the next cell.
    pub open spec fn peek(self, col: int, char_pos: usize) -> Option<Self> {
        if self.peeked is Some {
            Some(self)
        } else {
            match self.advance(col, char_pos) {
                Some((s, cell)) => Some(FormatterView { peeked: cell, ..s }),
                None => None,
            }
        }
    }

    /// The indentation that a wrapped line keeps.
    pub open spec fn carried_indent(self) -> int {
        match self.indent_level {
            Some(indent) => if indent as u16 <= self.fmt.max_indent_retain {
                (indent as u16) as int
            } else {
                0
            },
            None => 0,
        }
    }

    /// Whether the next cell is of an annotation of a line end.
    pub open spec fn behind_line_end(self) -> bool {
        if self.word_buf.len() > 0 {
            self.word_buf[0].annotates_line_end()
        } else {
            self.peeked is Some && self.peeked->0.annotates_line_end()
        }
    }

    /// The wrap indicator, drawn behind the indentation that is kept. If the word that it
    /// precedes is of an annotation of a line end, so is the indicator: the row below is still
    /// owed.
    pub open spec fn indicator(self) -> Seq<CellView> {
        marked_cells(
            spelled_at(
                self.wrap_indicator,
                self.carried_indent(),
                self.fmt.tab_width as int,
                GraphemeSource::VirtualText { highlight: self.fmt.wrap_indicator_highlight },
            ),
            self.behind_line_end(),
        )
    }

    /// The cells of the word on the next visual line: the wrap indicator, then the word.
    pub open spec fn wrapped_word(self) -> Seq<CellView> {
        self.indicator() + moved_to(
            self.word_buf,
            self.carried_indent() + total_width(self.indicator()),
            self.fmt.tab_width as int,
        )
    }

    /// The state with the word moved to the next visual line.
    pub open spec fn wrap_word(self) -> Option<Self> {
        let rows = self.annotations.rows_at(self.char_pos, self.visual_pos, self.line_pos);
        let row = self.visual_pos.row + 1 + rows;
        let indent = self.carried_indent();
        let word = self.wrapped_word();
        let end = indent + total_width(word);
        if fits(row) && fits(end) {
            Some(
                FormatterView {
                    indent_level: match self.indent_level {
                        Some(_) => self.indent_level,
                        None => Some(0usize),
                    },
                    annotations: self.annotations.after_rows(
                        self.char_pos,
                        self.visual_pos,
                        self.line_pos,
                    ),
                    visual_pos: Position { row: row as usize, col: indent as usize },
                    word_buf: word,
                    peeked: match self.peeked {
                        Some(cell) => Some(cell.moved_to(end, self.fmt.tab_width as int)),
                        None => None,
                    },
                    ..self
                },
            )
        } else {
            None
        }
    }

    /// The state with one more cell in the word, and whether the word goes on.
    pub open spec fn take_into_word(self, col: int, char_pos: usize) -> Option<(Self, bool)> {
        match self.peek(col, char_pos) {
            Some(s) => match s.peeked {
                Some(cell) => {
                    let word = s.word_buf.push(cell);
                    if fits(total_width(word) as int) && fits(total_covered(word) as int) {
                        Some(
                            (
                                FormatterView {
                                    peeked: None,
                                    word_buf: word,
                                    indent_level: if !cell.grapheme.is_whitespace()
                                        && s.indent_level is None {
                                        Some(s.visual_pos.col)
                                    } else if cell.grapheme is Newline {
                                        None
                                    } else {
                                        s.indent_level
                                    },
                                    ..s
                                },
                                !cell.grapheme.is_word_boundary(),
                            ),
                        )
                    } else {
                        None
                    }
                },
                None => Some((s, false)),
            },
            None => None,
        }
    }

    /// Whether the cell that was read too early ends the line.
    pub open spec fn line_end_peeked(self) -> bool {
        match self.peeked {
            Some(cell) => cell.grapheme is Newline || cell.source.at_end_of_text(),
            None => false,
        }
    }

    /// One step in filling a word, and whether the word goes on. A word that reaches
    /// the edge is moved to the next visual line; one that is too wide for that is
    /// cut there. The end of the line may stand behind the edge if the format says so.
    pub open spec fn word_step(self) -> Option<(Self, bool)> {
        let width = total_width(self.word_buf);
        let col = self.visual_pos.col + width;
        let pos = self.char_pos + total_covered(self.word_buf);
        let edge = self.fmt.viewport_width as int;
        if !fits(col) || !fits(pos) {
            None
        } else if col < edge {
            self.take_into_word(col, pos as usize)
        } else {
            let looked = if col == edge && self.fmt.soft_wrap_at_text_width
                || self.word_buf.len() == 0 {
                self.peek(col, pos as usize)
            } else {
                Some(self)
            };
            match looked {
                None => None,
                Some(s) => if col == edge && s.fmt.soft_wrap_at_text_width && s.line_end_peeked() {
                    s.take_into_word(col, pos as usize)
                } else if width > s.fmt.max_wrap {
                    if col == edge {
                        Some((s, false))
                    } else {
                        Some(
                            (
                                FormatterView {
                                    peeked: Some(s.word_buf.last()),
                                    word_buf: s.word_buf.drop_last(),
                                    ..s
                                },
                                false,
                            ),
                        )
                    }
                } else {
                    match s.wrap_word() {
                        None => None,
                        Some(w) => w.take_into_word(
                            w.visual_pos.col + total_width(w.word_buf),
                            pos as usize,
                        ),
                    }
                },
            }
        }
    }

    /// Whether every cell that waits takes a column.
    pub open spec fn cells_show(self) -> bool {
        &&& self.fmt.tab_width > 0
        &&& forall|i: int|
            0 <= i < self.word_buf.len() ==> (#[trigger] self.word_buf[i]).grapheme.width() >= 1
        &&& self.peeked is Some ==> self.peeked->0.grapheme.width() >= 1
    }

    /// A word with this many cells has reached the edge and is too wide to be moved.
    pub open spec fn word_limit(self) -> int {
        if self.fmt.viewport_width >= self.fmt.max_wrap {
            self.fmt.viewport_width + 1
        } else {
            self.fmt.max_wrap + 1
        }
    }

    /// The state with the word filled.
    pub open spec fn fill_word(self) -> Option<Self>
        decreases
                (if self.word_buf.len() < self.word_limit() {
                    self.word_limit() - self.word_buf.len()
                } else {
                    0
                }),
            when self.cells_show()
    {
        match self.word_step() {
            None => None,
            Some((s, go_on)) => if go_on {
                proof {
                    lemma_word_grows(self);
                }
                s.fill_word()
            } else {
                Some(s)
            },
        }
    }

    /// The state with the next word in the buffer. Behind the end of the text there are the
    /// words of its annotations, and then none.
    pub open spec fn advance_to_next_word(self) -> Option<Self> {
        let s = FormatterView { word_buf: Seq::empty(), ..self };
        if s.exhausted {
            match s.peek(s.visual_pos.col as int, s.char_pos) {
                Some(t) => if t.peeked is Some {
                    t.fill_word()
                } else {
                    Some(t)
                },
                None => None,
            }
        } else {
            s.fill_word()
        }
    }

    /// The next cell.
    pub open spec fn fetch(self) -> Option<(Self, Option<CellView>)> {
        if self.fmt.soft_wrap {
            let ready = if self.word_i >= self.word_buf.len() {
                match self.advance_to_next_word() {
                    Some(s) => Some(FormatterView { word_i: 0, ..s }),
                    None => None,
                }
            } else {
                Some(self)
            };
            match ready {
                None => None,
                Some(s) => if s.word_i < s.word_buf.len() {
                    Some(
                        (
                            FormatterView {
                                word_buf: s.word_buf.update(s.word_i, CellView::blank()),
                                word_i: s.word_i + 1,
                                ..s
                            },
                            Some(s.word_buf[s.word_i]),
                        ),
                    )
                } else {
                    Some((s, None))
                },
            }
        } else {
            self.advance(self.visual_pos.col as int, self.char_pos)
        }
    }

    /// The state after the row advance that a line end left to its annotations: those have been
    /// drawn when anything else comes, be it the next line end.
    pub open spec fn flush_line_end(self, cell: CellView) -> Option<Self> {
        if self.pending_eol && (!cell.after_line_end || cell.source is Document) {
            let rows = self.annotations.rows_at(self.char_pos, self.visual_pos, self.line_pos);
            let row = self.visual_pos.row + 1 + rows;
            if fits(row) && fits(self.line_pos + 1) {
                Some(
                    FormatterView {
                        annotations: self.annotations.after_rows(
                            self.char_pos,
                            self.visual_pos,
                            self.line_pos,
                        ),
                        visual_pos: Position { row: row as usize, col: 0 },
                        line_pos: (self.line_pos + 1) as usize,
                        pending_eol: false,
                        ..self
                    },
                )
            } else {
                None
            }
        } else {
            Some(self)
        }
    }

    /// A cell, at the place that the state gives it.
    pub open spec fn placed(self, cell: CellView) -> FormattedView {
        FormattedView {
            raw: cell.grapheme,
            source: cell.source,
            visual_pos: self.visual_pos,
            line_idx: self.line_pos,
            char_idx: self.char_pos,
        }
    }

    /// The state with the document read past `cell`: its chars, the lines that it hides
    /// if it is a fold marker, and the line annotations that hear of it.
    pub open spec fn pass(self, cell: CellView) -> Option<Self> {
        let pos = self.char_pos + cell.source.covered();
        let line = match cell.source {
            GraphemeSource::Fold { lines, .. } => self.line_pos + lines,
            _ => self.line_pos as int,
        };
        if fits(pos) && fits(line) {
            Some(
                FormatterView {
                    char_pos: pos as usize,
                    line_pos: line as usize,
                    annotations: if cell.source is Document {
                        self.annotations.after_grapheme(self.placed(cell))
                    } else {
                        self.annotations
                    },
                    ..self
                },
            )
        } else {
            None
        }
    }

    /// The state with the screen position moved past `cell`. A line break starts the next
    /// visual line, unless annotations follow it on its own.
    pub open spec fn step_over(self, cell: CellView) -> Option<Self> {
        let end = self.visual_pos.col + cell.grapheme.width();
        if !fits(end) {
            None
        } else {
            let at_end = Position { row: self.visual_pos.row, col: end as usize };
            if cell.grapheme is Newline && !cell.after_line_end {
                let rows = self.annotations.rows_at(self.char_pos, at_end, self.line_pos);
                let row = self.visual_pos.row + 1 + rows;
                let line = self.line_pos + if cell.source is Document {
                    1int
                } else {
                    0int
                };
                if fits(row) && fits(line) {
                    Some(
                        FormatterView {
                            annotations: self.annotations.after_rows(
                                self.char_pos,
                                at_end,
                                self.line_pos,
                            ),
                            visual_pos: Position { row: row as usize, col: 0 },
                            line_pos: line as usize,
                            ..self
                        },
                    )
                } else {
                    None
                }
            } else {
                Some(
                    FormatterView {
                        visual_pos: at_end,
                        pending_eol: self.pending_eol || cell.grapheme is Newline,
                        ..self
                    },
                )
            }
        }
    }

    /// The state with `cell` put on the screen, and where it went.
    pub open spec fn place(self, cell: CellView) -> Option<(Self, FormattedView)> {
        match self.flush_line_end(cell) {
            None => None,
            Some(s) => match s.pass(cell) {
                None => None,
                Some(passed) => match passed.step_over(cell) {
                    None => None,
                    Some(after) => Some((after, s.placed(cell))),
                },
            },
        }
    }

    /// One step of the layout: the state after it, and the grapheme that it gives, if
    /// any is left.
    pub open spec fn next(self) -> Option<(Self, Option<FormattedView>)> {
        if self.overflowed {
            None
        } else {
            match self.fetch() {
                None => None,
                Some((s, None)) => Some((s, None)),
                Some((s, Some(cell))) => match s.place(cell) {
                    None => None,
                    Some((after, grapheme)) => Some((after, Some(grapheme))),
                },
            }
        }
    }
}

/// Cells that take a column each are at least as wide as they are many.
pub proof fn lemma_width_of_cells(cells: Seq<CellView>)
    requires
        forall|i: int| 0 <= i < cells.len() ==> (#[trigger] cells[i]).grapheme.width() >= 1,
    ensures
        total_width(cells) >= cells.len(),
    decreases cells.len(),
{
    if cells.len() > 0 {
        let init = cells.drop_last();
        assert forall|i: int| 0 <= i < init.len() implies (
        #[trigger] init[i]).grapheme.width() >= 1 by {
            assert(cells[i].grapheme.width() >= 1);
        }
        lemma_width_of_cells(init);
        assert(cells[cells.len() - 1].grapheme.width() >= 1);
    }
}

/// Moving cells keeps their number.
pub proof fn lemma_moved_len(cells: Seq<CellView>, x: int, tab_width: int)
    ensures
        moved_to(cells, x, tab_width).len() == cells.len(),
    decreases cells.len(),
{
    if cells.len() > 0 {
        lemma_moved_len(cells.drop_last(), x, tab_width);
    }
}

/// Drawing inline annotations changes nothing but how far they have been drawn.
pub proof fn lemma_take_inline_frame<L: LineAnnotation>(s: FormatterView<L>, char_pos: usize)
    ensures
        ({
            let after = s.take_inline(char_pos).0;
            after == FormatterView {
                annotations: AnnotationsView {
                    next_inline: after.annotations.next_inline,
                    ..s.annotations
                },
                inline: after.inline,
                ..s
            }
        }),
        s.take_inline(char_pos).0.annotations.next_inline >= s.annotations.next_inline,
    decreases s.annotations.inline.len() - s.annotations.next_inline,
{
    if !(s.inline is Some && (s.inline->0).0.len() > 0) {
        let (annotations, found) = s.annotations.take_inline(char_pos);
        lemma_seek(
            s.annotations.inline_positions(),
            s.annotations.next_inline,
            char_pos as int,
        );
        match found {
            Some(annotation) => {
                lemma_take_inline_frame(
                    FormatterView {
                        annotations,
                        inline: Some((grapheme_clusters(annotation.text), annotation.highlight)),
                        ..s
                    },
                    char_pos,
                );
            },
            None => {},
        }
    }
}

/// Reading a cell changes nothing but what is left to read.
pub proof fn lemma_advance_frame<L: LineAnnotation>(s: FormatterView<L>, col: int, char_pos: usize)
    requires
        s.advance(col, char_pos) is Some,
    ensures
        ({
            let after = (s.advance(col, char_pos)->0).0;
            after == FormatterView {
                annotations: AnnotationsView {
                    next_inline: after.annotations.next_inline,
                    next_overlay: after.annotations.next_overlay,
                    ..s.annotations
                },
                doc: after.doc,
                exhausted: after.exhausted,
                inline: after.inline,
                eol_anchor: after.eol_anchor,
                marker: after.marker,
                ..s
            }
        }),
{
    lemma_take_inline_frame(s, char_pos);
    match s.eol_anchor {
        Some(anchor) => {
            lemma_take_inline_frame(s, anchor);
            let s1 = FormatterView { eol_anchor: None, ..s.take_inline(anchor).0 };
            lemma_take_inline_frame(s1, char_pos);
            lemma_take_inline_frame(s1.take_marker(col).0, char_pos);
        },
        None => {
            lemma_take_inline_frame(s.take_marker(col).0, char_pos);
        },
    }
}

/// A look at the next cell changes nothing but what is left to read.
pub proof fn lemma_peek_frame<L: LineAnnotation>(s: FormatterView<L>, col: int, char_pos: usize)
    requires
        s.peek(col, char_pos) is Some,
    ensures
        ({
            let after = s.peek(col, char_pos)->0;
            after == FormatterView {
                annotations: AnnotationsView {
                    next_inline: after.annotations.next_inline,
                    next_overlay: after.annotations.next_overlay,
                    ..s.annotations
                },
                doc: after.doc,
                exhausted: after.exhausted,
                inline: after.inline,
                eol_anchor: after.eol_anchor,
                marker: after.marker,
                peeked: after.peeked,
                ..s
            }
        }),
{
    if s.peeked is None {
        lemma_advance_frame(s, col, char_pos);
    }
}

/// A word that goes on has grown, and has not reached its limit before.
pub proof fn lemma_word_grows<L: LineAnnotation>(s: FormatterView<L>)
    requires
        s.cells_show(),
        s.word_step() is Some,
        (s.word_step()->0).1,
    ensures
        s.word_buf.len() < s.word_limit(),
        (s.word_step()->0).0.word_buf.len() > s.word_buf.len(),
        (s.word_step()->0).0.fmt == s.fmt,
{
    let width = total_width(s.word_buf);
    let col = s.visual_pos.col + width;
    let pos = (s.char_pos + total_covered(s.word_buf)) as usize;
    lemma_width_of_cells(s.word_buf);
    if col < s.fmt.viewport_width {
        lemma_peek_frame(s, col, pos);
    } else {
        let looked = if col == s.fmt.viewport_width && s.fmt.soft_wrap_at_text_width
            || s.word_buf.len() == 0 {
            lemma_peek_frame(s, col, pos);
            s.peek(col, pos)->0
        } else {
            s
        };
        if col == s.fmt.viewport_width && s.fmt.soft_wrap_at_text_width
            && looked.line_end_peeked() {
            lemma_peek_frame(looked, col, pos);
        } else {
            lemma_moved_len(
                s.word_buf,
                s.carried_indent() + total_width(looked.indicator()),
                s.fmt.tab_width as int,
            );
            let w = looked.wrap_word()->0;
            lemma_peek_frame(w, w.visual_pos.col + total_width(w.word_buf), pos);
        }
    }
}

/// One more piece at the end.
pub proof fn lemma_flatten_take_step(pieces: Seq<Seq<char>>, n: int)
    requires
        0 <= n < pieces.len(),
    ensures
        pieces.take(n + 1).flatten() == pieces.take(n).flatten() + pieces[n],
{
    let longer = pieces.take(n + 1);
    assert(longer.drop_last() =~= pieces.take(n));
    longer.lemma_flatten_and_flatten_alt_are_equivalent();
    pieces.take(n).lemma_flatten_and_flatten_alt_are_equivalent();
}

/// More pieces make up no less text, and no fewer lines.
pub proof fn lemma_flatten_take_monotone(pieces: Seq<Seq<char>>, n: int, m: int)
    requires
        0 <= n <= m <= pieces.len(),
    ensures
        pieces.take(n).flatten().len() <= pieces.take(m).flatten().len(),
        newlines(pieces.take(n).flatten()) <= newlines(pieces.take(m).flatten()),
    decreases m - n,
{
    if n < m {
        lemma_flatten_take_monotone(pieces, n, m - 1);
        lemma_flatten_take_step(pieces, m - 1);
        lemma_newlines_add(pieces.take(m - 1).flatten(), pieces[m - 1]);
    }
}

/// A fold takes as many graphemes as there are at most.
pub proof fn lemma_graphemes_within(graphemes: Seq<Seq<char>>, span: int)
    ensures
        graphemes_within(graphemes, span) <= graphemes.len(),
    decreases graphemes.len(),
{
    if span > 0 && graphemes.len() > 0 {
        lemma_graphemes_within(graphemes.drop_first(), span - graphemes[0].len());
    }
}

/// The width of a row of cells is that of its parts.
pub proof fn lemma_total_width_add(a: Seq<CellView>, b: Seq<CellView>)
    ensures
        total_width(a + b) == total_width(a) + total_width(b),
    decreases b.len(),
{
    if b.len() == 0 {
        assert(a + b =~= a);
    } else {
        assert((a + b).drop_last() =~= a + b.drop_last());
        lemma_total_width_add(a, b.drop_last());
    }
}

/// The mark for line ends changes nothing in the width of cells and what they stand for.
pub proof fn lemma_marked_cells(cells: Seq<CellView>, after_line_end: bool)
    ensures
        total_width(marked_cells(cells, after_line_end)) == total_width(cells),
        total_covered(marked_cells(cells, after_line_end)) == total_covered(cells),
    decreases cells.len(),
{
    if cells.len() > 0 {
        lemma_marked_cells(cells.drop_last(), after_line_end);
        assert(marked_cells(cells, after_line_end).drop_last() =~= marked_cells(
            cells.drop_last(),
            after_line_end,
        ));
    }
}

/// Fewer graphemes are as wide at most.
pub proof fn lemma_spelled_prefix(
    graphemes: Seq<Seq<char>>,
    k: int,
    x: int,
    tab_width: int,
    source: GraphemeSource,
)
    requires
        0 <= k <= graphemes.len(),
    ensures
        total_width(spelled_at(graphemes.take(k), x, tab_width, source)) <= total_width(
            spelled_at(graphemes, x, tab_width, source),
        ),
        spelled_at(graphemes, x, tab_width, source).len() == graphemes.len(),
    decreases graphemes.len(),
{
    if k == graphemes.len() {
        assert(graphemes.take(k) =~= graphemes);
        if graphemes.len() > 0 {
            lemma_spelled_prefix(graphemes.drop_last(), k - 1, x, tab_width, source);
        }
    } else {
        let init = graphemes.drop_last();
        assert(graphemes.take(k) =~= init.take(k));
        lemma_spelled_prefix(init, k, x, tab_width, source);
        let before = spelled_at(init, x, tab_width, source);
        assert(spelled_at(graphemes, x, tab_width, source).drop_last() =~= before);
    }
}

/// Fewer cells are as wide at most.
pub proof fn lemma_moved_prefix(cells: Seq<CellView>, k: int, x: int, tab_width: int)
    requires
        0 <= k <= cells.len(),
    ensures
        total_width(moved_to(cells.take(k), x, tab_width)) <= total_width(
            moved_to(cells, x, tab_width),
        ),
    decreases cells.len(),
{
    if k == cells.len() {
        assert(cells.take(k) =~= cells);
    } else {
        let init = cells.drop_last();
        assert(cells.take(k) =~= init.take(k));
        lemma_moved_prefix(init, k, x, tab_width);
        let before = moved_to(init, x, tab_width);
        assert(moved_to(cells, x, tab_width).drop_last() =~= before);
    }
}

/// Moving cells changes nothing in the chars that they stand for.
pub proof fn lemma_moved_covered(cells: Seq<CellView>, x: int, tab_width: int)
    ensures
        total_covered(moved_to(cells, x, tab_width)) == total_covered(cells),
    decreases cells.len(),
{
    if cells.len() > 0 {
        lemma_moved_covered(cells.drop_last(), x, tab_width);
        let before = moved_to(cells.drop_last(), x, tab_width);
        assert(moved_to(cells, x, tab_width).drop_last() =~= before);
    }
}

/// Virtual text stands for no chars.
pub proof fn lemma_virtual_covered(
    graphemes: Seq<Seq<char>>,
    x: int,
    tab_width: int,
    highlight: Option<Highlight>,
)
    ensures
        total_covered(
            spelled_at(graphemes, x, tab_width, GraphemeSource::VirtualText { highlight }),
        ) == 0,
    decreases graphemes.len(),
{
    let source = GraphemeSource::VirtualText { highlight };
    if graphemes.len() > 0 {
        lemma_virtual_covered(graphemes.drop_last(), x, tab_width, highlight);
        let before = spelled_at(graphemes.drop_last(), x, tab_width, source);
        assert(spelled_at(graphemes, x, tab_width, source).drop_last() =~= before);
    }
}

/// The chars that a row of cells stands for are those of its parts.
pub proof fn lemma_total_covered_add(a: Seq<CellView>, b: Seq<CellView>)
    ensures
        total_covered(a + b) == total_covered(a) + total_covered(b),
    decreases b.len(),
{
    if b.len() == 0 {
        assert(a + b =~= a);
    } else {
        assert((a + b).drop_last() =~= a + b.drop_last());
        lemma_total_covered_add(a, b.drop_last());
    }
}

/// Wrapping a word changes nothing in the chars that it stands for.
pub proof fn lemma_wrapped_covered<L: LineAnnotation>(s: FormatterView<L>)
    ensures
        total_covered(s.wrapped_word()) == total_covered(s.word_buf),
{
    let tab_width = s.fmt.tab_width as int;
    let source = GraphemeSource::VirtualText { highlight: s.fmt.wrap_indicator_highlight };
    let indicator = s.indicator();
    let x = s.carried_indent() + total_width(indicator);
    lemma_virtual_covered(
        s.wrap_indicator,
        s.carried_indent(),
        tab_width,
        s.fmt.wrap_indicator_highlight,
    );
    lemma_marked_cells(
        spelled_at(s.wrap_indicator, s.carried_indent(), tab_width, source),
        s.behind_line_end(),
    );
    lemma_moved_covered(s.word_buf, x, tab_width);
    lemma_total_covered_add(indicator, moved_to(s.word_buf, x, tab_width));
}

/// A line starts at a char of it or before that.
pub proof fn lemma_line_start_bounds(text: Seq<char>, pos: int)
    requires
        0 <= pos,
    ensures
        0 <= line_start(text, pos) <= pos,
    decreases pos,
{
    if pos > 0 && text[pos - 1] != '\n' {
        lemma_line_start_bounds(text, pos - 1);
    }
}

/// Where `line_start` points.
pub proof fn lemma_line_start(text: Seq<char>, pos: int)
    requires
        0 <= pos <= text.len(),
    ensures
        0 <= line_start(text, pos) <= pos,
        is_line_start(text, newlines(text.take(pos)) as int, line_start(text, pos)),
    decreases pos,
{
    if pos > 0 && text[pos - 1] != '\n' {
        lemma_line_start(text, pos - 1);
        assert(text.take(pos).drop_last() =~= text.take(pos - 1));
    }
}

} // verus!
