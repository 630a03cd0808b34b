//! Graphemes together with where they come from and where they go.

use crate::graphemes::{Grapheme, GraphemeView};
use crate::highlight::Highlight;
use crate::position::Position;
use vstd::prelude::*;

verus! {

/// Where a grapheme comes from.
#[derive(Debug, Clone, Copy)]
pub enum GraphemeSource {
    /// The document text; the grapheme covers `codepoints` of its chars.
    Document { codepoints: u32 },
    /// Text that is not part of the document. A highlight iterator over the
    /// document knows nothing of it, so it brings its highlight along.
    VirtualText { highlight: Option<Highlight> },
    /// A fold marker. It stands in for a hidden range: it is drawn like virtual
    /// text, but moves the char position by `codepoints` and the line position by
    /// `lines`, so that whatever follows the positions skips the hidden lines.
    Fold { highlight: Option<Highlight>, codepoints: u32, lines: u32 },
}

impl GraphemeSource {
    /// How many chars of the document the grapheme stands for.
    pub open spec fn covered(self) -> nat {
        match self {
            GraphemeSource::Document { codepoints } => codepoints as nat,
            GraphemeSource::Fold { codepoints, .. } => codepoints as nat,
            GraphemeSource::VirtualText { .. } => 0,
        }
    }

    /// Whether the grapheme is the one behind the last char of the document.
    pub open spec fn at_end_of_text(self) -> bool {
        self == (GraphemeSource::Document { codepoints: 0 })
    }

    /// Whether the grapheme is virtual inline text.
    pub fn is_virtual(self) -> (b: bool)
        ensures
            b == !(self is Document),
            b == (self is VirtualText || self is Fold),
    {
        match self {
            GraphemeSource::Document { .. } => false,
            GraphemeSource::VirtualText { .. } => true,
            GraphemeSource::Fold { .. } => true,
        }
    }

    /// Whether the grapheme is the one behind the last char of the document: every
    /// other one of the document covers a char.
    pub fn is_eof(self) -> (b: bool)
        ensures
            b == self.at_end_of_text(),
            b == (self is Document && self.covered() == 0),
            b == (self matches GraphemeSource::Document { codepoints } && codepoints == 0),
    {
        match self {
            GraphemeSource::Document { codepoints } => codepoints == 0,
            _ => false,
        }
    }

    /// How many chars of the document the grapheme stands for. A fold marker stands
    /// for the whole hidden range.
    pub fn doc_chars(self) -> (n: usize)
        ensures
            n == self.covered(),
            n == match self {
                GraphemeSource::Document { codepoints } => codepoints,
                GraphemeSource::Fold { codepoints, .. } => codepoints,
                GraphemeSource::VirtualText { .. } => 0,
            },
    {
        match self {
            GraphemeSource::Document { codepoints } => codepoints as usize,
            GraphemeSource::Fold { codepoints, .. } => codepoints as usize,
            GraphemeSource::VirtualText { .. } => 0,
        }
    }
}

/// A grapheme with its place on the screen and in the document.
#[derive(Debug)]
pub struct FormattedGrapheme {
    pub raw: Grapheme,
    pub source: GraphemeSource,
    pub visual_pos: Position,
    /// The document line at the start of the grapheme.
    pub line_idx: usize,
    /// The document char position at the start of the grapheme.
    pub char_idx: usize,
}

/// What a `FormattedGrapheme` stands for.
#[verifier::ext_equal]
pub struct FormattedView {
    pub raw: GraphemeView,
    pub source: GraphemeSource,
    pub visual_pos: Position,
    pub line_idx: usize,
    pub char_idx: usize,
}

impl View for FormattedGrapheme {
    type V = FormattedView;

    open spec fn view(&self) -> FormattedView {
        FormattedView {
            raw: self.raw@,
            source: self.source,
            visual_pos: self.visual_pos,
            line_idx: self.line_idx,
            char_idx: self.char_idx,
        }
    }
}

impl Clone for FormattedGrapheme {
    fn clone(&self) -> (copy: FormattedGrapheme)
        ensures
            copy@ == self@,
    {
        FormattedGrapheme {
            raw: self.raw.clone(),
            source: self.source,
            visual_pos: self.visual_pos,
            line_idx: self.line_idx,
            char_idx: self.char_idx,
        }
    }
}

impl FormattedGrapheme {
    /// Whether the grapheme is virtual inline text.
    pub fn is_virtual(&self) -> (b: bool)
        ensures
            b == !(self.source is Document),
    {
        self.source.is_virtual()
    }

    /// How many chars of the document the grapheme stands for.
    pub fn doc_chars(&self) -> (n: usize)
        ensures
            n == self.source.covered(),
    {
        self.source.doc_chars()
    }

    /// Whether the grapheme shows nothing.
    pub fn is_whitespace(&self) -> (b: bool)
        ensures
            b == self.raw@.is_whitespace(),
    {
        self.raw.is_whitespace()
    }

    /// The columns that the grapheme takes.
    pub fn width(&self) -> (n: usize)
        ensures
            n == self.raw@.width(),
    {
        self.raw.width()
    }

    /// Whether a word ends with the grapheme.
    pub fn is_word_boundary(&self) -> (b: bool)
        ensures
            b == self.raw@.is_word_boundary(),
    {
        self.raw.is_word_boundary()
    }
}

/// A grapheme that has not been placed yet.
#[derive(Debug)]
pub struct GraphemeWithSource {
    pub grapheme: Grapheme,
    pub source: GraphemeSource,
    /// Marks the grapheme at a line end and the annotations drawn behind it.
    pub after_line_end: bool,
}

/// What a `GraphemeWithSource` stands for.
#[verifier::ext_equal]
pub struct CellView {
    pub grapheme: GraphemeView,
    pub source: GraphemeSource,
    pub after_line_end: bool,
}

impl CellView {
    /// The cell that is spelled `g`, drawn at column `visual_x`.
    pub open spec fn spelled(
        g: Seq<char>,
        visual_x: int,
        tab_width: int,
        source: GraphemeSource,
    ) -> CellView {
        CellView {
            grapheme: GraphemeView::spelled(g, visual_x, tab_width),
            source,
            after_line_end: false,
        }
    }

    /// A blank that stands for nothing but the end of the text.
    pub open spec fn blank() -> CellView {
        CellView {
            grapheme: GraphemeView::Other { g: seq![' '] },
            source: GraphemeSource::Document { codepoints: 0 },
            after_line_end: false,
        }
    }

    /// The same cell, with the mark for line ends.
    pub open spec fn marked(self, after_line_end: bool) -> CellView {
        CellView { after_line_end, ..self }
    }

    /// Whether the cell is of an annotation of a line end.
    pub open spec fn annotates_line_end(self) -> bool {
        self.after_line_end && self.source is VirtualText
    }

    /// The same cell, moved to column `visual_x`.
    pub open spec fn moved_to(self, visual_x: int, tab_width: int) -> CellView {
        CellView { grapheme: self.grapheme.moved_to(visual_x, tab_width), ..self }
    }
}

impl View for GraphemeWithSource {
    type V = CellView;

    open spec fn view(&self) -> CellView {
        CellView {
            grapheme: self.grapheme@,
            source: self.source,
            after_line_end: self.after_line_end,
        }
    }
}

impl GraphemeWithSource {
    /// The cell that is spelled `g`, drawn at column `visual_x`.
    pub fn new(g: String, visual_x: usize, tab_width: u16, source: GraphemeSource) -> (cell:
        GraphemeWithSource)
        requires
            tab_width > 0,
        ensures
            cell@ == CellView::spelled(g@, visual_x as int, tab_width as int, source),
            cell@.grapheme.width() >= 1,
    {
        GraphemeWithSource {
            grapheme: Grapheme::new(g, visual_x, tab_width),
            source,
            after_line_end: false,
        }
    }

    /// A blank that stands for nothing but the end of the text.
    pub fn placeholder() -> (cell: GraphemeWithSource)
        ensures
            cell@ == CellView::blank(),
            cell@.grapheme.width() == 1,
    {
        let g = " ".to_string();
        proof {
            reveal_strlit(" ");
            assert(g@ =~= seq![' ']);
        }
        GraphemeWithSource {
            grapheme: Grapheme::Other { g },
            source: GraphemeSource::Document { codepoints: 0 },
            after_line_end: false,
        }
    }

    /// How many chars of the document the cell stands for.
    pub fn doc_chars(&self) -> (n: usize)
        ensures
            n == self@.source.covered(),
    {
        self.source.doc_chars()
    }

    /// Whether the cell shows nothing.
    pub fn is_whitespace(&self) -> (b: bool)
        ensures
            b == self@.grapheme.is_whitespace(),
    {
        self.grapheme.is_whitespace()
    }

    /// Whether the cell is a line break.
    pub fn is_newline(&self) -> (b: bool)
        ensures
            b == (self@.grapheme is Newline),
    {
        self.grapheme.is_newline()
    }

    /// Whether the cell is the one behind the last char of the document.
    pub fn is_eof(&self) -> (b: bool)
        ensures
            b == self@.source.at_end_of_text(),
    {
        self.source.is_eof()
    }

    /// Whether the cell is of an annotation of a line end.
    pub fn annotates_line_end(&self) -> (b: bool)
        ensures
            b == self@.annotates_line_end(),
    {
        match self.source {
            GraphemeSource::VirtualText { .. } => self.after_line_end,
            _ => false,
        }
    }

    /// The columns that the cell takes.
    pub fn width(&self) -> (n: usize)
        ensures
            n == self@.grapheme.width(),
    {
        self.grapheme.width()
    }

    /// Whether a word ends with the cell.
    pub fn is_word_boundary(&self) -> (b: bool)
        ensures
            b == self@.grapheme.is_word_boundary(),
    {
        self.grapheme.is_word_boundary()
    }
}

} // verus!
