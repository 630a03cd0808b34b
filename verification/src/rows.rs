//! The rows that a wrapped line is drawn on: where each of them starts, and why.

use crate::chars::{only_whitespace, only_word_chars, whitespace, word_char};
use crate::fold::Fold;
use crate::formatted::{CellView, GraphemeSource};
use crate::graphemes::GraphemeView;
use crate::layout::{
    graphemes_within, lemma_advance_frame, lemma_graphemes_within, lemma_peek_frame,
    lemma_take_inline_frame, lemma_total_width_add, lemma_word_grows, moved_to, spelled_at,
    total_covered, total_width, FormatterView,
};
use crate::motion::{lemma_indicator, lemma_moved_cells_show};
use crate::reading::{
    filling, lemma_no_end_looked, lemma_no_end_parts, lemma_peek_tracks, lemma_step_tracks,
    lemma_word_begins, lemma_wrap_tracks, no_end, stuck,
};
use crate::stream::{lemma_run_end_finds, lemma_seek_finds, look, shape};
use crate::text_annotations::{seek, InlineView, LineAnnotation};
use crate::unicode::{ascii, grapheme_clusters};
use crate::wrapping::{ends_line, lemma_moved_width, no_tabs};
use vstd::prelude::*;

verus! {

/// The indentation of a line, as far as it has been drawn.
#[verifier::ext_equal]
pub struct Lead {
    /// Whether nothing but whitespace has been drawn, all of it on the first row.
    pub open: bool,
    /// The column of the first grapheme that is no whitespace, or 0 where it is not on the
    /// first row.
    pub col: int,
}

impl Lead {
    /// The indentation behind a grapheme that is drawn at column `col`.
    pub open spec fn after(self, grapheme: GraphemeView, col: int) -> Lead {
        if grapheme is Newline {
            Lead { open: true, col: 0 }
        } else if self.open && !grapheme.is_whitespace() {
            Lead { open: false, col }
        } else {
            self
        }
    }

    /// The indentation on a row that goes on with the line.
    pub open spec fn on_next_row(self) -> Lead {
        if self.open {
            Lead { open: false, col: 0 }
        } else {
            self
        }
    }

    /// The column at which the next row of the line starts.
    pub open spec fn kept(self, max_indent_retain: u16) -> int {
        if !self.open && self.col <= max_indent_retain {
            self.col
        } else {
            0
        }
    }
}

/// The indentation behind cells that are drawn side by side, from column `x` on.
pub open spec fn lead_over(lead: Lead, x: int, cells: Seq<CellView>) -> Lead
    decreases cells.len(),
{
    if cells.len() == 0 {
        lead
    } else {
        let init = cells.drop_last();
        lead_over(lead, x, init).after(cells.last().grapheme, x + total_width(init))
    }
}

/// Whether a text is not both whitespace and made of the chars of words, as no text is that is
/// not empty.
pub open spec fn distinct(text: Seq<char>) -> bool {
    !(only_whitespace(text) && only_word_chars(text))
}

/// The law of blanks. No ASCII text that is not empty is both whitespace and made of the chars of
/// words.
pub proof fn law_blanks_are_no_words(text: Seq<char>)
    requires
        ascii(text),
        text.len() > 0,
    ensures
        distinct(text),
{
    assert(text[0] <= '\u{7F}');
    assert(only_whitespace(text) ==> whitespace(text[0]));
    assert(only_word_chars(text) ==> word_char(text[0]));
}

/// Whether none of the cells is a line break.
pub open spec fn no_breaks(cells: Seq<CellView>) -> bool {
    forall|i: int| 0 <= i < cells.len() ==> !((#[trigger] cells[i]).grapheme is Newline)
}

/// Whether none of the cells ends a word.
pub open spec fn in_word(cells: Seq<CellView>) -> bool {
    forall|i: int| 0 <= i < cells.len() ==> !(#[trigger] cells[i]).grapheme.is_word_boundary()
}

/// Whether a cell that is whitespace ends a word.
pub open spec fn spaced(cell: CellView) -> bool {
    cell.grapheme.is_whitespace() ==> cell.grapheme.is_word_boundary()
}

/// Whether no grapheme of an annotation is both whitespace and made of the chars of words.
pub open spec fn plain_note(note: InlineView) -> bool {
    let clusters = grapheme_clusters(note.text);
    forall|i: int| 0 <= i < clusters.len() ==> distinct(#[trigger] clusters[i])
}

impl<L: LineAnnotation> FormatterView<L> {
    /// Whether no line break is drawn for the wrap indicator, and what is drawn is not both
    /// whitespace and made of the chars of words.
    pub open spec fn plain_words(self) -> bool {
        &&& forall|i: int|
            0 <= i < self.annotations.inline.len() ==> plain_note(
                #[trigger] self.annotations.inline[i],
            )
        &&& self.inline is Some ==> forall|i: int|
            0 <= i < (self.inline->0).0.len() ==> distinct(#[trigger] (self.inline->0).0[i])
        &&& forall|i: int| 0 <= i < self.doc.len() ==> distinct(#[trigger] self.doc[i])
        &&& forall|i: int|
            0 <= i < self.fold_marker.len() ==> distinct(#[trigger] self.fold_marker[i])
        &&& forall|i: int|
            0 <= i < self.annotations.overlays.len() ==> distinct(
                (#[trigger] self.annotations.overlays[i]).grapheme,
            )
        &&& forall|i: int|
            0 <= i < self.wrap_indicator.len() ==> !(#[trigger] self.wrap_indicator[i]).contains(
                '\n',
            )
        &&& self.marker is Some ==> forall|i: int|
            0 <= i < self.marker->0.graphemes.len() ==> distinct(
                #[trigger] self.marker->0.graphemes[i],
            )
        &&& self.peeked is Some ==> spaced(self.peeked->0)
    }

    /// Whether the indentation is known as far as `lead` says.
    pub open spec fn knows(self, lead: Lead) -> bool {
        match self.indent_level {
            None => lead.open,
            Some(indent) => {
                &&& !lead.open
                &&& indent <= u16::MAX
                &&& lead.kept(self.fmt.max_indent_retain) == (Lead {
                    open: false,
                    col: indent as int,
                }).kept(self.fmt.max_indent_retain)
            },
        }
    }
}

/// The next grapheme of an annotation, where none is both whitespace and part of a word.
proof fn lemma_inline_plain<L: LineAnnotation>(s: FormatterView<L>, char_pos: usize)
    requires
        s.plain_words(),
        s.annotations.next_inline >= 0,
    ensures
        ({
            let (t, found) = s.take_inline(char_pos);
            &&& t.plain_words()
            &&& found matches Some((g, _)) ==> distinct(g)
        }),
    decreases s.annotations.inline.len() - s.annotations.next_inline,
{
    if s.inline is Some && (s.inline->0).0.len() > 0 {
        let graphemes = (s.inline->0).0;
        let rest = graphemes.drop_first();
        assert(distinct(graphemes[0]));
        assert forall|i: int| 0 <= i < rest.len() implies distinct(#[trigger] rest[i]) by {
            assert(rest[i] == graphemes[i + 1]);
        }
    } else {
        let (annotations, found) = s.annotations.take_inline(char_pos);
        let positions = s.annotations.inline_positions();
        lemma_seek_finds(positions, s.annotations.next_inline, char_pos as int);
        if found is Some {
            let i = seek(positions, s.annotations.next_inline, char_pos as int);
            let note = found->0;
            assert(note == s.annotations.inline[i]);
            let t = FormatterView {
                annotations,
                inline: Some((grapheme_clusters(note.text), note.highlight)),
                ..s
            };
            assert(plain_note(s.annotations.inline[i]));
            lemma_inline_plain(t, char_pos);
        }
    }
}

/// The next cell of the text, where none is both whitespace and part of a word.
proof fn lemma_text_plain<L: LineAnnotation>(s: FormatterView<L>, col: int, char_pos: usize)
    requires
        s.plain_words(),
        s.peeked is None,
        s.annotations.next_inline >= 0,
        s.annotations.next_overlay >= 0,
    ensures
        ({
            let (t, cell) = s.advance_in_text(col, char_pos);
            (FormatterView { peeked: cell, ..t }).plain_words()
        }),
{
    lemma_take_inline_frame(s, char_pos);
    lemma_inline_plain(s, char_pos);
    let (t, cell) = s.advance_in_text(col, char_pos);
    if s.doc.len() > 0 {
        let positions = s.annotations.overlay_positions();
        let from = s.annotations.next_overlay;
        assert(s.take_inline(char_pos).0.annotations.overlay_positions() =~= positions);
        lemma_seek_finds(positions, from, char_pos as int);
        lemma_run_end_finds(positions, seek(positions, from, char_pos as int), char_pos as int);
        assert(distinct(s.doc[0]));
        let rest = s.doc.drop_first();
        assert forall|i: int| 0 <= i < rest.len() implies distinct(#[trigger] rest[i]) by {
            assert(rest[i] == s.doc[i + 1]);
        }
    } else {
        assert(seq![' '][0] == ' ');
    }
}

/// The next cell of a marker, where none is both whitespace and part of a word.
proof fn lemma_marker_plain<L: LineAnnotation>(s: FormatterView<L>, col: int)
    requires
        s.plain_words(),
        s.peeked is None,
        s.marker is Some,
    ensures
        ({
            let (t, cell) = s.take_marker(col);
            (FormatterView { peeked: cell, ..t }).plain_words()
        }),
{
    let (t, cell) = s.take_marker(col);
    let graphemes = s.marker->0.graphemes;
    if graphemes.len() > 0 {
        assert(distinct(graphemes[0]));
        let rest = graphemes.drop_first();
        assert forall|i: int| 0 <= i < rest.len() implies distinct(#[trigger] rest[i]) by {
            assert(rest[i] == graphemes[i + 1]);
        }
    }
}

/// A fold that begins, where nothing is both whitespace and part of a word.
proof fn lemma_fold_plain<L: LineAnnotation>(s: FormatterView<L>, char_pos: usize, fold: Fold)
    requires
        s.plain_words(),
        s.begin_fold(char_pos, fold) is Some,
    ensures
        s.begin_fold(char_pos, fold)->0.plain_words(),
{
    let t = s.begin_fold(char_pos, fold)->0;
    let n = graphemes_within(s.doc, fold.end_char - char_pos) as int;
    lemma_graphemes_within(s.doc, fold.end_char - char_pos);
    assert forall|i: int| 0 <= i < t.doc.len() implies distinct(#[trigger] t.doc[i]) by {
        assert(t.doc[i] == s.doc[i + n]);
    }
}

/// Reading one cell, where none is both whitespace and part of a word.
proof fn lemma_advance_plain<L: LineAnnotation>(
    s: FormatterView<L>,
    col: int,
    char_pos: usize,
)
    requires
        s.plain_words(),
        s.peeked is None,
        s.annotations.next_inline >= 0,
        s.annotations.next_overlay >= 0,
        s.marker is Some ==> s.marker->0.graphemes.len() > 0,
        s.fold_marker.len() > 0,
        s.advance(col, char_pos) is Some,
    ensures
        ({
            let (t, cell) = s.advance(col, char_pos)->0;
            (FormatterView { peeked: cell, ..t }).plain_words()
        }),
{
    let t = match s.eol_anchor {
        Some(anchor) => {
            lemma_take_inline_frame(s, anchor);
            lemma_inline_plain(s, anchor);
            FormatterView { eol_anchor: None, ..s.take_inline(anchor).0 }
        },
        None => s,
    };
    if s.eol_anchor is Some && s.take_inline(s.eol_anchor->0).1 is Some {
        assert(t.plain_words());
    } else if t.marker is Some {
        lemma_marker_plain(t, col);
    } else {
        match t.annotations.fold_at_start(char_pos) {
            Some(fold) => {
                lemma_fold_plain(t, char_pos, fold);
                lemma_marker_plain(t.begin_fold(char_pos, fold)->0, col);
            },
            None => lemma_text_plain(t, col, char_pos),
        }
    }
}

/// Whether none of the cells ends a word or is whitespace.
pub open spec fn solid(cells: Seq<CellView>) -> bool {
    forall|i: int|
        0 <= i < cells.len() ==> !(#[trigger] cells[i]).grapheme.is_word_boundary()
            && !cells[i].grapheme.is_whitespace()
}

/// A closed indentation stays as it is until the line ends.
proof fn lemma_lead_closed(lead: Lead, x: int, cells: Seq<CellView>)
    requires
        !lead.open,
        no_breaks(cells),
    ensures
        lead_over(lead, x, cells) == lead,
    decreases cells.len(),
{
    if cells.len() > 0 {
        let init = cells.drop_last();
        assert forall|i: int| 0 <= i < init.len() implies !((
        #[trigger] init[i]).grapheme is Newline) by {
            assert(!(cells[i].grapheme is Newline));
        }
        lemma_lead_closed(lead, x, init);
        assert(!(cells[cells.len() - 1].grapheme is Newline));
    }
}

/// The first cell of a word closes the indentation.
proof fn lemma_lead_of_word(lead: Lead, x: int, cells: Seq<CellView>)
    requires
        lead.open,
        solid(cells),
        cells.len() > 0,
    ensures
        lead_over(lead, x, cells) == (Lead { open: false, col: x }),
    decreases cells.len(),
{
    let init = cells.drop_last();
    assert(!cells[cells.len() - 1].grapheme.is_whitespace());
    if init.len() > 0 {
        assert forall|i: int| 0 <= i < init.len() implies !(
        #[trigger] init[i]).grapheme.is_word_boundary() && !init[i].grapheme.is_whitespace() by {
            assert(!cells[i].grapheme.is_word_boundary());
        }
        lemma_lead_of_word(lead, x, init);
    } else {
        assert(total_width(init) == 0);
    }
}

/// The cells of the word at hand, without a wrap indicator that was put before them.
pub open spec fn own_cells<L: LineAnnotation>(t: FormatterView<L>, broke: Option<int>) -> Seq<
    CellView,
> {
    if broke is Some {
        t.word_buf.skip(t.wrap_indicator.len() as int)
    } else {
        t.word_buf
    }
}

/// The column at which the cells of the word at hand start.
pub open spec fn own_col<L: LineAnnotation>(t: FormatterView<L>, broke: Option<int>) -> int {
    if broke is Some {
        t.visual_pos.col + total_width(t.word_buf.take(t.wrap_indicator.len() as int))
    } else {
        t.visual_pos.col as int
    }
}

/// Whether cells just reach the width at which the text is wrapped, if it has one of its own.
pub open spec fn reaches_text_width<L: LineAnnotation>(
    s: FormatterView<L>,
    cells: Seq<CellView>,
) -> bool {
    &&& s.fmt.soft_wrap_at_text_width
    &&& s.visual_pos.col + total_width(cells) == s.fmt.viewport_width
}

/// Where the word is set that begins in state `s`, behind the indentation `lead`. If it stays on
/// its row, nothing changes. If it breaks the row, then because its first `broke` cells fill
/// the row to the edge, but are no wider than a word that may be moved. They do not stand right
/// before the end of the line, if the text is wrapped at a width of its own and they just reach
/// that. The next row is below the rows of the line annotations. It starts at the indentation
/// that is kept, with the whole wrap indicator.
pub open spec fn is_set<L: LineAnnotation>(
    s: FormatterView<L>,
    lead: Lead,
    t: FormatterView<L>,
    broke: Option<int>,
) -> bool {
    let n = s.wrap_indicator.len() as int;
    let own = own_cells(t, broke);
    &&& t.fmt == s.fmt
    &&& t.wrap_indicator == s.wrap_indicator
    &&& t.char_pos == s.char_pos
    &&& t.line_pos == s.line_pos
    &&& match broke {
        None => {
            &&& t.visual_pos == s.visual_pos
            &&& t.annotations.lines == s.annotations.lines
        },
        Some(j) => {
            let lines = s.annotations.lines;
            &&& t.visual_pos.row == s.visual_pos.row + 1 + L::rows_at(
                lines,
                s.char_pos,
                s.visual_pos,
                s.line_pos,
            )
            &&& t.visual_pos.col == lead.kept(s.fmt.max_indent_retain)
            &&& t.annotations.lines == L::after_rows(lines, s.char_pos, s.visual_pos, s.line_pos)
            &&& n <= t.word_buf.len()
            &&& forall|i: int|
                0 <= i < n ==> {
                    &&& (#[trigger] t.word_buf[i]).source == (GraphemeSource::VirtualText {
                        highlight: s.fmt.wrap_indicator_highlight,
                    })
                    &&& look(t.word_buf[i].grapheme) == shape(s.wrap_indicator[i])
                }
            &&& 0 <= j <= own.len()
            &&& in_word(own.take(j))
            &&& s.visual_pos.col + total_width(own.take(j)) >= s.fmt.viewport_width
            &&& total_width(own.take(j)) <= s.fmt.max_wrap
            &&& reaches_text_width(s, own.take(j)) && j < own.len() && own[j].source is Document
                ==> !ends_line(own[j])
            &&& s.visual_pos.col > s.fmt.max_indent_retain
        },
    }
}

/// Why a word ends: it has come to the end of a word of the text, or of the text, or it is cut
/// at the edge, being wider than a word that may be moved.
pub open spec fn is_ended<L: LineAnnotation>(t: FormatterView<L>, broke: Option<int>) -> bool {
    let own = own_cells(t, broke);
    let end = own_col(t, broke) + total_width(own);
    &&& in_word(own.drop_last())
    &&& {
        ||| own.last().grapheme.is_word_boundary()
        ||| t.exhausted && t.peeked is None
        ||| {
            &&& end == t.fmt.viewport_width
            &&& total_width(own) > t.fmt.max_wrap
            &&& t.fmt.soft_wrap_at_text_width ==> t.peeked is None || !ends_line(t.peeked->0)
        }
        ||| {
            &&& t.peeked is Some
            &&& end < t.fmt.viewport_width < end + t.peeked->0.grapheme.width()
            &&& total_width(own) + t.peeked->0.grapheme.width() > t.fmt.max_wrap
        }
    }
}

/// What holds before a cell goes into the word.
pub open spec fn rows_ready<L: LineAnnotation>(
    s: FormatterView<L>,
    lead: Lead,
    t: FormatterView<L>,
    broke: Option<int>,
) -> bool {
    &&& is_set(s, lead, t, broke)
    &&& t.plain_words()
    &&& t.has_room()
    &&& no_breaks(t.word_buf)
    &&& solid(own_cells(t, broke))
    &&& t.knows(
        lead_over(
            if broke is Some {
                lead.on_next_row()
            } else {
                lead
            },
            t.visual_pos.col as int,
            t.word_buf,
        ),
    )
    &&& broke is Some ==> own_col(t, broke) + t.fmt.max_wrap < t.fmt.viewport_width
    &&& broke is Some && broke->0 == own_cells(t, broke).len() && reaches_text_width(
        s,
        own_cells(t, broke).take(broke->0),
    ) ==> match t.peeked {
        Some(cell) => cell.source is Document ==> !ends_line(cell),
        None => t.exhausted,
    }
}

/// What holds while a word is filled.
pub open spec fn rows_filling<L: LineAnnotation>(
    s: FormatterView<L>,
    lead: Lead,
    t: FormatterView<L>,
    broke: Option<int>,
) -> bool {
    &&& rows_ready(s, lead, t, broke)
    &&& broke matches Some(j) ==> j < own_cells(t, broke).len()
    &&& t.word_buf.len() > 0 ==> t.visual_pos.col + total_width(t.word_buf.drop_last())
        < t.fmt.viewport_width
}

/// What holds when a word is filled, unless it could not take its only cell.
pub open spec fn rows_done<L: LineAnnotation>(
    s: FormatterView<L>,
    lead: Lead,
    t: FormatterView<L>,
    broke: Option<int>,
) -> bool {
    &&& is_set(s, lead, t, broke)
    &&& t.plain_words()
    &&& t.has_room()
    &&& no_breaks(t.word_buf.drop_last())
    &&& own_cells(t, broke).len() > 0 ==> is_ended(t, broke)
    &&& t.knows(
        lead_over(
            if broke is Some {
                lead.on_next_row()
            } else {
                lead
            },
            t.visual_pos.col as int,
            t.word_buf,
        ),
    )
}

/// A look at the next cell.
pub proof fn lemma_peek_rows<L: LineAnnotation>(
    s: FormatterView<L>,
    lead: Lead,
    t: FormatterView<L>,
    broke: Option<int>,
    col: int,
    char_pos: usize,
)
    requires
        t.cells_show(),
        t.tracks(t.gathered()),
        no_end(t.gathered()),
        char_pos == t.char_pos + total_covered(t.word_buf),
        col == t.visual_pos.col + total_width(t.word_buf),
        t.peek(col, char_pos) is Some,
        rows_ready(s, lead, t, broke),
    ensures
        rows_ready(s, lead, t.peek(col, char_pos)->0, broke),
        t.peek(col, char_pos)->0.word_buf == t.word_buf,
        t.peek(col, char_pos)->0.visual_pos == t.visual_pos,
        t.peek(col, char_pos)->0.peeked is None ==> t.exhausted,
{
    lemma_peek_tracks(t, col, char_pos);
    lemma_peek_frame(t, col, char_pos);
    let looked = t.peek(col, char_pos)->0;
    if t.peeked is None {
        lemma_advance_frame(t, col, char_pos);
        lemma_advance_plain(t, col, char_pos);
        if t.exhausted && looked.peeked is Some {
            lemma_no_document_left(t, looked, looked.peeked->0);
        }
    }
    assert(looked.has_room());
    assert(own_cells(looked, broke) == own_cells(t, broke));
}

/// Once the end of the text was read, nothing of the document follows.
proof fn lemma_no_document_left<L: LineAnnotation>(
    t: FormatterView<L>,
    looked: FormatterView<L>,
    cell: CellView,
)
    requires
        t.exhausted,
        t.peeked is None,
        t.tracks(t.gathered()),
        looked.tracks(looked.gathered()),
        looked.word_buf == t.word_buf,
        looked.char_pos == t.char_pos,
        looked.text == t.text,
        looked.peeked == Some(cell),
        !cell.source.at_end_of_text(),
    ensures
        !(cell.source is Document),
{
    let cells = looked.gathered();
    let p = t.char_pos + total_covered(t.word_buf);
    assert(t.gathered() =~= t.word_buf);
    assert(cells.last() == cell);
    assert(cells.drop_last() =~= t.word_buf);
    assert(looked.page().cell_reads(p, cell));
    assert(t.doc =~= Seq::<Seq<char>>::empty());
    assert(t.doc.flatten().len() == 0);
    assert(t.text.skip(p).len() == t.text.len() - p);
}

/// The indentation is open only where the word has no cell yet.
proof fn lemma_open_is_empty<L: LineAnnotation>(
    s: FormatterView<L>,
    lead: Lead,
    t: FormatterView<L>,
    broke: Option<int>,
)
    requires
        rows_ready(s, lead, t, broke),
    ensures
        ({
            let l = if broke is Some {
                lead.on_next_row()
            } else {
                lead
            };
            let over = lead_over(l, t.visual_pos.col as int, t.word_buf);
            over.open ==> t.word_buf.len() == 0
        }),
{
    let x = t.visual_pos.col as int;
    if broke is Some {
        lemma_lead_closed(lead.on_next_row(), x, t.word_buf);
    } else if lead.open && t.word_buf.len() > 0 {
        lemma_lead_of_word(lead, x, t.word_buf);
    } else if !lead.open {
        lemma_lead_closed(lead, x, t.word_buf);
    }
}

/// One more cell in the word.
proof fn lemma_push_rows<L: LineAnnotation>(
    s: FormatterView<L>,
    lead: Lead,
    looked: FormatterView<L>,
    broke: Option<int>,
    u: FormatterView<L>,
    cell: CellView,
)
    requires
        rows_ready(s, lead, looked, broke),
        looked.peeked == Some(cell),
        looked.visual_pos.col + total_width(looked.word_buf) < looked.fmt.viewport_width
            || cell.grapheme.is_whitespace(),
        u == (FormatterView {
            peeked: None,
            word_buf: looked.word_buf.push(cell),
            indent_level: if !cell.grapheme.is_whitespace() && looked.indent_level is None {
                Some(looked.visual_pos.col)
            } else if cell.grapheme is Newline {
                None
            } else {
                looked.indent_level
            },
            ..looked
        }),
    ensures
        !cell.grapheme.is_word_boundary() ==> rows_filling(s, lead, u, broke),
        cell.grapheme.is_word_boundary() ==> rows_done(s, lead, u, broke),
{
    let x = u.visual_pos.col as int;
    let l = if broke is Some {
        lead.on_next_row()
    } else {
        lead
    };
    let n = u.wrap_indicator.len() as int;
    let own = own_cells(looked, broke);
    lemma_open_is_empty(s, lead, looked, broke);
    assert(u.word_buf.drop_last() =~= looked.word_buf);
    assert(own_cells(u, broke) =~= own.push(cell));
    assert(own_cells(u, broke).drop_last() =~= own);
    assert(looked.word_buf.len() == 0 ==> total_width(looked.word_buf) == 0);
    if broke is Some {
        assert(u.word_buf.take(n) =~= looked.word_buf.take(n));
        assert(own_cells(u, broke).take(broke->0) =~= own.take(broke->0));
    }
    assert(u.knows(lead_over(l, x, u.word_buf)));
    assert(is_set(s, lead, u, broke));
    assert(u.plain_words());
    assert(u.has_room());
    assert(in_word(own));
}

/// A word that gets no further cell.
proof fn lemma_last_rows<L: LineAnnotation>(
    s: FormatterView<L>,
    lead: Lead,
    u: FormatterView<L>,
    broke: Option<int>,
)
    requires
        rows_ready(s, lead, u, broke),
        u.exhausted,
        u.peeked is None,
        u.word_buf.len() > 0,
    ensures
        rows_done(s, lead, u, broke),
{
    let own = own_cells(u, broke);
    if own.len() > 0 {
        assert forall|i: int| 0 <= i < own.drop_last().len() implies !(
        #[trigger] own.drop_last()[i]).grapheme.is_word_boundary() by {
            assert(own.drop_last()[i] == own[i]);
        }
    }
    assert forall|i: int| 0 <= i < u.word_buf.drop_last().len() implies !((
    #[trigger] u.word_buf.drop_last()[i]).grapheme is Newline) by {
        assert(u.word_buf.drop_last()[i] == u.word_buf[i]);
    }
}

/// A cell that goes into the word.
pub proof fn lemma_take_rows<L: LineAnnotation>(
    s: FormatterView<L>,
    lead: Lead,
    t: FormatterView<L>,
    broke: Option<int>,
    col: int,
    char_pos: usize,
)
    requires
        t.cells_show(),
        t.tracks(t.gathered()),
        no_end(t.word_buf),
        t.peeked is None ==> no_end(t.gathered()),
        char_pos == t.char_pos + total_covered(t.word_buf),
        col == t.visual_pos.col + total_width(t.word_buf),
        col < t.fmt.viewport_width || t.line_end_peeked(),
        t.take_into_word(col, char_pos) is Some,
        rows_ready(s, lead, t, broke),
        t.word_buf.len() == 0 && t.exhausted ==> t.peeked is Some,
    ensures
        ({
            let (u, go_on) = t.take_into_word(col, char_pos)->0;
            &&& go_on ==> rows_filling(s, lead, u, broke)
            &&& !go_on ==> rows_done(s, lead, u, broke)
        }),
{
    if t.peeked is None {
        lemma_peek_rows(s, lead, t, broke, col, char_pos);
        lemma_peek_tracks(t, col, char_pos);
    }
    let looked = t.peek(col, char_pos)->0;
    let (u, go_on) = t.take_into_word(col, char_pos)->0;
    match looked.peeked {
        Some(cell) => {
            if cell.source.at_end_of_text() {
                lemma_end_is_blank(looked, cell);
            }
            lemma_push_rows(s, lead, looked, broke, u, cell);
        },
        None => {
            lemma_last_rows(s, lead, u, broke);
        },
    }
}

/// The end of the text is a blank.
proof fn lemma_end_is_blank<L: LineAnnotation>(t: FormatterView<L>, cell: CellView)
    requires
        t.tracks(t.gathered()),
        t.peeked == Some(cell),
        cell.source.at_end_of_text(),
    ensures
        cell.grapheme.is_whitespace(),
        cell.grapheme.is_word_boundary(),
{
    let cells = t.gathered();
    assert(cells.last() == cell);
    assert(cells.drop_last() =~= t.word_buf);
    assert(t.page().cell_reads(t.char_pos + total_covered(t.word_buf), cell));
    assert(seq![' '][0] == ' ');
}

/// Graphemes that are drawn side by side look as they are spelled.
proof fn lemma_spelled_looks(
    texts: Seq<Seq<char>>,
    x: int,
    tab_width: int,
    source: GraphemeSource,
)
    ensures
        ({
            let cells = spelled_at(texts, x, tab_width, source);
            &&& cells.len() == texts.len()
            &&& forall|i: int|
                0 <= i < texts.len() ==> {
                    &&& (#[trigger] cells[i]).source == source
                    &&& look(cells[i].grapheme) == shape(texts[i])
                }
        }),
    decreases texts.len(),
{
    if texts.len() > 0 {
        let init = texts.drop_last();
        let before = spelled_at(init, x, tab_width, source);
        let cells = spelled_at(texts, x, tab_width, source);
        lemma_spelled_looks(init, x, tab_width, source);
        assert forall|i: int| 0 <= i < texts.len() implies {
            &&& (#[trigger] cells[i]).source == source
            &&& look(cells[i].grapheme) == shape(texts[i])
        } by {
            if i < init.len() {
                assert(cells[i] == before[i]);
            }
        }
    }
}

/// A word that is moved to the next row.
pub proof fn lemma_wrap_rows<L: LineAnnotation>(s: FormatterView<L>, lead: Lead, t: FormatterView<L>)
    requires
        t.cells_show(),
        rows_ready(s, lead, t, None),
        t.visual_pos.col + total_width(t.word_buf) >= t.fmt.viewport_width,
        total_width(t.word_buf) <= t.fmt.max_wrap,
        reaches_text_width(s, t.word_buf) ==> match t.peeked {
            Some(cell) => !ends_line(cell),
            None => t.exhausted,
        },
        t.wrap_word() is Some,
    ensures
        ({
            let w = t.wrap_word()->0;
            let broke = Some(t.word_buf.len() as int);
            &&& rows_ready(s, lead, w, broke)
            &&& w.visual_pos.col + total_width(w.word_buf) < w.fmt.viewport_width
            &&& own_cells(w, broke).len() == t.word_buf.len()
        }),
{
    let w = t.wrap_word()->0;
    let j = t.word_buf.len() as int;
    let broke = Some(j);
    let tab_width = t.fmt.tab_width as int;
    let retain = t.fmt.max_indent_retain;
    let indent = t.carried_indent();
    let indicator = t.indicator();
    let source = GraphemeSource::VirtualText { highlight: t.fmt.wrap_indicator_highlight };
    let x = indent + total_width(indicator);
    let n = t.wrap_indicator.len() as int;
    let moved = moved_to(t.word_buf, x, tab_width);
    lemma_indicator(t);
    lemma_spelled_looks(t.wrap_indicator, indent, tab_width, source);
    lemma_moved_cells_show(t.word_buf, x, tab_width);
    assert(no_tabs(t.word_buf)) by {
        assert forall|i: int| 0 <= i < t.word_buf.len() implies !((
        #[trigger] t.word_buf[i]).grapheme is Tab) by {
            assert(!t.word_buf[i].grapheme.is_word_boundary());
        }
    }
    lemma_moved_width(t.word_buf, x, tab_width);
    lemma_total_width_add(indicator, moved);
    assert(w.word_buf.take(n) =~= indicator);
    assert(w.word_buf.skip(n) =~= moved);
    assert(own_cells(w, broke) == moved);
    assert(moved.take(j) =~= moved);
    assert(0 <= indent <= retain);
    assert(retain + total_width(
        spelled_at(t.wrap_indicator, retain as int, tab_width, source),
    ) + t.fmt.max_wrap < t.fmt.viewport_width);
    assert(s.visual_pos.col > retain);
    // The indentation.
    if lead.open {
        if t.word_buf.len() > 0 {
            lemma_lead_of_word(lead, t.visual_pos.col as int, t.word_buf);
        }
    } else {
        lemma_lead_closed(lead, t.visual_pos.col as int, t.word_buf);
    }
    assert(indent == lead.kept(retain));
    assert forall|i: int| 0 <= i < w.word_buf.len() implies !((
    #[trigger] w.word_buf[i]).grapheme is Newline) by {
        if i < n {
            assert(w.word_buf[i] == indicator[i]);
            let text = t.wrap_indicator[i];
            assert(!text.contains('\n'));
            if text == seq!['\n'] {
                assert(text[0] == '\n');
            } else if text == seq!['\r', '\n'] {
                assert(text[1] == '\n');
            }
            assert(look(w.word_buf[i].grapheme) == shape(text));
        } else {
            assert(w.word_buf[i] == moved[i - n]);
            assert(!t.word_buf[i - n].grapheme.is_word_boundary());
        }
    }
    assert forall|i: int| 0 <= i < moved.len() implies !(
    #[trigger] moved[i]).grapheme.is_word_boundary() && !moved[i].grapheme.is_whitespace() by {
        assert(!t.word_buf[i].grapheme.is_word_boundary());
    }
    lemma_lead_closed(lead.on_next_row(), w.visual_pos.col as int, w.word_buf);
    assert(w.has_room());
    assert(w.peeked is Some ==> spaced(w.peeked->0));
}

/// One step in filling a word.
pub proof fn lemma_step_rows<L: LineAnnotation>(
    s: FormatterView<L>,
    lead: Lead,
    t: FormatterView<L>,
    broke: Option<int>,
) -> (after: Option<int>)
    requires
        filling(t),
        t.word_step() is Some,
        rows_filling(s, lead, t, broke),
    ensures
        ({
            let (u, go_on) = t.word_step()->0;
            &&& go_on ==> rows_filling(s, lead, u, after)
            &&& !go_on ==> rows_done(s, lead, u, after) || stuck(u)
        }),
{
    let width = total_width(t.word_buf);
    let col = t.visual_pos.col + width;
    let pos = (t.char_pos + total_covered(t.word_buf)) as usize;
    let edge = t.fmt.viewport_width as int;
    let (u, go_on) = t.word_step()->0;
    lemma_no_end_parts(t);
    if col < edge {
        lemma_take_rows(s, lead, t, broke, col, pos);
        broke
    } else {
        let at_edge = col == edge && t.fmt.soft_wrap_at_text_width;
        let looked = if at_edge || t.word_buf.len() == 0 {
            lemma_peek_tracks(t, col, pos);
            lemma_peek_rows(s, lead, t, broke, col, pos);
            t.peek(col, pos)->0
        } else {
            t
        };
        if t.peeked is None {
            assert(t.gathered() =~= t.word_buf);
        }
        if at_edge && looked.line_end_peeked() {
            lemma_take_rows(s, lead, looked, broke, col, pos);
            broke
        } else if width > t.fmt.max_wrap {
            lemma_cut_rows(s, lead, t, looked, u, broke);
            lemma_step_tracks(t);
            broke
        } else {
            if broke is Some {
                lemma_own_width(t, broke);
            }
            assert(broke is None);
            lemma_wrap_tracks(looked);
            lemma_wrap_rows(s, lead, looked);
            let w = looked.wrap_word()->0;
            let after = Some(looked.word_buf.len() as int);
            if w.peeked is None {
                assert(w.gathered() =~= w.word_buf);
            }
            lemma_take_rows(
                s,
                lead,
                w,
                after,
                w.visual_pos.col + total_width(w.word_buf),
                pos,
            );
            after
        }
    }
}

/// The width of a word with its wrap indicator.
pub proof fn lemma_own_width<L: LineAnnotation>(t: FormatterView<L>, broke: Option<int>)
    requires
        broke is Some ==> t.wrap_indicator.len() <= t.word_buf.len(),
    ensures
        t.visual_pos.col + total_width(t.word_buf) == own_col(t, broke) + total_width(
            own_cells(t, broke),
        ),
{
    if broke is Some {
        let n = t.wrap_indicator.len() as int;
        assert(t.word_buf =~= t.word_buf.take(n) + t.word_buf.skip(n));
        lemma_total_width_add(t.word_buf.take(n), t.word_buf.skip(n));
    }
}

/// A word that is cut at the edge.
proof fn lemma_cut_rows<L: LineAnnotation>(
    s: FormatterView<L>,
    lead: Lead,
    t: FormatterView<L>,
    looked: FormatterView<L>,
    u: FormatterView<L>,
    broke: Option<int>,
)
    requires
        filling(t),
        rows_filling(s, lead, t, broke),
        rows_ready(s, lead, looked, broke),
        looked.word_buf == t.word_buf,
        looked.visual_pos == t.visual_pos,
        looked.fmt == t.fmt,
        looked.wrap_indicator == t.wrap_indicator,
        total_width(t.word_buf) > t.fmt.max_wrap,
        t.visual_pos.col + total_width(t.word_buf) == t.fmt.viewport_width
            && t.fmt.soft_wrap_at_text_width ==> !looked.line_end_peeked(),
        ({
            let col = t.visual_pos.col + total_width(t.word_buf);
            if col == t.fmt.viewport_width {
                u == looked
            } else {
                &&& col > t.fmt.viewport_width
                &&& looked == t
                &&& u == (FormatterView {
                    peeked: Some(t.word_buf.last()),
                    word_buf: t.word_buf.drop_last(),
                    ..t
                })
            }
        }),
    ensures
        u.word_buf.len() > 0 ==> rows_done(s, lead, u, broke),
{
    let x = t.visual_pos.col as int;
    let n = t.wrap_indicator.len() as int;
    let word = t.word_buf;
    let own = own_cells(t, broke);
    let l = if broke is Some {
        lead.on_next_row()
    } else {
        lead
    };
    assert(word.len() > 0);
    lemma_own_width(t, broke);
    assert(u.has_room());
    assert forall|i: int| 0 <= i < word.drop_last().len() implies !((
    #[trigger] word.drop_last()[i]).grapheme is Newline) by {
        assert(word.drop_last()[i] == word[i]);
    }
    if own.len() > 0 {
        assert forall|i: int| 0 <= i < own.drop_last().len() implies !(
        #[trigger] own.drop_last()[i]).grapheme.is_word_boundary()
            && !own.drop_last()[i].grapheme.is_whitespace() by {
            assert(own.drop_last()[i] == own[i]);
        }
    }
    if u != looked && u.word_buf.len() > 0 {
        let rest = word.drop_last();
        assert(own.len() > 0);
        assert(own_cells(u, broke) =~= own.drop_last());
        assert(own.last() == word.last());
        assert(total_width(own) == total_width(own.drop_last()) + word.last().grapheme.width());
        if broke is Some {
            assert(rest.take(n) =~= word.take(n));
            assert(own.drop_last().take(broke->0) =~= own.take(broke->0));
            lemma_lead_closed(l, x, word);
            lemma_lead_closed(l, x, rest);
            assert forall|i: int| 0 <= i < n implies #[trigger] rest[i] == word[i] by {}
        } else if lead.open {
            lemma_lead_of_word(lead, x, word);
            lemma_lead_of_word(lead, x, rest);
        } else {
            lemma_lead_closed(l, x, word);
            lemma_lead_closed(l, x, rest);
        }
        lemma_own_width(u, broke);
        assert forall|i: int| 0 <= i < rest.drop_last().len() implies !((
        #[trigger] rest.drop_last()[i]).grapheme is Newline) by {
            assert(rest.drop_last()[i] == word[i]);
        }
        if own_cells(u, broke).len() > 0 {
            let left = own.drop_last();
            assert forall|i: int| 0 <= i < left.drop_last().len() implies !(
            #[trigger] left.drop_last()[i]).grapheme.is_word_boundary() by {
                assert(left.drop_last()[i] == own[i]);
            }
        }
    }
}

/// Filling a word.
proof fn lemma_fill_rows<L: LineAnnotation>(
    s: FormatterView<L>,
    lead: Lead,
    t: FormatterView<L>,
    broke: Option<int>,
) -> (after: Option<int>)
    requires
        filling(t),
        t.fill_word() is Some,
        rows_filling(s, lead, t, broke),
    ensures
        rows_done(s, lead, t.fill_word()->0, after) || stuck(t.fill_word()->0),
    decreases
            (if t.word_buf.len() < t.word_limit() {
                t.word_limit() - t.word_buf.len()
            } else {
                0
            }),
{
    lemma_step_tracks(t);
    let after = lemma_step_rows(s, lead, t, broke);
    let (u, go_on) = t.word_step()->0;
    if go_on {
        lemma_word_grows(t);
        lemma_fill_rows(s, lead, u, after)
    } else {
        after
    }
}

/// The law of words. Under soft wrap, the next word of a line is set on its row, or breaks the
/// row if it would reach the edge there, and it is not cut before it has reached the edge and
/// is too wide to be moved. Here `lead` is the indentation of the line, as far as it is known.
/// There is room for a word that may be moved, nothing that is drawn is both whitespace and made
/// of the chars of words, and the wrap indicator is no line break.
pub proof fn law_word_is_set<L: LineAnnotation>(s: FormatterView<L>, lead: Lead) -> (broke: Option<
    int,
>)
    requires
        s.in_step(),
        s.word_i >= s.word_buf.len(),
        s.has_room(),
        s.plain_words(),
        s.knows(lead),
        s.advance_to_next_word() is Some,
    ensures
        ({
            let t = s.advance_to_next_word()->0;
            t.word_buf.len() > 0 ==> {
                &&& is_set(s, lead, t, broke)
                &&& own_cells(t, broke).len() > 0 ==> is_ended(t, broke)
                &&& t.plain_words()
                &&& no_breaks(t.word_buf.drop_last())
                &&& t.knows(
                    lead_over(
                        if broke is Some {
                            lead.on_next_row()
                        } else {
                            lead
                        },
                        t.visual_pos.col as int,
                        t.word_buf,
                    ),
                )
            }
        }),
{
    let begun = lemma_word_begins(s);
    let empty = FormatterView { word_buf: Seq::empty(), ..s };
    assert(empty.gathered() =~= s.waiting());
    assert(total_width(empty.word_buf) == 0);
    assert(total_covered(empty.word_buf) == 0);
    assert(empty.has_room());
    assert(rows_ready(s, lead, empty, None));
    if s.exhausted {
        lemma_no_end_looked(empty);
        lemma_peek_rows(s, lead, empty, None, s.visual_pos.col as int, s.char_pos);
    }
    assert(rows_filling(s, lead, begun, None));
    if !(s.exhausted && begun.peeked is None) {
        lemma_fill_rows(s, lead, begun, None)
    } else {
        None
    }
}

} // verus!
