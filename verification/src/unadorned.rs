//! Layouts of bare text, without folds and inline annotations.

use crate::course::{
    lemma_advance_quiet, lemma_quiet, lemma_step_goes_its_course, lemma_wrap_goes_on,
};
use crate::formatted::CellView;
use crate::graphemes::GraphemeView;
use crate::layout::{
    lemma_advance_frame, lemma_peek_frame, lemma_take_inline_frame, lemma_word_grows, total_covered,
    total_width, FormatterView,
};
use crate::reading::{
    as_cells, filling, law_nothing_left_at_the_end, law_step_reads_the_document,
    lemma_advance_tracks, lemma_fetch_tracks, lemma_no_end_parts, lemma_peek_tracks,
    lemma_step_tracks, lemma_take_tracks, lemma_word_begins, lemma_wrap_tracks, made_ready, no_end,
    stuck,
};
use crate::text_annotations::LineAnnotation;
use crate::unicode::ascii;
use vstd::prelude::*;

verus! {

impl<L: LineAnnotation> FormatterView<L> {
    /// Whether there are no folds and no inline annotations, with `cells` read and not drawn.
    pub open spec fn bare_with(self, cells: Seq<CellView>) -> bool {
        &&& self.quiet_with(cells)
        &&& self.annotations.folds.len() == 0
        &&& self.marker is None
        &&& self.peeked is Some ==> self.peeked->0.source is Document
    }

    /// Whether there are no folds and no inline annotations.
    pub open spec fn bare(self) -> bool {
        &&& !self.pending_eol
        &&& self.bare_with(self.waiting())
        &&& self.exhausted ==> self.peeked is None
    }
}

/// What is read of bare text is of the document.
proof fn lemma_advance_bare<L: LineAnnotation>(
    s: FormatterView<L>,
    cells: Seq<CellView>,
    col: int,
    char_pos: usize,
)
    requires
        s.bare_with(cells),
        s.advance(col, char_pos) is Some,
    ensures
        ({
            let (t, cell) = s.advance(col, char_pos)->0;
            &&& t.bare_with(cells + as_cells(cell))
            &&& cell is Some ==> cell->0.source is Document
        }),
{
    lemma_advance_quiet(s, cells, col, char_pos);
    lemma_advance_frame(s, col, char_pos);
    lemma_quiet(s, cells, char_pos);
    lemma_take_inline_frame(s, char_pos);
    assert(s.annotations.fold_at_start(char_pos) is None);
}

/// A look at bare text.
proof fn lemma_peek_bare<L: LineAnnotation>(s: FormatterView<L>, col: int, char_pos: usize)
    requires
        s.bare_with(s.gathered()),
        s.peek(col, char_pos) is Some,
    ensures
        s.peek(col, char_pos)->0.bare_with(s.peek(col, char_pos)->0.gathered()),
{
    lemma_peek_frame(s, col, char_pos);
    if s.peeked is None {
        assert(s.gathered() =~= s.word_buf);
        lemma_advance_bare(s, s.word_buf, col, char_pos);
    }
}

/// A cell of bare text that goes into the word.
proof fn lemma_take_bare<L: LineAnnotation>(s: FormatterView<L>, col: int, char_pos: usize)
    requires
        s.cells_show(),
        s.tracks(s.gathered()),
        no_end(s.word_buf),
        s.bare_with(s.gathered()),
        s.exhausted ==> s.peeked is Some && s.peeked->0.source.at_end_of_text(),
        char_pos == s.char_pos + total_covered(s.word_buf),
        s.take_into_word(col, char_pos) is Some,
    ensures
        ({
            let (t, go_on) = s.take_into_word(col, char_pos)->0;
            &&& t.bare_with(t.gathered())
            &&& t.peeked is None
            &&& t.word_buf.len() > 0
            &&& t.word_buf.last().source is Document
            &&& go_on ==> !t.exhausted
        }),
{
    lemma_take_tracks(s, col, char_pos);
    lemma_peek_bare(s, col, char_pos);
    if s.peeked is None {
        assert(s.gathered() =~= s.word_buf);
        lemma_peek_tracks(s, col, char_pos);
    }
    lemma_peek_frame(s, col, char_pos);
    let looked = s.peek(col, char_pos)->0;
    let (t, go_on) = s.take_into_word(col, char_pos)->0;
    assert(t.gathered() =~= looked.gathered());
    assert(t.word_buf =~= s.word_buf.push(looked.peeked->0));
    assert(t.gathered()[t.word_buf.len() - 1] == looked.peeked->0);
}

/// A word of bare text that is moved to the next visual line.
proof fn lemma_wrap_bare<L: LineAnnotation>(s: FormatterView<L>)
    requires
        s.cells_show(),
        s.bare_with(s.gathered()),
        s.wrap_word() is Some,
    ensures
        s.wrap_word()->0.bare_with(s.wrap_word()->0.gathered()),
{
    lemma_wrap_goes_on(s);
}

/// What holds while a word of bare text is filled.
spec fn filling_bare<L: LineAnnotation>(s: FormatterView<L>) -> bool {
    &&& filling(s)
    &&& s.bare_with(s.gathered())
    &&& !s.exhausted
    &&& s.word_buf.len() > 0 ==> s.word_buf.last().source is Document
}

/// One step in filling a word of bare text.
proof fn lemma_step_bare<L: LineAnnotation>(s: FormatterView<L>)
    requires
        filling_bare(s),
        s.word_step() is Some,
    ensures
        ({
            let (t, go_on) = s.word_step()->0;
            &&& t.bare_with(t.gathered())
            &&& t.exhausted ==> t.peeked is None
            &&& go_on ==> filling_bare(t)
        }),
{
    let width = total_width(s.word_buf);
    let col = s.visual_pos.col + width;
    let pos = (s.char_pos + total_covered(s.word_buf)) as usize;
    let edge = s.fmt.viewport_width as int;
    let (t, go_on) = s.word_step()->0;
    lemma_step_tracks(s);
    lemma_no_end_parts(s);
    if col < edge {
        lemma_take_bare(s, col, pos);
    } else {
        let at_edge = col == edge && s.fmt.soft_wrap_at_text_width;
        let looked = if at_edge || s.word_buf.len() == 0 {
            lemma_peek_tracks(s, col, pos);
            lemma_peek_bare(s, col, pos);
            s.peek(col, pos)->0
        } else {
            s
        };
        if at_edge && looked.line_end_peeked() {
            lemma_take_bare(looked, col, pos);
        } else if width > s.fmt.max_wrap {
            if col > edge {
                assert(t.gathered() =~= s.gathered());
            }
        } else {
            lemma_wrap_tracks(looked);
            lemma_wrap_bare(looked);
            let w = looked.wrap_word()->0;
            lemma_take_bare(w, w.visual_pos.col + total_width(w.word_buf), pos);
        }
    }
}

/// Filling a word of bare text.
proof fn lemma_fill_bare<L: LineAnnotation>(s: FormatterView<L>)
    requires
        filling_bare(s),
        s.fill_word() is Some,
    ensures
        ({
            let t = s.fill_word()->0;
            &&& t.bare_with(t.gathered())
            &&& t.exhausted ==> t.peeked is None
        }),
    decreases
            (if s.word_buf.len() < s.word_limit() {
                s.word_limit() - s.word_buf.len()
            } else {
                0
            }),
{
    lemma_step_bare(s);
    let (t, go_on) = s.word_step()->0;
    if go_on {
        lemma_word_grows(s);
        lemma_fill_bare(t);
    }
}

/// Beginning the next word of bare text.
proof fn lemma_begin_bare<L: LineAnnotation>(s: FormatterView<L>)
    requires
        s.in_step(),
        s.bare(),
        s.word_i >= s.word_buf.len(),
        s.advance_to_next_word() is Some,
    ensures
        ({
            let full = s.advance_to_next_word()->0;
            &&& full.bare_with(full.gathered())
            &&& full.exhausted ==> full.peeked is None
        }),
{
    let begun = lemma_word_begins(s);
    let empty = FormatterView { word_buf: Seq::empty(), ..s };
    assert(empty.gathered() =~= s.waiting());
    if s.exhausted {
        let col = s.visual_pos.col as int;
        lemma_peek_bare(empty, col, s.char_pos);
        lemma_peek_is_end(empty, col);
    } else {
        lemma_fill_bare(begun);
    }
}

/// Behind the end of bare text, a look finds nothing.
proof fn lemma_peek_is_end<L: LineAnnotation>(s: FormatterView<L>, col: int)
    requires
        s.tracks(s.gathered()),
        s.fmt.tab_width > 0,
        s.bare_with(s.gathered()),
        s.word_buf.len() == 0,
        s.peeked is None,
        s.exhausted,
        s.peek(col, s.char_pos) is Some,
    ensures
        s.peek(col, s.char_pos)->0.peeked is None,
{
    let none = Seq::<CellView>::empty();
    assert(s.gathered() =~= none);
    assert(total_covered(none) == 0);
    lemma_advance_tracks(s, none, col, s.char_pos);
    lemma_advance_bare(s, none, col, s.char_pos);
    let (t, cell) = s.advance(col, s.char_pos)->0;
    if cell is Some {
        let c = cell->0;
        let after = none.push(c);
        assert(after.drop_last() =~= none);
        assert(s.doc =~= Seq::<Seq<char>>::empty());
        assert(s.doc.flatten().len() == 0);
        assert(s.text.skip(s.char_pos as int).len() == 0);
        assert(t.page().reads(s.char_pos as int, c.grapheme, c.source));
    }
}

/// Making the next word of bare text ready.
proof fn lemma_ready_bare<L: LineAnnotation>(s: FormatterView<L>)
    requires
        s.in_step(),
        s.bare(),
        s.fmt.soft_wrap,
        s.fetch() is Some,
    ensures
        made_ready(s).bare_with(made_ready(s).waiting()),
        made_ready(s).exhausted ==> made_ready(s).peeked is None,
{
    if s.word_i >= s.word_buf.len() {
        lemma_begin_bare(s);
        let full = s.advance_to_next_word()->0;
        assert(made_ready(s).waiting() =~= full.gathered());
    }
}

/// The next cell of bare text.
proof fn lemma_fetch_bare<L: LineAnnotation>(s: FormatterView<L>)
    requires
        s.in_step(),
        s.bare(),
        s.fetch() is Some,
    ensures
        ({
            let (t, cell) = s.fetch()->0;
            &&& t.bare_with(as_cells(cell) + t.waiting())
            &&& t.exhausted ==> t.peeked is None
            &&& !s.fmt.soft_wrap && cell is Some ==> cell->0.source is Document
        }),
{
    let (t, cell) = s.fetch()->0;
    if s.fmt.soft_wrap {
        lemma_ready_bare(s);
        assert(made_ready(s).waiting() =~= as_cells(cell) + t.waiting());
    } else {
        assert(s.waiting() =~= Seq::<CellView>::empty());
        lemma_advance_bare(s, s.waiting(), s.visual_pos.col as int, s.char_pos);
        lemma_advance_frame(s, s.visual_pos.col as int, s.char_pos);
        assert(t.waiting() =~= Seq::<CellView>::empty());
        assert(as_cells(cell) + t.waiting() =~= s.waiting() + as_cells(cell));
    }
}

/// A piece of ASCII text never gets stuck: it is one column wide.
proof fn lemma_ascii_is_not_stuck<L: LineAnnotation>(s: FormatterView<L>)
    requires
        s.tracks(s.waiting()),
        s.page().plain,
        ascii(s.text),
        s.fmt.max_wrap > 0,
        s.bare_with(s.waiting()),
        0 <= s.word_i <= s.word_buf.len(),
        s.peeked is Some ==> !s.peeked->0.source.at_end_of_text(),
    ensures
        !stuck(s),
{
    if stuck(s) {
        let cell = s.peeked->0;
        let p = s.char_pos as int;
        let none = Seq::<CellView>::empty();
        assert(s.waiting() =~= none.push(cell));
        assert(none.push(cell).drop_last() =~= none);
        assert(total_covered(none) == 0);
        assert(s.page().reads(p, cell.grapheme, cell.source));
        let piece = s.text.subrange(p, p + cell.source.covered());
        assert(cell.grapheme == (GraphemeView::Other { g: piece }));
        assert(piece[0] == s.text[p]);
    }
}

/// The law of bare text. Without folds and inline annotations a step leads to a state without
/// them. Without soft wrap every grapheme is of the document. And ASCII text without overlays,
/// of which a word may be moved, is always drawn to its end: no grapheme is given only then.
pub proof fn law_bare_text_is_drawn_to_its_end<L: LineAnnotation>(s: FormatterView<L>)
    requires
        s.in_step(),
        s.bare(),
        s.next() is Some,
    ensures
        ({
            let (t, found) = s.next()->0;
            &&& t.bare()
            &&& t.fmt == s.fmt
            &&& !s.fmt.soft_wrap ==> (found matches Some(g) ==> g.source is Document)
            &&& s.page().plain && ascii(s.text) && s.fmt.max_wrap > 0 && found is None
                ==> t.finished()
        }),
{
    lemma_step_goes_its_course(s);
    law_step_reads_the_document(s);
    lemma_fetch_bare(s);
    lemma_fetch_tracks(s);
    let (fetched, cell) = s.fetch()->0;
    let (t, found) = s.next()->0;
    match cell {
        Some(cell) => {},
        None => {
            assert(as_cells(None) + t.waiting() =~= t.waiting());
            law_nothing_left_at_the_end(s);
            if s.page().plain && ascii(s.text) && s.fmt.max_wrap > 0 {
                lemma_ascii_is_not_stuck(t);
            }
        },
    }
}

} // verus!
