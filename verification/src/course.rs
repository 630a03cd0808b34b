//! The course of a whole layout: which graphemes of the document it gives, and which markers.

use crate::fold::Fold;
use crate::formatted::{CellView, FormattedView, GraphemeSource};
use crate::highlight::Highlight;
use crate::layout::{
    graphemes_within, lemma_advance_frame, lemma_graphemes_within, lemma_peek_frame,
    lemma_take_inline_frame, lemma_total_covered_add, lemma_word_grows, moved_to, total_covered,
    total_width, FormatterView,
};
use crate::motion::{lemma_indicator, lemma_moved_cells_show};
use crate::reading::{
    as_cells, filling, hidden_from, law_step_reads_the_document, lemma_fetch_tracks,
    lemma_no_end_parts, lemma_peek_tracks, lemma_step_tracks, lemma_word_begins, lemma_wrap_tracks,
    made_ready,
};
use crate::rope::newlines;
use crate::text_annotations::{fold_starting, lemma_fold_starting, LineAnnotation};
use vstd::prelude::*;

verus! {

/// A grapheme that stands for part of the document, and where that begins.
#[verifier::ext_equal]
pub struct Passage {
    pub char_idx: int,
    pub source: GraphemeSource,
}

/// What a cell at char `p` stands for, if it is not virtual text.
pub open spec fn passage(p: int, cell: Option<CellView>) -> Seq<Passage> {
    match cell {
        Some(cell) => if cell.source is VirtualText {
            Seq::empty()
        } else {
            seq![Passage { char_idx: p, source: cell.source }]
        },
        None => Seq::empty(),
    }
}

/// How many chars of the document a cell stands for, if there is one.
pub open spec fn covered_by(cell: Option<CellView>) -> int {
    match cell {
        Some(cell) => cell.source.covered() as int,
        None => 0,
    }
}

/// What a row of cells stands for, from char `p` on.
pub open spec fn passages(p: int, cells: Seq<CellView>) -> Seq<Passage>
    decreases cells.len(),
{
    if cells.len() == 0 {
        Seq::empty()
    } else {
        let init = cells.drop_last();
        passages(p, init) + passage(p + total_covered(init), Some(cells.last()))
    }
}

/// What a grapheme stands for, if it is not virtual text.
pub open spec fn passage_of(g: FormattedView) -> Seq<Passage> {
    if g.source is VirtualText {
        Seq::empty()
    } else {
        seq![Passage { char_idx: g.char_idx as int, source: g.source }]
    }
}

/// What the graphemes that were drawn stand for.
pub open spec fn given(drawn: Seq<FormattedView>) -> Seq<Passage>
    decreases drawn.len(),
{
    if drawn.len() == 0 {
        Seq::empty()
    } else {
        given(drawn.drop_last()) + passage_of(drawn.last())
    }
}

/// What a document stands for that goes on with `graphemes` at char `p`: a marker for each
/// fold that is met at its start, the graphemes that no fold skips, and the end.
pub open spec fn ahead(
    graphemes: Seq<Seq<char>>,
    folds: Seq<Fold>,
    p: int,
    highlight: Option<Highlight>,
) -> Seq<Passage>
    decreases graphemes.len(),
{
    match fold_starting(folds, 0, p) {
        Some(fold) => {
            let n = graphemes_within(graphemes, fold.end_char - p) as int;
            let hidden = graphemes.take(n).flatten();
            if n <= 0 || n > graphemes.len() {
                Seq::empty()
            } else {
                seq![
                    Passage {
                        char_idx: p,
                        source: GraphemeSource::Fold {
                            highlight,
                            codepoints: hidden.len() as u32,
                            lines: newlines(hidden) as u32,
                        },
                    },
                ] + ahead(graphemes.skip(n), folds, p + hidden.len(), highlight)
            }
        },
        None => if graphemes.len() > 0 {
            let g = graphemes.first();
            seq![
                Passage {
                    char_idx: p,
                    source: GraphemeSource::Document { codepoints: g.len() as u32 },
                },
            ] + ahead(graphemes.drop_first(), folds, p + g.len(), highlight)
        } else {
            seq![Passage { char_idx: p, source: GraphemeSource::Document { codepoints: 0 } }]
        },
    }
}

/// Whether every fold hides something and starts inside the text.
pub open spec fn folds_fit(folds: Seq<Fold>, len: int) -> bool {
    forall|i: int|
        0 <= i < folds.len() ==> !(#[trigger] folds[i]).void() && folds[i].start_char < len
}

/// Whether none of the cells belongs to an annotated line end.
pub open spec fn unmarked(cells: Seq<CellView>) -> bool {
    forall|i: int| 0 <= i < cells.len() ==> !(#[trigger] cells[i]).after_line_end
}

impl<L: LineAnnotation> FormatterView<L> {
    /// What has not been read, where the document has been read up to char `p`: what a marker
    /// hides that was begun, and what is ahead.
    pub open spec fn unread(self, p: int) -> Seq<Passage> {
        (match self.marker {
            Some(marker) => seq![
                Passage {
                    char_idx: p,
                    source: GraphemeSource::Fold {
                        highlight: marker.highlight,
                        codepoints: marker.codepoints,
                        lines: marker.lines,
                    },
                },
            ],
            None => Seq::empty(),
        }) + if self.exhausted {
            Seq::empty()
        } else {
            ahead(
                self.doc,
                self.annotations.folds,
                p + self.behind_marker(),
                self.fmt.fold_marker_highlight,
            )
        }
    }

    /// What is still to be given, with `cells` read and not drawn.
    pub open spec fn course_with(self, cells: Seq<CellView>) -> Seq<Passage> {
        passages(self.char_pos as int, cells) + self.unread(self.char_pos + total_covered(cells))
    }

    /// What is still to be given.
    pub open spec fn course(self) -> Seq<Passage> {
        self.course_with(self.waiting())
    }

    /// Whether there are no inline annotations, and none of `cells` belongs to one.
    pub open spec fn quiet_with(self, cells: Seq<CellView>) -> bool {
        &&& self.annotations.inline.len() == 0
        &&& self.annotations.next_inline >= 0
        &&& self.inline is None
        &&& self.eol_anchor is None
        &&& unmarked(cells)
    }

    /// Whether there are no inline annotations.
    pub open spec fn quiet(self) -> bool {
        !self.pending_eol && self.quiet_with(self.waiting())
    }
}

/// Whether a state goes on as another one did: the same is still to be given, if the folds fit,
/// and if there were no inline annotations there are none.
pub open spec fn goes_on<L: LineAnnotation>(
    s: FormatterView<L>,
    cells: Seq<CellView>,
    t: FormatterView<L>,
    after: Seq<CellView>,
) -> bool {
    &&& t.annotations.folds == s.annotations.folds
    &&& t.text == s.text
    &&& folds_fit(s.annotations.folds, s.text.len() as int) ==> t.course_with(after)
        == s.course_with(cells)
    &&& s.quiet_with(cells) ==> t.quiet_with(after)
}

/// Without inline annotations none is taken.
pub proof fn lemma_quiet<L: LineAnnotation>(
    s: FormatterView<L>,
    cells: Seq<CellView>,
    char_pos: usize,
)
    requires
        s.quiet_with(cells),
    ensures
        s.annotations.take_inline(char_pos).1 is None,
        s.take_inline(char_pos).1 is None,
        s.take_inline(char_pos).0.quiet_with(cells),
{
    assert(s.annotations.inline_positions().len() == 0);
}

/// The next cell of a marker is taken off what has not been read.
proof fn lemma_marker_unread<L: LineAnnotation>(s: FormatterView<L>, p: int, col: int)
    requires
        s.marker is Some,
        s.marker->0.graphemes.len() > 0,
    ensures
        ({
            let (t, cell) = s.take_marker(col);
            &&& cell is Some
            &&& s.unread(p) == passage(p, cell) + t.unread(p + cell->0.source.covered())
        }),
{
    let (t, cell) = s.take_marker(col);
    assert(s.unread(p) =~= passage(p, cell) + t.unread(p + cell->0.source.covered()));
}

/// A document that was read to its end.
proof fn lemma_read_to_the_end<L: LineAnnotation>(s: FormatterView<L>, cells: Seq<CellView>)
    requires
        s.tracks(cells),
        s.marker is None,
        s.doc.len() == 0,
    ensures
        s.char_pos + total_covered(cells) == s.text.len(),
{
    assert(s.doc =~= Seq::<Seq<char>>::empty());
    assert(s.doc.flatten().len() == 0);
    assert(s.text.skip(s.char_pos + total_covered(cells)).len() == 0);
}

/// The marker that a fold begins stands for what was ahead.
proof fn lemma_fold_unread<L: LineAnnotation>(
    s: FormatterView<L>,
    cells: Seq<CellView>,
    char_pos: usize,
    fold: Fold,
)
    requires
        s.tracks(cells),
        s.marker is None,
        folds_fit(s.annotations.folds, s.text.len() as int),
        char_pos == s.char_pos + total_covered(cells),
        s.annotations.fold_at_start(char_pos) == Some(fold),
        s.begin_fold(char_pos, fold) is Some,
    ensures
        s.unread(char_pos as int) == s.begin_fold(char_pos, fold)->0.unread(char_pos as int),
{
    let p = char_pos as int;
    let folds = s.annotations.folds;
    let begun = s.begin_fold(char_pos, fold)->0;
    lemma_fold_starting(folds, 0, p);
    let i = choose|i: int|
        0 <= i < folds.len() && #[trigger] folds[i] == fold && fold.start_char == p;
    assert(!folds[i].void() && folds[i].start_char < s.text.len());
    if s.doc.len() == 0 {
        lemma_read_to_the_end(s, cells);
    }
    let n = graphemes_within(s.doc, fold.end_char - p) as int;
    lemma_graphemes_within(s.doc, fold.end_char - p);
    assert(s.doc.skip(0) =~= s.doc);
    assert(hidden_from(s.doc, 0, folds[i]).len() <= u32::MAX);
    assert(n >= 1);
    assert(s.unread(p) =~= begun.unread(p));
}

/// What is read where no fold is near is taken off what has not been read.
proof fn lemma_text_unread<L: LineAnnotation>(
    s: FormatterView<L>,
    cells: Seq<CellView>,
    col: int,
    char_pos: usize,
)
    requires
        s.tracks(cells),
        s.marker is None,
        s.annotations.fold_at_start(char_pos) is None,
        char_pos == s.char_pos + total_covered(cells),
    ensures
        ({
            let (t, cell) = s.advance_in_text(col, char_pos);
            s.unread(char_pos as int) == passage(char_pos as int, cell) + t.unread(
                char_pos + covered_by(cell),
            )
        }),
{
    let p = char_pos as int;
    let (t, cell) = s.advance_in_text(col, char_pos);
    lemma_take_inline_frame(s, char_pos);
    if s.doc.len() > 0 {
        assert(s.doc[0].len() <= u32::MAX);
        assert(s.doc[0].len() > 0);
    }
    assert(s.unread(p) =~= passage(p, cell) + t.unread(p + covered_by(cell)));
}

/// What is read is taken off what has not been read.
proof fn lemma_advance_unread<L: LineAnnotation>(
    s: FormatterView<L>,
    cells: Seq<CellView>,
    col: int,
    char_pos: usize,
)
    requires
        s.tracks(cells),
        folds_fit(s.annotations.folds, s.text.len() as int),
        char_pos == s.char_pos + total_covered(cells),
        s.advance(col, char_pos) is Some,
    ensures
        ({
            let (t, cell) = s.advance(col, char_pos)->0;
            s.unread(char_pos as int) == passage(char_pos as int, cell) + t.unread(
                char_pos + covered_by(cell),
            )
        }),
{
    let p = char_pos as int;
    let (after, cell) = s.advance(col, char_pos)->0;
    let t = match s.eol_anchor {
        Some(anchor) => {
            lemma_take_inline_frame(s, anchor);
            FormatterView { eol_anchor: None, ..s.take_inline(anchor).0 }
        },
        None => s,
    };
    assert(t.unread(p) == s.unread(p));
    if s.eol_anchor is Some && s.take_inline(s.eol_anchor->0).1 is Some {
        assert(after.unread(p) == s.unread(p));
        assert(s.unread(p) =~= passage(p, cell) + after.unread(p));
    } else {
        assert(t.tracks(cells));
        if t.marker is Some {
            lemma_marker_unread(t, p, col);
        } else {
            match t.annotations.fold_at_start(char_pos) {
                Some(fold) => {
                    lemma_fold_unread(t, cells, char_pos, fold);
                    lemma_marker_unread(t.begin_fold(char_pos, fold)->0, p, col);
                },
                None => lemma_text_unread(t, cells, col, char_pos),
            }
        }
    }
}

/// Without inline annotations, no cell that is read belongs to one.
pub proof fn lemma_advance_quiet<L: LineAnnotation>(
    s: FormatterView<L>,
    cells: Seq<CellView>,
    col: int,
    char_pos: usize,
)
    requires
        s.quiet_with(cells),
        s.advance(col, char_pos) is Some,
    ensures
        ({
            let (t, cell) = s.advance(col, char_pos)->0;
            t.quiet_with(cells + as_cells(cell))
        }),
{
    lemma_quiet(s, cells, char_pos);
    let (t1, _) = s.take_marker(col);
    lemma_quiet(t1, cells, char_pos);
    lemma_take_inline_frame(t1, char_pos);
    let (t, cell) = s.advance(col, char_pos)->0;
    assert(cell is Some ==> !cell->0.after_line_end);
    let after = cells + as_cells(cell);
    assert forall|i: int| 0 <= i < after.len() implies !(#[trigger] after[i]).after_line_end by {
        if i < cells.len() {
            assert(after[i] == cells[i]);
        }
    }
}

/// Reading a cell goes on.
proof fn lemma_advance_goes_on<L: LineAnnotation>(
    s: FormatterView<L>,
    cells: Seq<CellView>,
    col: int,
    char_pos: usize,
)
    requires
        s.tracks(cells),
        s.fmt.tab_width > 0,
        char_pos == s.char_pos + total_covered(cells),
        s.advance(col, char_pos) is Some,
    ensures
        ({
            let (t, cell) = s.advance(col, char_pos)->0;
            goes_on(s, cells, t, cells + as_cells(cell))
        }),
{
    let (t, cell) = s.advance(col, char_pos)->0;
    let fit = folds_fit(s.annotations.folds, s.text.len() as int);
    if fit {
        lemma_advance_unread(s, cells, col, char_pos);
    }
    lemma_advance_frame(s, col, char_pos);
    if s.quiet_with(cells) {
        lemma_advance_quiet(s, cells, col, char_pos);
    }
    match cell {
        Some(cell) => {
            let after = cells + as_cells(Some(cell));
            assert(after.drop_last() =~= cells);
            assert(fit ==> t.course_with(after) =~= s.course_with(cells));
        },
        None => {
            assert(cells + as_cells(None) =~= cells);
            assert(fit ==> t.course_with(cells) =~= s.course_with(cells));
        },
    }
}

/// A look at the next cell goes on.
proof fn lemma_peek_goes_on<L: LineAnnotation>(s: FormatterView<L>, col: int, char_pos: usize)
    requires
        s.cells_show(),
        s.tracks(s.gathered()),
        char_pos == s.char_pos + total_covered(s.word_buf),
        s.peek(col, char_pos) is Some,
    ensures
        goes_on(s, s.gathered(), s.peek(col, char_pos)->0, s.peek(col, char_pos)->0.gathered()),
{
    if s.peeked is None {
        assert(s.gathered() =~= s.word_buf);
        lemma_advance_frame(s, col, char_pos);
        lemma_advance_goes_on(s, s.word_buf, col, char_pos);
    }
}

/// A cell that goes into the word goes on.
proof fn lemma_take_goes_on<L: LineAnnotation>(s: FormatterView<L>, col: int, char_pos: usize)
    requires
        s.cells_show(),
        s.tracks(s.gathered()),
        char_pos == s.char_pos + total_covered(s.word_buf),
        s.take_into_word(col, char_pos) is Some,
    ensures
        ({
            let t = (s.take_into_word(col, char_pos)->0).0;
            goes_on(s, s.gathered(), t, t.gathered())
        }),
{
    lemma_peek_frame(s, col, char_pos);
    lemma_peek_goes_on(s, col, char_pos);
    let looked = s.peek(col, char_pos)->0;
    let t = (s.take_into_word(col, char_pos)->0).0;
    assert(t.gathered() =~= looked.gathered());
}

/// What a row of cells stands for is what its parts stand for.
proof fn lemma_passages_add(p: int, a: Seq<CellView>, b: Seq<CellView>)
    ensures
        passages(p, a + b) == passages(p, a) + passages(p + total_covered(a), b),
    decreases b.len(),
{
    if b.len() == 0 {
        assert(a + b =~= a);
        assert(passages(p, a + b) =~= passages(p, a) + passages(p + total_covered(a), b));
    } else {
        assert((a + b).drop_last() =~= a + b.drop_last());
        lemma_passages_add(p, a, b.drop_last());
        lemma_total_covered_add(a, b.drop_last());
        assert(passages(p, a + b) =~= passages(p, a) + passages(p + total_covered(a), b));
    }
}

/// What one cell stands for.
proof fn lemma_passages_one(p: int, cell: CellView)
    ensures
        passages(p, seq![cell]) == passage(p, Some(cell)),
        total_covered(seq![cell]) == cell.source.covered(),
{
    let init = seq![cell].drop_last();
    assert(init =~= Seq::<CellView>::empty());
    assert(passages(p, init).len() == 0);
    assert(total_covered(init) == 0);
    assert(passages(p, seq![cell]) =~= passage(p, Some(cell)));
}

/// What cells stand for depends on where they come from only.
proof fn lemma_passages_same(p: int, a: Seq<CellView>, b: Seq<CellView>)
    requires
        a.len() == b.len(),
        forall|i: int| 0 <= i < a.len() ==> (#[trigger] a[i]).source == b[i].source,
    ensures
        passages(p, a) == passages(p, b),
        total_covered(a) == total_covered(b),
    decreases a.len(),
{
    if a.len() > 0 {
        assert(a[a.len() - 1].source == b[b.len() - 1].source);
        assert forall|i: int| 0 <= i < a.len() - 1 implies (
        #[trigger] a.drop_last()[i]).source == b.drop_last()[i].source by {
            assert(a[i].source == b[i].source);
        }
        lemma_passages_same(p, a.drop_last(), b.drop_last());
    }
}

/// Virtual text stands for nothing.
proof fn lemma_passages_virtual(p: int, cells: Seq<CellView>)
    requires
        forall|i: int| 0 <= i < cells.len() ==> (#[trigger] cells[i]).source is VirtualText,
    ensures
        passages(p, cells).len() == 0,
    decreases cells.len(),
{
    if cells.len() > 0 {
        assert(cells[cells.len() - 1].source is VirtualText);
        assert forall|i: int| 0 <= i < cells.len() - 1 implies (
        #[trigger] cells.drop_last()[i]).source is VirtualText by {
            assert(cells[i].source is VirtualText);
        }
        lemma_passages_virtual(p, cells.drop_last());
    }
}

/// A word that is moved to the next visual line goes on.
pub proof fn lemma_wrap_goes_on<L: LineAnnotation>(s: FormatterView<L>)
    requires
        s.cells_show(),
        s.wrap_word() is Some,
    ensures
        goes_on(s, s.gathered(), s.wrap_word()->0, s.wrap_word()->0.gathered()),
{
    let t = s.wrap_word()->0;
    let tab_width = s.fmt.tab_width as int;
    let indent = s.carried_indent();
    let indicator = s.indicator();
    let x = indent + total_width(indicator);
    let moved = moved_to(s.word_buf, x, tab_width);
    let p = s.char_pos as int;
    let rest = moved + as_cells(t.peeked);
    lemma_indicator(s);
    lemma_moved_cells_show(s.word_buf, x, tab_width);
    assert(t.gathered() =~= indicator + rest);
    lemma_passages_add(p, indicator, rest);
    lemma_total_covered_add(indicator, rest);
    lemma_passages_virtual(p, indicator);
    assert forall|i: int| 0 <= i < rest.len() implies (#[trigger] rest[i]).source
        == s.gathered()[i].source && rest[i].after_line_end == s.gathered()[i].after_line_end by {
        if i < moved.len() {
            assert(rest[i] == moved[i]);
            assert(s.gathered()[i] == s.word_buf[i]);
        }
    }
    lemma_passages_same(p, rest, s.gathered());
    assert(t.course_with(t.gathered()) =~= s.course_with(s.gathered()));
    if s.quiet_with(s.gathered()) {
        assert(!s.behind_line_end()) by {
            if s.gathered().len() > 0 {
                assert(!s.gathered()[0].after_line_end);
            }
        }
        assert forall|i: int| 0 <= i < t.gathered().len() implies !(
        #[trigger] t.gathered()[i]).after_line_end by {
            if i < indicator.len() {
                assert(t.gathered()[i] == indicator[i]);
            } else {
                assert(t.gathered()[i] == rest[i - indicator.len()]);
                assert(!s.gathered()[i - indicator.len()].after_line_end);
            }
        }
    }
}

/// One step in filling a word goes on.
proof fn lemma_step_goes_on<L: LineAnnotation>(s: FormatterView<L>)
    requires
        filling(s),
        s.word_step() is Some,
    ensures
        ({
            let t = (s.word_step()->0).0;
            goes_on(s, s.gathered(), t, t.gathered())
        }),
{
    let width = total_width(s.word_buf);
    let col = s.visual_pos.col + width;
    let pos = (s.char_pos + total_covered(s.word_buf)) as usize;
    let edge = s.fmt.viewport_width as int;
    let t = (s.word_step()->0).0;
    lemma_no_end_parts(s);
    if col < edge {
        lemma_take_goes_on(s, col, pos);
    } else {
        let at_edge = col == edge && s.fmt.soft_wrap_at_text_width;
        let looked = if at_edge || s.word_buf.len() == 0 {
            lemma_peek_tracks(s, col, pos);
            lemma_peek_goes_on(s, col, pos);
            s.peek(col, pos)->0
        } else {
            s
        };
        if at_edge && looked.line_end_peeked() {
            lemma_take_goes_on(looked, col, pos);
        } else if width > s.fmt.max_wrap {
            if col > edge {
                assert(t.gathered() =~= s.gathered());
            }
        } else {
            lemma_wrap_tracks(looked);
            lemma_wrap_goes_on(looked);
            let w = looked.wrap_word()->0;
            lemma_take_goes_on(w, w.visual_pos.col + total_width(w.word_buf), pos);
        }
    }
}

/// Filling a word goes on.
proof fn lemma_fill_goes_on<L: LineAnnotation>(s: FormatterView<L>)
    requires
        filling(s),
        s.fill_word() is Some,
    ensures
        goes_on(s, s.gathered(), s.fill_word()->0, s.fill_word()->0.gathered()),
    decreases
            (if s.word_buf.len() < s.word_limit() {
                s.word_limit() - s.word_buf.len()
            } else {
                0
            }),
{
    lemma_step_goes_on(s);
    lemma_step_tracks(s);
    let (t, go_on) = s.word_step()->0;
    if go_on {
        lemma_word_grows(s);
        lemma_fill_goes_on(t);
    }
}

/// Beginning the next word goes on.
proof fn lemma_begin_goes_on<L: LineAnnotation>(s: FormatterView<L>)
    requires
        s.in_step(),
        s.word_i >= s.word_buf.len(),
        s.advance_to_next_word() is Some,
    ensures
        ({
            let full = s.advance_to_next_word()->0;
            goes_on(s, s.waiting(), full, full.gathered())
        }),
{
    let begun = lemma_word_begins(s);
    let empty = FormatterView { word_buf: Seq::empty(), ..s };
    assert(empty.gathered() =~= s.waiting());
    assert(goes_on(s, s.waiting(), empty, empty.gathered()));
    if s.exhausted {
        assert(total_covered(empty.word_buf) == 0);
        lemma_peek_goes_on(empty, s.visual_pos.col as int, s.char_pos);
    }
    assert(goes_on(s, s.waiting(), begun, begun.gathered()));
    if !(s.exhausted && begun.peeked is None) {
        lemma_fill_goes_on(begun);
    }
}

/// Making the next word ready goes on.
proof fn lemma_ready_goes_on<L: LineAnnotation>(s: FormatterView<L>)
    requires
        s.in_step(),
        s.fmt.soft_wrap,
        s.fetch() is Some,
    ensures
        goes_on(s, s.waiting(), made_ready(s), made_ready(s).waiting()),
{
    if s.word_i >= s.word_buf.len() {
        lemma_begin_goes_on(s);
        let full = s.advance_to_next_word()->0;
        assert(made_ready(s).waiting() =~= full.gathered());
    }
}

/// The next cell goes on.
pub proof fn lemma_fetch_goes_on<L: LineAnnotation>(s: FormatterView<L>)
    requires
        s.in_step(),
        s.fetch() is Some,
    ensures
        ({
            let (t, cell) = s.fetch()->0;
            goes_on(s, s.waiting(), t, as_cells(cell) + t.waiting())
        }),
{
    let (t, cell) = s.fetch()->0;
    if s.fmt.soft_wrap {
        lemma_ready_goes_on(s);
        assert(made_ready(s).waiting() =~= as_cells(cell) + t.waiting());
    } else {
        assert(s.waiting() =~= Seq::<CellView>::empty());
        lemma_advance_goes_on(s, s.waiting(), s.visual_pos.col as int, s.char_pos);
        lemma_advance_frame(s, s.visual_pos.col as int, s.char_pos);
        assert(t.waiting() =~= Seq::<CellView>::empty());
        assert(as_cells(cell) + t.waiting() =~= s.waiting() + as_cells(cell));
    }
}

/// Putting a cell on the screen gives what it stands for.
proof fn lemma_place_gives<L: LineAnnotation>(s: FormatterView<L>, cell: CellView)
    requires
        s.place(cell) is Some,
    ensures
        ({
            let (t, g) = s.place(cell)->0;
            &&& t.waiting() == s.waiting()
            &&& s.course_with(seq![cell] + s.waiting()) == passage_of(g) + t.course()
            &&& !s.pending_eol && s.quiet_with(seq![cell] + s.waiting()) ==> t.quiet()
        }),
{
    let (t, g) = s.place(cell)->0;
    let p = s.char_pos as int;
    let waiting = s.waiting();
    let cells = seq![cell] + waiting;
    assert(t.waiting() =~= waiting);
    lemma_passages_add(p, seq![cell], waiting);
    lemma_total_covered_add(seq![cell], waiting);
    lemma_passages_one(p, cell);
    assert(s.course_with(cells) =~= passage_of(g) + t.course());
    if s.quiet_with(cells) {
        assert(cells[0] == cell);
        assert forall|i: int| 0 <= i < waiting.len() implies !(
        #[trigger] waiting[i]).after_line_end by {
            assert(waiting[i] == cells[i + 1]);
        }
    }
}

/// A step takes what it gives off what was to be given, and leads to a state without inline
/// annotations from one without.
pub proof fn lemma_step_goes_its_course<L: LineAnnotation>(s: FormatterView<L>)
    requires
        s.in_step(),
        s.next() is Some,
    ensures
        ({
            let (t, found) = s.next()->0;
            &&& folds_fit(s.annotations.folds, s.text.len() as int) ==> {
                &&& found matches Some(g) ==> s.course() == passage_of(g) + t.course()
                &&& found is None ==> s.course() == t.course()
            }
            &&& s.quiet() ==> t.quiet()
        }),
{
    lemma_fetch_goes_on(s);
    lemma_fetch_tracks(s);
    let (fetched, cell) = s.fetch()->0;
    match cell {
        Some(cell) => {
            lemma_place_gives(fetched, cell);
        },
        None => {
            assert(as_cells(None) + fetched.waiting() =~= fetched.waiting());
        },
    }
}

/// The law of the course. A step takes what it gives off what was to be given, and nothing
/// else: virtual text comes on top.
pub proof fn law_step_keeps_the_course<L: LineAnnotation>(s: FormatterView<L>)
    requires
        s.in_step(),
        folds_fit(s.annotations.folds, s.text.len() as int),
        s.next() is Some,
    ensures
        ({
            let (t, found) = s.next()->0;
            &&& found matches Some(g) ==> s.course() == passage_of(g) + t.course()
            &&& found is None ==> s.course() == t.course()
        }),
{
    lemma_step_goes_its_course(s);
}

/// Nothing is still to be given when everything was drawn.
proof fn lemma_finished_course<L: LineAnnotation>(s: FormatterView<L>)
    requires
        s.in_step(),
        folds_fit(s.annotations.folds, s.text.len() as int),
        s.finished(),
    ensures
        s.course().len() == 0,
{
    assert(s.waiting() =~= Seq::<CellView>::empty());
    let p = s.char_pos as int;
    if s.marker is Some {
        let folds = s.annotations.folds;
        lemma_fold_starting(folds, 0, p);
        assert(s.doc =~= Seq::<Seq<char>>::empty());
        assert(s.doc.flatten().len() == 0);
        assert(s.text.skip(p).len() == 0);
        let i = choose|i: int|
            0 <= i < folds.len() && #[trigger] folds[i] == fold_starting(folds, 0, p)->0
                && folds[i].start_char == p;
        assert(folds[i].start_char < s.text.len());
    }
}

/// One more grapheme.
proof fn lemma_given_push(drawn: Seq<FormattedView>, g: FormattedView, rest: Seq<Passage>)
    ensures
        given(drawn.push(g)) + rest == given(drawn) + (passage_of(g) + rest),
{
    assert(drawn.push(g).drop_last() =~= drawn);
    assert(given(drawn.push(g)) + rest =~= given(drawn) + (passage_of(g) + rest));
}

/// What a run gave and what is still to be given is what was to be given.
proof fn lemma_run_keeps_the_course<L: LineAnnotation>(s: FormatterView<L>, n: nat)
    requires
        s.in_step(),
        folds_fit(s.annotations.folds, s.text.len() as int),
        s.run(n) is Some,
    ensures
        ({
            let (t, drawn) = s.run(n)->0;
            &&& t.in_step()
            &&& t.page() == s.page()
            &&& s.course() == given(drawn) + t.course()
        }),
    decreases n,
{
    if n == 0 {
        assert(given(Seq::empty()) + s.course() =~= s.course());
    } else {
        lemma_run_keeps_the_course(s, (n - 1) as nat);
        let (t, drawn) = s.run((n - 1) as nat)->0;
        law_step_reads_the_document(t);
        law_step_keeps_the_course(t);
        let (u, found) = t.next()->0;
        if found is Some {
            lemma_given_push(drawn, found->0, u.course());
        }
    }
}

/// The law of the whole course. A run that drew everything gave what was to be given, in order.
pub proof fn law_finished_run_gives_the_course<L: LineAnnotation>(s: FormatterView<L>, n: nat)
    requires
        s.in_step(),
        folds_fit(s.annotations.folds, s.text.len() as int),
        s.run(n) is Some,
        (s.run(n)->0).0.finished(),
    ensures
        given((s.run(n)->0).1) == s.course(),
{
    lemma_run_keeps_the_course(s, n);
    let (t, drawn) = s.run(n)->0;
    lemma_finished_course(t);
    assert(given(drawn) + t.course() =~= given(drawn));
}

} // verus!
