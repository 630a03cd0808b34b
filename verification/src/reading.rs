//! What is drawn is the document: every char of it is drawn or hidden, once, in order.

use crate::fold::Fold;
use crate::formatted::{CellView, FormattedView, GraphemeSource};
use crate::graphemes::GraphemeView;
use crate::layout::{
    graphemes_within, lemma_advance_frame, lemma_flatten_take_step, lemma_graphemes_within,
    lemma_moved_covered, lemma_peek_frame, lemma_take_inline_frame, lemma_total_covered_add,
    lemma_word_grows, lemma_wrapped_covered, line_ends_at, moved_to, total_covered, total_width,
    FormatterView,
};
use crate::motion::{
    lemma_indicator, lemma_moved_cells_show, lemma_moved_shows, lemma_spelled_shows,
};
use crate::rope::newlines;
use crate::stream::{lemma_overlay_found, lemma_seek_finds, look, overlaid_text, shape};
use crate::text_annotations::{
    fold_starting, lemma_fold_starting, lemma_seek, run_end, seek, AnnotationsView, InlineView,
    LineAnnotation, OverlayView,
};
use crate::text_format::TextFormat;
use crate::unicode::{ascii, is_line_ending, well_segmented};
use vstd::prelude::*;

verus! {

/// Whether a grapheme is drawn for `piece` as it is.
pub open spec fn spells(grapheme: GraphemeView, piece: Seq<char>) -> bool {
    match grapheme {
        GraphemeView::Newline => is_line_ending(piece),
        GraphemeView::Tab { .. } => piece == seq!['\t'],
        GraphemeView::Other { g } => g == piece && piece != seq!['\t'] && !is_line_ending(piece),
    }
}

/// The chars that a fold hides if it starts with grapheme `k`.
pub open spec fn hidden_from(graphemes: Seq<Seq<char>>, k: int, fold: Fold) -> Seq<char> {
    let rest = graphemes.skip(k);
    rest.take(graphemes_within(rest, fold.end_char - fold.start_char) as int).flatten()
}

/// Whether the chars of each grapheme, and those that a fold hides, wherever it starts, can be
/// counted by the source of a grapheme.
pub open spec fn counted(graphemes: Seq<Seq<char>>, folds: Seq<Fold>) -> bool {
    &&& forall|i: int| 0 <= i < graphemes.len() ==> #[trigger] graphemes[i].len() <= u32::MAX
    &&& forall|k: int, i: int|
        0 <= k <= graphemes.len() && 0 <= i < folds.len() ==> #[trigger] hidden_from(
            graphemes,
            k,
            folds[i],
        ).len() <= u32::MAX
}

/// A document as it is drawn.
pub struct Page {
    pub text: Seq<char>,
    pub folds: Seq<Fold>,
    /// Whether no overlay hides how the text is spelled.
    pub plain: bool,
    pub inline: Seq<InlineView>,
    pub overlays: Seq<OverlayView>,
}

impl Page {
    /// Whether the overlays are given in the order of their chars.
    pub open spec fn overlays_sorted(self) -> bool {
        forall|i: int, j: int|
            0 <= i <= j < self.overlays.len() ==> (#[trigger] self.overlays[i]).char_idx <= (
            #[trigger] self.overlays[j]).char_idx
    }

    /// What a grapheme at char `p` says of the document. One of the document stands for a
    /// piece of the text at which no fold starts, or for the end of the text. It is spelled as
    /// it is if the page is plain; with overlays in order, as the last overlay of its first
    /// char, if there is one. One that hides a fold stands for the text to the end of the
    /// fold at least, or to the end of the text, and carries the line feeds in there.
    pub open spec fn reads(self, p: int, grapheme: GraphemeView, source: GraphemeSource) -> bool {
        let end = p + source.covered();
        let fold = fold_starting(self.folds, 0, p);
        &&& 0 <= p && end <= self.text.len()
        &&& match source {
            GraphemeSource::VirtualText { .. } => true,
            GraphemeSource::Document { codepoints } => if codepoints == 0 {
                &&& p == self.text.len()
                &&& grapheme == (GraphemeView::Other { g: seq![' '] })
            } else {
                let piece = self.text.subrange(p, end);
                &&& fold is None
                &&& self.plain ==> spells(grapheme, piece)
                &&& self.overlays_sorted() ==> look(grapheme) == shape(
                    overlaid_text(self.overlays, p, piece),
                )
                &&& piece.contains('\n') ==> is_line_ending(piece)
            },
            GraphemeSource::Fold { lines, .. } => {
                &&& fold is Some
                &&& end >= fold->0.end_char || end == self.text.len()
                &&& lines == newlines(self.text.subrange(p, end))
            },
        }
    }

    /// Whether an inline annotation is anchored at char `p`.
    pub open spec fn annotated_at(self, p: int) -> bool {
        exists|i: int| 0 <= i < self.inline.len() && (#[trigger] self.inline[i]).char_idx == p
    }

    /// What a cell at char `p` says of the document. One of the document that is marked for
    /// the annotations behind it has one.
    pub open spec fn cell_reads(self, p: int, cell: CellView) -> bool {
        &&& self.reads(p, cell.grapheme, cell.source)
        &&& cell.source is Document && cell.after_line_end ==> self.annotated_at(p)
    }

    /// What a row of cells says of the text from char `p` on.
    pub open spec fn reads_all(self, p: int, cells: Seq<CellView>) -> bool
        decreases cells.len(),
    {
        cells.len() == 0 || {
            &&& self.reads_all(p, cells.drop_last())
            &&& self.cell_reads(p + total_covered(cells.drop_last()), cells.last())
        }
    }

    /// Whether graphemes stand for the text from char `from` to char `to`, in order and
    /// without a gap.
    pub open spec fn read_through(self, from: int, graphemes: Seq<FormattedView>, to: int) -> bool
        decreases graphemes.len(),
    {
        if graphemes.len() == 0 {
            from == to
        } else {
            let g = graphemes.last();
            &&& self.read_through(from, graphemes.drop_last(), g.char_idx as int)
            &&& self.reads(g.char_idx as int, g.raw, g.source)
            &&& to == g.char_idx + g.source.covered()
        }
    }
}

/// Whether none of the cells is the blank behind the text.
pub open spec fn no_end(cells: Seq<CellView>) -> bool {
    forall|i: int| 0 <= i < cells.len() ==> !(#[trigger] cells[i]).source.at_end_of_text()
}

/// Whether at most one of the cells is the blank behind the text.
pub open spec fn one_end(cells: Seq<CellView>) -> bool {
    forall|i: int, j: int|
        0 <= i < j < cells.len() && (#[trigger] cells[i]).source.at_end_of_text() ==> !(
        #[trigger] cells[j]).source.at_end_of_text()
}

/// Whether none of the cells that hide a fold belongs to a line end.
pub open spec fn folds_unmarked(cells: Seq<CellView>) -> bool {
    forall|i: int|
        0 <= i < cells.len() && (#[trigger] cells[i]).source is Fold ==> !cells[i].after_line_end
}

/// A cell, or none, as a row of cells.
pub open spec fn as_cells(cell: Option<CellView>) -> Seq<CellView> {
    match cell {
        Some(cell) => seq![cell],
        None => Seq::empty(),
    }
}

impl<L: LineAnnotation> FormatterView<L> {
    /// The state after `n` steps, and the graphemes that they gave.
    pub open spec fn run(self, n: nat) -> Option<(Self, Seq<FormattedView>)>
        decreases n,
    {
        if n == 0 {
            Some((self, Seq::empty()))
        } else {
            match self.run((n - 1) as nat) {
                None => None,
                Some((s, drawn)) => match s.next() {
                    None => None,
                    Some((t, None)) => Some((t, drawn)),
                    Some((t, Some(g))) => Some((t, drawn.push(g))),
                },
            }
        }
    }

    /// The cells that have been read and not drawn.
    pub open spec fn waiting(self) -> Seq<CellView> {
        self.word_buf.skip(self.word_i) + as_cells(self.peeked)
    }

    /// The cells that have been read since the last word.
    pub open spec fn gathered(self) -> Seq<CellView> {
        self.word_buf + as_cells(self.peeked)
    }

    /// The chars that were skipped for a fold marker which is not complete.
    pub open spec fn behind_marker(self) -> int {
        match self.marker {
            Some(marker) => marker.codepoints as int,
            None => 0,
        }
    }

    /// The document as the layout draws it.
    pub open spec fn page(self) -> Page {
        Page {
            text: self.text,
            folds: self.annotations.folds,
            plain: self.annotations.overlays.len() == 0,
            inline: self.annotations.inline,
            overlays: self.annotations.overlays,
        }
    }

    /// Whether the overlays before `next_overlay` are of chars before char `q`, if they are in
    /// order.
    pub open spec fn overlays_passed(self, q: int) -> bool {
        self.page().overlays_sorted() ==> forall|i: int|
            0 <= i < self.annotations.next_overlay && i < self.annotations.overlays.len() ==> (
            #[trigger] self.annotations.overlays[i]).char_idx < q
    }

    /// How the state belongs to the document, with `cells` read and not drawn: the cells
    /// go on where the last grapheme ended, then what a fold marker hides, then the
    /// graphemes that have not been read, and that is the document to its end.
    pub open spec fn tracks(self, cells: Seq<CellView>) -> bool {
        let p = self.char_pos + total_covered(cells);
        let q = p + self.behind_marker();
        &&& counted(self.doc, self.annotations.folds)
        &&& self.fold_marker.len() > 0
        &&& self.annotations.next_inline >= 0
        &&& self.annotations.next_overlay >= 0
        &&& self.overlays_passed(q)
        &&& q <= self.text.len()
        &&& self.doc.flatten() == self.text.skip(q)
        &&& well_segmented(self.doc)
        &&& self.page().reads_all(self.char_pos as int, cells)
        &&& one_end(cells)
        &&& folds_unmarked(cells)
        &&& self.marker is Some ==> {
            &&& self.marker->0.graphemes.len() > 0
            &&& self.marker->0.lines == newlines(self.text.subrange(p, q))
            &&& fold_starting(self.annotations.folds, 0, p) matches Some(fold) && (q
                >= fold.end_char || q == self.text.len())
        }
        &&& self.exhausted ==> self.doc.len() == 0 && self.behind_marker() == 0
        &&& !self.exhausted ==> no_end(cells)
    }

    /// Whether everything was drawn.
    pub open spec fn finished(self) -> bool {
        self.exhausted && self.waiting().len() == 0
    }

    /// Whether the blank behind the text was given.
    pub open spec fn ended(self) -> bool {
        self.exhausted && self.char_pos == self.text.len() && no_end(self.waiting())
    }

    /// Whether the state belongs to a document whose graphemes can be counted, drawn with a
    /// fold marker that is not empty.
    pub open spec fn in_step(self) -> bool {
        &&& self.cells_show()
        &&& 0 <= self.word_i <= self.word_buf.len()
        &&& self.tracks(self.waiting())
        &&& self.peeked is Some ==> !self.peeked->0.source.at_end_of_text()
        &&& !self.fmt.soft_wrap ==> self.word_buf.len() == 0 && self.peeked is None
    }
}

/// A row of cells reads what its parts read.
proof fn lemma_reads_add(
    page: Page,
    p: int,
    a: Seq<CellView>,
    b: Seq<CellView>,
)
    ensures
        page.reads_all(p, a + b) == (page.reads_all(p, a) && page.reads_all(
            p + total_covered(a),
            b,
        )),
    decreases b.len(),
{
    if b.len() == 0 {
        assert(a + b =~= a);
    } else {
        assert((a + b).drop_last() =~= a + b.drop_last());
        lemma_reads_add(page, p, a, b.drop_last());
        lemma_total_covered_add(a, b.drop_last());
    }
}

/// The first cell of a row reads the text where the row begins.
pub proof fn lemma_first_reads(page: Page, p: int, cell: CellView, rest: Seq<CellView>)
    requires
        page.reads_all(p, seq![cell] + rest),
    ensures
        page.reads(p, cell.grapheme, cell.source),
{
    let none = Seq::<CellView>::empty();
    lemma_reads_add(page, p, seq![cell], rest);
    assert(none.push(cell) =~= seq![cell]);
    lemma_reads_push(page, p, none, cell);
}

/// One more cell.
proof fn lemma_reads_push(
    page: Page,
    p: int,
    cells: Seq<CellView>,
    cell: CellView,
)
    ensures
        total_covered(cells.push(cell)) == total_covered(cells) + cell.source.covered(),
        page.reads_all(p, cells.push(cell)) == (page.reads_all(p, cells) && page.cell_reads(
            p + total_covered(cells),
            cell,
        )),
{
    assert(cells.push(cell).drop_last() =~= cells);
}

/// Text that is cut into pieces, with the first `n` of them taken off.
pub proof fn lemma_flatten_split(pieces: Seq<Seq<char>>, n: int)
    requires
        0 <= n <= pieces.len(),
    ensures
        pieces.flatten() == pieces.take(n).flatten() + pieces.skip(n).flatten(),
    decreases n,
{
    if n == 0 {
        assert(pieces.take(0) =~= Seq::<Seq<char>>::empty());
        assert(pieces.skip(0) =~= pieces);
        assert(pieces.flatten() =~= pieces.take(0).flatten() + pieces.flatten());
    } else {
        lemma_flatten_split(pieces, n - 1);
        lemma_flatten_take_step(pieces, n - 1);
        let rest = pieces.skip(n - 1);
        assert(rest.first() == pieces[n - 1]);
        assert(rest.drop_first() =~= pieces.skip(n));
        assert(pieces.flatten() =~= pieces.take(n).flatten() + pieces.skip(n).flatten());
    }
}

/// The rest of a text, cut in two.
pub proof fn lemma_cut(text: Seq<char>, p: int, a: Seq<char>, b: Seq<char>)
    requires
        0 <= p <= text.len(),
        text.skip(p) == a + b,
    ensures
        p + a.len() <= text.len(),
        a == text.subrange(p, p + a.len()),
        b == text.skip(p + a.len()),
{
    let rest = text.skip(p);
    assert(rest.len() == a.len() + b.len());
    assert forall|i: int| 0 <= i < a.len() implies a[i] == #[trigger] text.subrange(
        p,
        p + a.len(),
    )[i] by {
        assert(rest[i] == (a + b)[i]);
    }
    assert(a =~= text.subrange(p, p + a.len()));
    assert forall|i: int| 0 <= i < b.len() implies b[i] == #[trigger] text.skip(p + a.len())[i] by {
        assert(rest[a.len() + i] == (a + b)[a.len() + i]);
    }
    assert(b =~= text.skip(p + a.len()));
}

/// What is left of well segmented pieces is well segmented.
proof fn lemma_segmented_skip(pieces: Seq<Seq<char>>, n: int)
    requires
        well_segmented(pieces),
        0 <= n <= pieces.len(),
    ensures
        well_segmented(pieces.skip(n)),
{
    let rest = pieces.skip(n);
    assert forall|i: int| 0 <= i < rest.len() implies #[trigger] rest[i].len() > 0 by {
        assert(pieces[n + i].len() > 0);
    }
    assert forall|i: int|
        0 <= i < rest.len() && #[trigger] rest[i].contains('\n') implies is_line_ending(rest[i]) by {
        assert(pieces[n + i].contains('\n'));
    }
    assert forall|i: int|
        0 <= i < rest.len() && #[trigger] ascii(rest[i]) && rest[i].len() > 1 implies is_line_ending(
        rest[i],
    ) by {
        assert(ascii(pieces[n + i]));
    }
}

/// What is left of graphemes that can be counted can be counted.
pub proof fn lemma_counted_skip(graphemes: Seq<Seq<char>>, folds: Seq<Fold>, n: int)
    requires
        counted(graphemes, folds),
        0 <= n <= graphemes.len(),
    ensures
        counted(graphemes.skip(n), folds),
{
    let rest = graphemes.skip(n);
    assert forall|i: int| 0 <= i < rest.len() implies #[trigger] rest[i].len() <= u32::MAX by {
        assert(graphemes[n + i].len() <= u32::MAX);
    }
    assert forall|k: int, i: int|
        0 <= k <= rest.len() && 0 <= i < folds.len() implies #[trigger] hidden_from(
        rest,
        k,
        folds[i],
    ).len() <= u32::MAX by {
        assert(rest.skip(k) =~= graphemes.skip(n + k));
        assert(hidden_from(graphemes, n + k, folds[i]).len() <= u32::MAX);
    }
}

/// The law of counts. Whatever the folds are, a text of no more than `u32::MAX` chars can be
/// counted.
pub proof fn law_short_texts_are_counted(graphemes: Seq<Seq<char>>, folds: Seq<Fold>)
    requires
        graphemes.flatten().len() <= u32::MAX,
    ensures
        counted(graphemes, folds),
{
    assert forall|i: int| 0 <= i < graphemes.len() implies #[trigger] graphemes[i].len()
        <= u32::MAX by {
        lemma_flatten_split(graphemes, i + 1);
        lemma_flatten_take_step(graphemes, i);
    }
    assert forall|k: int, i: int|
        0 <= k <= graphemes.len() && 0 <= i < folds.len() implies #[trigger] hidden_from(
        graphemes,
        k,
        folds[i],
    ).len() <= u32::MAX by {
        let rest = graphemes.skip(k);
        let span = folds[i].end_char - folds[i].start_char;
        lemma_graphemes_within(rest, span);
        lemma_flatten_split(graphemes, k);
        lemma_flatten_split(rest, graphemes_within(rest, span) as int);
    }
}

/// Whether the chars of each fold, and one more, can be counted by the source of a grapheme.
pub open spec fn folds_counted(folds: Seq<Fold>) -> bool {
    forall|i: int|
        0 <= i < folds.len() ==> (#[trigger] folds[i]).end_char - folds[i].start_char < u32::MAX
}

/// A grapheme of ASCII text has one char, or it is a carriage return and a line feed.
proof fn lemma_ascii_grapheme(graphemes: Seq<Seq<char>>, i: int)
    requires
        ascii(graphemes.flatten()),
        well_segmented(graphemes),
        0 <= i < graphemes.len(),
    ensures
        1 <= graphemes[i].len() <= 2,
{
    let g = graphemes[i];
    lemma_flatten_split(graphemes, i + 1);
    lemma_flatten_take_step(graphemes, i);
    let before = graphemes.take(i).flatten();
    assert forall|j: int| 0 <= j < g.len() implies #[trigger] g[j] <= '\u{7F}' by {
        assert(graphemes.flatten()[before.len() + j] == g[j]);
    }
    assert(ascii(g));
    assert(g.len() > 0);
    assert(seq!['\n'].len() == 1 && seq!['\r', '\n'].len() == 2);
}

/// The law of ASCII counts. ASCII text of any length can be counted, if each fold can.
pub proof fn law_ascii_texts_are_counted(graphemes: Seq<Seq<char>>, folds: Seq<Fold>)
    requires
        ascii(graphemes.flatten()),
        well_segmented(graphemes),
        folds_counted(folds),
    ensures
        counted(graphemes, folds),
{
    assert forall|i: int| 0 <= i < graphemes.len() implies #[trigger] graphemes[i].len()
        <= u32::MAX by {
        lemma_ascii_grapheme(graphemes, i);
    }
    assert forall|k: int, i: int|
        0 <= k <= graphemes.len() && 0 <= i < folds.len() implies #[trigger] hidden_from(
        graphemes,
        k,
        folds[i],
    ).len() <= u32::MAX by {
        let rest = graphemes.skip(k);
        let span = folds[i].end_char - folds[i].start_char;
        let n = graphemes_within(rest, span) as int;
        law_fold_hides_whole_graphemes(rest, span);
        if n > 0 {
            lemma_flatten_take_step(rest, n - 1);
            lemma_ascii_grapheme(graphemes, k + n - 1);
            assert(rest[n - 1] == graphemes[k + n - 1]);
        } else {
            assert(rest.take(0) =~= Seq::<Seq<char>>::empty());
        }
    }
}

/// Runs go forward.
proof fn lemma_run_end(positions: Seq<usize>, from: int, char_idx: int)
    ensures
        from <= run_end(positions, from, char_idx),
    decreases positions.len() - from,
{
    if from < positions.len() && positions[from] == char_idx {
        lemma_run_end(positions, from + 1, char_idx);
    }
}

/// Drawing virtual text keeps track of the document.
proof fn lemma_virtual_tracks<L: LineAnnotation>(
    s: FormatterView<L>,
    cells: Seq<CellView>,
    cell: CellView,
)
    requires
        s.tracks(cells),
        cell.source is VirtualText,
    ensures
        s.tracks(cells.push(cell)),
{
    lemma_reads_push(s.page(), s.char_pos as int, cells, cell);
}

/// The next cell of a fold marker keeps track of the document.
proof fn lemma_marker_tracks<L: LineAnnotation>(
    s: FormatterView<L>,
    cells: Seq<CellView>,
    col: int,
)
    requires
        s.tracks(cells),
        s.fmt.tab_width > 0,
        s.marker is Some,
    ensures
        ({
            let (after, cell) = s.take_marker(col);
            &&& cell is Some
            &&& after.tracks(cells.push(cell->0))
            &&& cell->0.grapheme.width() >= 1
            &&& !cell->0.source.at_end_of_text()
            &&& after.exhausted == s.exhausted
        }),
{
    let (after, cell) = s.take_marker(col);
    let marker = s.marker->0;
    lemma_spelled_shows(marker.graphemes.first(), col, s.fmt.tab_width as int);
    lemma_reads_push(s.page(), s.char_pos as int, cells, cell->0);
}

/// The law of folds. A fold hides whole graphemes, from its first one on: enough to hide the
/// chars that it spans, or all that are left, and no more.
pub proof fn law_fold_hides_whole_graphemes(graphemes: Seq<Seq<char>>, span: int)
    ensures
        ({
            let n = graphemes_within(graphemes, span) as int;
            &&& 0 <= n <= graphemes.len()
            &&& graphemes.take(n).flatten().len() >= span || n == graphemes.len()
            &&& n > 0 ==> graphemes.take(n - 1).flatten().len() < span
        }),
    decreases graphemes.len(),
{
    let n = graphemes_within(graphemes, span) as int;
    lemma_graphemes_within(graphemes, span);
    if span > 0 && graphemes.len() > 0 {
        let rest = graphemes.drop_first();
        let m = n - 1;
        law_fold_hides_whole_graphemes(rest, span - graphemes[0].len());
        assert(graphemes.take(n).drop_first() =~= rest.take(m));
        assert(graphemes.take(n).first() == graphemes[0]);
        if m > 0 {
            assert(graphemes.take(m).drop_first() =~= rest.take(m - 1));
            assert(graphemes.take(m).first() == graphemes[0]);
        } else {
            assert(graphemes.take(0) =~= Seq::<Seq<char>>::empty());
        }
    } else {
        assert(graphemes.take(0) =~= Seq::<Seq<char>>::empty());
    }
}

/// Skipping the graphemes of a fold keeps track of the document.
pub proof fn lemma_fold_tracks<L: LineAnnotation>(
    s: FormatterView<L>,
    cells: Seq<CellView>,
    char_pos: usize,
    fold: Fold,
)
    requires
        s.tracks(cells),
        s.marker is None,
        char_pos == s.char_pos + total_covered(cells),
        s.annotations.fold_at_start(char_pos) == Some(fold),
        s.begin_fold(char_pos, fold) is Some,
    ensures
        s.begin_fold(char_pos, fold)->0.tracks(cells),
        s.begin_fold(char_pos, fold)->0.marker is Some,
        s.begin_fold(char_pos, fold)->0.exhausted == s.exhausted,
{
    let span = fold.end_char - char_pos;
    let n = graphemes_within(s.doc, span) as int;
    let p = s.char_pos + total_covered(cells);
    let hidden = s.hidden(span);
    let folds = s.annotations.folds;
    lemma_graphemes_within(s.doc, span);
    lemma_flatten_split(s.doc, n);
    lemma_segmented_skip(s.doc, n);
    lemma_counted_skip(s.doc, folds, n);
    lemma_fold_starting(folds, 0, char_pos as int);
    assert(hidden.len() <= u32::MAX) by {
        let i = choose|i: int|
            0 <= i < folds.len() && #[trigger] folds[i] == fold && fold.start_char == char_pos;
        assert(s.doc.skip(0) =~= s.doc);
        assert(hidden == hidden_from(s.doc, 0, folds[i]));
    }
    lemma_cut(s.text, p, hidden, s.doc.skip(n).flatten());
    law_fold_hides_whole_graphemes(s.doc, span);
    if n == s.doc.len() {
        assert(s.doc.skip(n) =~= Seq::<Seq<char>>::empty());
        assert(s.doc.skip(n).flatten().len() == 0);
    }
}

/// The next grapheme of the document keeps track of it.
proof fn lemma_document_tracks<L: LineAnnotation>(
    s: FormatterView<L>,
    cells: Seq<CellView>,
    annotations: AnnotationsView<L>,
    cell: CellView,
)
    requires
        s.tracks(cells),
        s.marker is None,
        fold_starting(s.annotations.folds, 0, s.char_pos + total_covered(cells)) is None,
        s.doc.len() > 0,
        annotations == (AnnotationsView {
            next_overlay: annotations.next_overlay,
            ..s.annotations
        }),
        annotations.next_overlay >= 0,
        (FormatterView { annotations, ..s }).overlays_passed(
            s.char_pos + total_covered(cells) + 1,
        ),
        cell.source == (GraphemeSource::Document { codepoints: s.doc.first().len() as u32 }),
        s.page().plain ==> spells(cell.grapheme, s.doc.first()),
        s.page().overlays_sorted() ==> look(cell.grapheme) == shape(
            overlaid_text(
                s.annotations.overlays,
                s.char_pos + total_covered(cells),
                s.doc.first(),
            ),
        ),
        cell.after_line_end ==> s.page().annotated_at(s.char_pos + total_covered(cells)),
    ensures
        (FormatterView { doc: s.doc.drop_first(), annotations, ..s }).tracks(cells.push(cell)),
        !cell.source.at_end_of_text(),
{
    let p = s.char_pos + total_covered(cells);
    let piece = s.doc.first();
    lemma_flatten_split(s.doc, 1);
    lemma_segmented_skip(s.doc, 1);
    lemma_counted_skip(s.doc, s.annotations.folds, 1);
    assert(s.doc.skip(1) =~= s.doc.drop_first());
    assert(s.doc.take(1) =~= seq![piece]);
    assert(s.doc.take(1).drop_first() =~= Seq::<Seq<char>>::empty());
    assert(s.doc.take(1).flatten() =~= piece) by {
        reveal_with_fuel(Seq::<_>::flatten, 2);
    }
    lemma_cut(s.text, p, piece, s.doc.drop_first().flatten());
    assert(s.doc[0].len() > 0);
    assert(s.doc[0].contains('\n') ==> is_line_ending(s.doc[0]));
    lemma_reads_push(s.page(), s.char_pos as int, cells, cell);
    let t = FormatterView { doc: s.doc.drop_first(), annotations, ..s };
    assert(piece == s.text.subrange(p, p + piece.len()));
    assert(s.page().cell_reads(p, cell));
    assert(t.page() == s.page());
    assert(t.overlays_passed(p + piece.len()));
    assert(one_end(cells.push(cell)));
    assert(folds_unmarked(cells.push(cell)));
}

/// Reading on where no fold is near keeps track of the document.
proof fn lemma_text_tracks<L: LineAnnotation>(
    s: FormatterView<L>,
    cells: Seq<CellView>,
    col: int,
    char_pos: usize,
)
    requires
        s.tracks(cells),
        s.marker is None,
        s.annotations.fold_at_start(char_pos) is None,
        s.fmt.tab_width > 0,
        char_pos == s.char_pos + total_covered(cells),
    ensures
        ({
            let (after, cell) = s.advance_in_text(col, char_pos);
            match cell {
                Some(cell) => {
                    &&& after.tracks(cells.push(cell))
                    &&& cell.grapheme.width() >= 1
                    &&& cell.source.at_end_of_text() <==> (after.exhausted && !s.exhausted)
                    &&& s.exhausted ==> after.exhausted
                },
                None => after.tracks(cells) && after.exhausted && s.exhausted,
            }
        }),
{
    let line_end = line_ends_at(s.text, char_pos as int) && s.annotations.take_inline(
        char_pos,
    ).1 is Some;
    lemma_take_inline_frame(s, char_pos);
    let (t, found) = if line_end {
        (FormatterView { eol_anchor: Some(char_pos), ..s }, None)
    } else {
        s.take_inline(char_pos)
    };
    let tab_width = s.fmt.tab_width as int;
    assert(t.tracks(cells));
    if line_end {
        lemma_seek(
            s.annotations.inline_positions(),
            s.annotations.next_inline,
            char_pos as int,
        );
        let i = seek(
            s.annotations.inline_positions(),
            s.annotations.next_inline,
            char_pos as int,
        );
        assert(s.page().inline[i].char_idx == char_pos);
    }
    match found {
        Some((g, highlight)) => {
            lemma_spelled_shows(g, col, tab_width);
            lemma_virtual_tracks(t, cells, s.advance_in_text(col, char_pos).1->0);
        },
        None => {
            if t.doc.len() > 0 {
                let (annotations, overlay) = t.annotations.take_overlay(char_pos);
                let g = match overlay {
                    Some(overlay) => overlay.grapheme,
                    None => t.doc.first(),
                };
                let positions = t.annotations.overlay_positions();
                lemma_seek(positions, t.annotations.next_overlay, char_pos as int);
                lemma_run_end(
                    positions,
                    seek(positions, t.annotations.next_overlay, char_pos as int),
                    char_pos as int,
                );
                lemma_spelled_shows(g, col, tab_width);
                if s.page().overlays_sorted() {
                    lemma_overlay_found(t.annotations, char_pos, t.doc.first());
                }
                lemma_document_tracks(
                    t,
                    cells,
                    annotations,
                    s.advance_in_text(col, char_pos).1->0,
                );
            } else if !t.exhausted {
                let cell = s.advance_in_text(col, char_pos).1->0;
                assert(t.doc =~= Seq::<Seq<char>>::empty());
                assert(t.doc.flatten().len() == 0);
                lemma_reads_push(t.page(), t.char_pos as int, cells, cell);
            }
        },
    }
}

/// Reading one cell keeps track of the document.
pub proof fn lemma_advance_tracks<L: LineAnnotation>(
    s: FormatterView<L>,
    cells: Seq<CellView>,
    col: int,
    char_pos: usize,
)
    requires
        s.tracks(cells),
        s.fmt.tab_width > 0,
        char_pos == s.char_pos + total_covered(cells),
        s.advance(col, char_pos) is Some,
    ensures
        ({
            let (after, cell) = s.advance(col, char_pos)->0;
            match cell {
                Some(cell) => {
                    &&& after.tracks(cells.push(cell))
                    &&& cell.grapheme.width() >= 1
                    &&& cell.source.at_end_of_text() <==> (after.exhausted && !s.exhausted)
                    &&& s.exhausted ==> after.exhausted
                },
                None => after.tracks(cells) && after.exhausted && s.exhausted,
            }
        }),
{
    let t = match s.eol_anchor {
        Some(anchor) => {
            lemma_take_inline_frame(s, anchor);
            FormatterView { eol_anchor: None, ..s.take_inline(anchor).0 }
        },
        None => s,
    };
    if s.eol_anchor is Some && s.take_inline(s.eol_anchor->0).1 is Some {
        let (after, found) = s.take_inline(s.eol_anchor->0);
        lemma_spelled_shows((found->0).0, col, s.fmt.tab_width as int);
        assert(after.tracks(cells));
        lemma_virtual_tracks(after, cells, (s.advance(col, char_pos)->0).1->0);
    } else {
        assert(t.tracks(cells));
        if t.marker is Some {
            lemma_marker_tracks(t, cells, col);
        } else {
            match t.annotations.fold_at_start(char_pos) {
                Some(fold) => {
                    lemma_fold_tracks(t, cells, char_pos, fold);
                    lemma_marker_tracks(t.begin_fold(char_pos, fold)->0, cells, col);
                },
                None => lemma_text_tracks(t, cells, col, char_pos),
            }
        }
    }
}

/// Whether a word can be filled: the end of the text is not among its cells, and a cell that
/// was read too early begins the word.
pub open spec fn filling<L: LineAnnotation>(s: FormatterView<L>) -> bool {
    &&& s.cells_show()
    &&& s.tracks(s.gathered())
    &&& no_end(s.gathered())
    &&& s.word_buf.len() > 0 ==> s.peeked is None
    &&& s.word_buf.len() > 0 ==> !s.word_buf.last().grapheme.is_word_boundary()
    &&& s.exhausted && s.word_buf.len() == 0 ==> s.peeked is Some
}

/// Whether the cells of a word, and one behind it, have been read.
pub open spec fn filled<L: LineAnnotation>(s: FormatterView<L>) -> bool {
    &&& s.cells_show()
    &&& s.tracks(s.gathered())
    &&& s.peeked is Some ==> !s.peeked->0.source.at_end_of_text()
}

/// Whether the word could not take its only cell.
pub open spec fn stuck<L: LineAnnotation>(s: FormatterView<L>) -> bool {
    &&& s.word_buf.len() == 0
    &&& s.peeked is Some
    &&& s.peeked->0.grapheme.width() > s.fmt.max_wrap
    &&& !s.peeked->0.grapheme.is_word_boundary()
}

/// A look at the next cell keeps track of the document.
pub proof fn lemma_peek_tracks<L: LineAnnotation>(s: FormatterView<L>, col: int, char_pos: usize)
    requires
        s.cells_show(),
        s.tracks(s.gathered()),
        no_end(s.gathered()),
        char_pos == s.char_pos + total_covered(s.word_buf),
        s.peek(col, char_pos) is Some,
    ensures
        ({
            let t = s.peek(col, char_pos)->0;
            &&& t.cells_show()
            &&& t.tracks(t.gathered())
            &&& t.peeked is None ==> s.exhausted
            &&& s.exhausted ==> t.exhausted
            &&& s.peeked is Some ==> t == s
            &&& t.peeked is Some ==> (t.peeked->0.source.at_end_of_text() <==> t.exhausted
                && !s.exhausted)
            &&& t.word_buf == s.word_buf
            &&& t.visual_pos == s.visual_pos
            &&& s.same_place(t)
        }),
{
    lemma_peek_frame(s, col, char_pos);
    let t = s.peek(col, char_pos)->0;
    if s.peeked is None {
        assert(s.gathered() =~= s.word_buf);
        lemma_advance_tracks(s, s.word_buf, col, char_pos);
        if t.peeked is Some {
            assert(t.gathered() =~= s.word_buf.push(t.peeked->0));
        } else {
            assert(t.gathered() =~= s.word_buf);
        }
    } else {
        let cells = s.gathered();
        assert(cells[cells.len() - 1] == s.peeked->0);
    }
}

/// A cell that goes into the word keeps track of the document.
pub proof fn lemma_take_tracks<L: LineAnnotation>(s: FormatterView<L>, col: int, char_pos: usize)
    requires
        s.cells_show(),
        s.tracks(s.gathered()),
        no_end(s.word_buf),
        s.exhausted && s.word_buf.len() == 0 ==> s.peeked is Some,
        char_pos == s.char_pos + total_covered(s.word_buf),
        s.take_into_word(col, char_pos) is Some,
    ensures
        ({
            let (t, go_on) = s.take_into_word(col, char_pos)->0;
            &&& filled(t)
            &&& t.peeked is None
            &&& go_on ==> filling(t)
            &&& t.word_buf.len() > 0
            &&& go_on ==> t.word_buf.len() == s.word_buf.len() + 1
            &&& s.exhausted ==> t.exhausted
            &&& s.exhausted && no_end(s.gathered()) ==> no_end(t.gathered())
            &&& t.visual_pos == s.visual_pos
            &&& s.same_place(t)
        }),
{
    if s.peeked is None {
        assert(s.gathered() =~= s.word_buf);
        lemma_peek_tracks(s, col, char_pos);
    }
    let looked = s.peek(col, char_pos)->0;
    let (t, go_on) = s.take_into_word(col, char_pos)->0;
    assert(looked.gathered() =~= t.gathered());
    if looked.peeked is Some {
        let cell = looked.peeked->0;
        assert(t.gathered() =~= looked.word_buf.push(cell));
        assert(s.peeked is Some ==> s.gathered() == t.gathered());
        if cell.source.at_end_of_text() {
            lemma_reads_push(s.page(), s.char_pos as int, looked.word_buf, cell);
            assert(cell.grapheme == (GraphemeView::Other { g: seq![' '] }));
            assert(seq![' '][0] == ' ');
            assert(cell.grapheme.is_word_boundary());
        }
    }
}

/// Cells that were moved read the same.
proof fn lemma_moved_reads(
    page: Page,
    p: int,
    cells: Seq<CellView>,
    x: int,
    tab_width: int,
)
    requires
        page.reads_all(p, cells),
    ensures
        page.reads_all(p, moved_to(cells, x, tab_width)),
    decreases cells.len(),
{
    if cells.len() > 0 {
        let init = cells.drop_last();
        let before = moved_to(init, x, tab_width);
        lemma_moved_reads(page, p, init, x, tab_width);
        lemma_moved_covered(init, x, tab_width);
        lemma_reads_push(
            page,
            p,
            before,
            cells.last().moved_to(x + total_width(before), tab_width),
        );
    }
}

/// Virtual text can be read anywhere.
proof fn lemma_virtual_reads(page: Page, p: int, cells: Seq<CellView>)
    requires
        0 <= p <= page.text.len(),
        forall|i: int| 0 <= i < cells.len() ==> (#[trigger] cells[i]).source is VirtualText,
    ensures
        page.reads_all(p, cells),
        total_covered(cells) == 0,
    decreases cells.len(),
{
    if cells.len() > 0 {
        let init = cells.drop_last();
        assert forall|i: int| 0 <= i < init.len() implies (
        #[trigger] init[i]).source is VirtualText by {
            assert(cells[i].source is VirtualText);
        }
        assert(cells[cells.len() - 1].source is VirtualText);
        lemma_virtual_reads(page, p, init);
    }
}

/// A word that is moved to the next visual line keeps track of the document.
pub proof fn lemma_wrap_tracks<L: LineAnnotation>(s: FormatterView<L>)
    requires
        s.cells_show(),
        s.tracks(s.gathered()),
        no_end(s.word_buf),
        s.wrap_word() is Some,
    ensures
        ({
            let t = s.wrap_word()->0;
            &&& t.cells_show()
            &&& t.exhausted == s.exhausted
            &&& t.tracks(t.gathered())
            &&& no_end(t.word_buf)
            &&& t.peeked is Some <==> s.peeked is Some
            &&& t.peeked is Some ==> t.peeked->0.source == s.peeked->0.source
            &&& no_end(s.gathered()) ==> no_end(t.gathered())
            &&& total_covered(t.word_buf) == total_covered(s.word_buf)
            &&& t.word_buf.len() >= s.word_buf.len()
            &&& s.same_place(t)
        }),
{
    let t = s.wrap_word()->0;
    let tab_width = s.fmt.tab_width as int;
    let indent = s.carried_indent();
    let indicator = s.indicator();
    let x = indent + total_width(indicator);
    let moved = moved_to(s.word_buf, x, tab_width);
    let p = s.char_pos as int;
    let page = s.page();
    let peeked = as_cells(s.peeked);
    let end = indent + total_width(s.wrapped_word());
    lemma_reads_add(page, p, s.word_buf, peeked);
    lemma_total_covered_add(s.word_buf, peeked);
    lemma_indicator(s);
    lemma_virtual_reads(page, p, indicator);
    lemma_moved_reads(page, p, s.word_buf, x, tab_width);
    lemma_moved_cells_show(s.word_buf, x, tab_width);
    lemma_moved_covered(s.word_buf, x, tab_width);
    lemma_wrapped_covered(s);
    lemma_reads_add(page, p, indicator, moved);
    lemma_reads_add(page, p, t.word_buf, as_cells(t.peeked));
    lemma_total_covered_add(t.word_buf, as_cells(t.peeked));
    assert(t.page() == page);
    if s.peeked is Some {
        let cell = s.peeked->0;
        let after = cell.moved_to(end, tab_width);
        lemma_moved_shows(cell.grapheme, end, tab_width);
        assert(s.gathered()[s.word_buf.len() as int] == cell);
        let none = Seq::<CellView>::empty();
        assert(as_cells(s.peeked) =~= none.push(cell));
        assert(as_cells(t.peeked) =~= none.push(after));
        let q = p + total_covered(s.word_buf);
        lemma_reads_push(page, q, none, cell);
        lemma_reads_push(page, q, none, after);
    }
    assert forall|i: int| 0 <= i < t.word_buf.len() implies {
        &&& (#[trigger] t.word_buf[i]).grapheme.width() >= 1
        &&& !t.word_buf[i].source.at_end_of_text()
        &&& t.word_buf[i].source is Fold ==> !t.word_buf[i].after_line_end
    } by {
        if i < indicator.len() {
            assert(t.word_buf[i] == indicator[i]);
        } else {
            let k = i - indicator.len();
            assert(t.word_buf[i] == moved[k]);
            assert(s.gathered()[k] == s.word_buf[k]);
        }
    }
    assert forall|i: int| 0 <= i < t.gathered().len() implies {
        &&& (#[trigger] t.gathered()[i]).source.at_end_of_text() ==> i == t.word_buf.len()
        &&& t.gathered()[i].source is Fold ==> !t.gathered()[i].after_line_end
    } by {
        if i < t.word_buf.len() {
            assert(t.gathered()[i] == t.word_buf[i]);
        }
    }
}

/// One step in filling a word keeps track of the document.
pub proof fn lemma_step_tracks<L: LineAnnotation>(s: FormatterView<L>)
    requires
        filling(s),
        s.word_step() is Some,
    ensures
        ({
            let (t, go_on) = s.word_step()->0;
            &&& filled(t)
            &&& go_on ==> filling(t)
            &&& t.word_buf.len() == 0 ==> stuck(t)
            &&& s.exhausted ==> t.exhausted && no_end(t.gathered())
            &&& s.same_place(t)
        }),
{
    let width = total_width(s.word_buf);
    let col = s.visual_pos.col + width;
    let pos = (s.char_pos + total_covered(s.word_buf)) as usize;
    let edge = s.fmt.viewport_width as int;
    let (t, go_on) = s.word_step()->0;
    lemma_no_end_parts(s);
    if col < edge {
        lemma_take_tracks(s, col, pos);
    } else {
        let at_edge = col == edge && s.fmt.soft_wrap_at_text_width;
        let looked = if at_edge || s.word_buf.len() == 0 {
            lemma_peek_tracks(s, col, pos);
            s.peek(col, pos)->0
        } else {
            s
        };
        if s.peeked is None {
            assert(s.gathered() =~= s.word_buf);
        }
        if at_edge && looked.line_end_peeked() {
            lemma_take_tracks(looked, col, pos);
            if s.exhausted {
                lemma_no_end_looked(looked);
            }
        } else if width > s.fmt.max_wrap {
            lemma_no_end_looked(looked);
            if col > edge {
                assert(t.gathered() =~= s.gathered());
                assert(s.gathered()[s.word_buf.len() - 1] == s.word_buf.last());
                assert(s.word_buf[s.word_buf.len() - 1].grapheme.width() >= 1);
                if t.word_buf.len() == 0 {
                    assert(total_width(s.word_buf.drop_last()) == 0);
                }
            }
        } else {
            if s.exhausted {
                lemma_no_end_looked(looked);
            }
            lemma_wrap_tracks(looked);
            let w = looked.wrap_word()->0;
            lemma_take_tracks(w, w.visual_pos.col + total_width(w.word_buf), pos);
        }
    }
}

/// No cell of a word and behind it is the end of the text if none of either is.
pub proof fn lemma_no_end_looked<L: LineAnnotation>(s: FormatterView<L>)
    requires
        no_end(s.word_buf),
        s.peeked is Some ==> !s.peeked->0.source.at_end_of_text(),
    ensures
        no_end(s.gathered()),
{
    assert forall|i: int| 0 <= i < s.gathered().len() implies !(
    #[trigger] s.gathered()[i]).source.at_end_of_text() by {
        if i < s.word_buf.len() {
            assert(s.gathered()[i] == s.word_buf[i]);
        }
    }
}

/// If none of the cells is the end of the text, none of the word is.
pub proof fn lemma_no_end_parts<L: LineAnnotation>(s: FormatterView<L>)
    requires
        no_end(s.gathered()),
    ensures
        no_end(s.word_buf),
{
    assert forall|i: int| 0 <= i < s.word_buf.len() implies !(
    #[trigger] s.word_buf[i]).source.at_end_of_text() by {
        assert(s.gathered()[i] == s.word_buf[i]);
    }
}

/// Filling a word keeps track of the document.
proof fn lemma_fill_tracks<L: LineAnnotation>(s: FormatterView<L>)
    requires
        filling(s),
        s.fill_word() is Some,
    ensures
        ({
            let t = s.fill_word()->0;
            &&& filled(t)
            &&& t.word_buf.len() == 0 ==> stuck(t)
            &&& s.exhausted ==> t.exhausted && no_end(t.gathered())
            &&& s.same_place(t)
        }),
    decreases
            (if s.word_buf.len() < s.word_limit() {
                s.word_limit() - s.word_buf.len()
            } else {
                0
            }),
{
    lemma_step_tracks(s);
    let (t, go_on) = s.word_step()->0;
    if go_on {
        lemma_word_grows(s);
        lemma_fill_tracks(t);
    }
}

/// A word can be filled from a state whose last word was drawn, if there is anything left.
pub proof fn lemma_word_begins<L: LineAnnotation>(s: FormatterView<L>) -> (begun: FormatterView<L>)
    requires
        s.in_step(),
        s.word_i >= s.word_buf.len(),
        s.advance_to_next_word() is Some,
    ensures
        ({
            let empty = FormatterView { word_buf: Seq::empty(), ..s };
            if s.exhausted {
                empty.peek(s.visual_pos.col as int, s.char_pos) == Some(begun)
            } else {
                begun == empty
            }
        }),
        begun.word_buf.len() == 0,
        begun.visual_pos == s.visual_pos,
        begun.exhausted == s.exhausted,
        s.same_place(begun),
        filled(begun),
        begun.gathered() == as_cells(begun.peeked),
        s.exhausted && begun.peeked is None ==> s.advance_to_next_word() == Some(begun),
        !(s.exhausted && begun.peeked is None) ==> filling(begun) && s.advance_to_next_word()
            == begun.fill_word(),
        s.exhausted && no_end(s.waiting()) ==> no_end(begun.gathered()),
{
    let empty = FormatterView { word_buf: Seq::empty(), ..s };
    assert(empty.gathered() =~= s.waiting());
    lemma_no_end_looked(empty);
    assert(empty.word_buf.skip(0) =~= empty.word_buf);
    if s.exhausted {
        lemma_peek_tracks(empty, s.visual_pos.col as int, s.char_pos);
        let begun = empty.peek(s.visual_pos.col as int, s.char_pos)->0;
        lemma_no_end_looked(begun);
        assert(begun.gathered() =~= as_cells(begun.peeked));
        begun
    } else {
        assert(empty.gathered() =~= as_cells(empty.peeked));
        empty
    }
}

/// The state in which the next cell of the word is at hand, if there is one.
pub open spec fn made_ready<L: LineAnnotation>(s: FormatterView<L>) -> FormatterView<L> {
    if s.fmt.soft_wrap && s.word_i >= s.word_buf.len() {
        FormatterView { word_i: 0, ..s.advance_to_next_word()->0 }
    } else {
        s
    }
}

/// Making the next word ready keeps track of the document.
pub proof fn lemma_ready_tracks<L: LineAnnotation>(s: FormatterView<L>)
    requires
        s.in_step(),
        s.fmt.soft_wrap,
        s.fetch() is Some,
    ensures
        ({
            let t = made_ready(s);
            &&& t.cells_show()
            &&& 0 <= t.word_i <= t.word_buf.len()
            &&& t.tracks(t.waiting())
            &&& t.peeked is Some ==> !t.peeked->0.source.at_end_of_text()
            &&& s.same_place(t)
            &&& s.exhausted ==> t.exhausted
            &&& s.exhausted && no_end(s.waiting()) ==> no_end(t.waiting())
            &&& t.word_i == t.word_buf.len() ==> stuck(t) || t.exhausted && t.peeked is None
        }),
{
    if s.word_i >= s.word_buf.len() {
        let begun = lemma_word_begins(s);
        if !(s.exhausted && begun.peeked is None) {
            lemma_fill_tracks(begun);
        }
        let full = s.advance_to_next_word()->0;
        assert(made_ready(s).waiting() =~= full.gathered());
    }
}

/// Under soft wrap, the next cell is taken off the word at hand.
pub proof fn lemma_fetch_of_ready<L: LineAnnotation>(s: FormatterView<L>)
    requires
        s.fmt.soft_wrap,
        s.word_i >= 0,
        s.fetch() is Some,
    ensures
        ({
            let (t, cell) = s.fetch()->0;
            let ready = made_ready(s);
            &&& ready.word_buf.skip(ready.word_i) == as_cells(cell) + t.word_buf.skip(t.word_i)
            &&& t.fmt == ready.fmt
            &&& t.visual_pos == ready.visual_pos
        }),
{
    let (t, cell) = s.fetch()->0;
    let ready = made_ready(s);
    assert(ready.word_buf.skip(ready.word_i) =~= as_cells(cell) + t.word_buf.skip(t.word_i));
}

/// What holds of the next cell, and of the state without it.
pub open spec fn fetched_in_step<L: LineAnnotation>(
    s: FormatterView<L>,
    t: FormatterView<L>,
    cell: Option<CellView>,
) -> bool {
    &&& t.cells_show()
    &&& 0 <= t.word_i <= t.word_buf.len()
    &&& t.peeked is Some ==> !t.peeked->0.source.at_end_of_text()
    &&& !t.fmt.soft_wrap ==> t.word_buf.len() == 0 && t.peeked is None
    &&& s.same_place(t)
    &&& s.exhausted ==> t.exhausted
    &&& match cell {
        Some(cell) => {
            &&& t.tracks(seq![cell] + t.waiting())
            &&& cell.grapheme.width() >= 1
            &&& cell.source.at_end_of_text() ==> t.exhausted
            &&& s.exhausted && no_end(s.waiting()) ==> no_end(seq![cell] + t.waiting())
        },
        None => {
            &&& t.tracks(t.waiting())
            &&& t.finished() || t.fmt.soft_wrap && stuck(t)
        },
    }
}

/// A cell that is taken off the word at hand is the first of those that wait.
proof fn lemma_word_taken<L: LineAnnotation>(ready: FormatterView<L>)
    requires
        ready.cells_show(),
        0 <= ready.word_i < ready.word_buf.len(),
    ensures
        ({
            let cell = ready.word_buf[ready.word_i];
            let t = FormatterView {
                word_buf: ready.word_buf.update(ready.word_i, CellView::blank()),
                word_i: ready.word_i + 1,
                ..ready
            };
            &&& t.cells_show()
            &&& ready.waiting() == seq![cell] + t.waiting()
            &&& ready.waiting()[0] == cell
            &&& cell.grapheme.width() >= 1
            &&& t.tracks(ready.waiting()) == ready.tracks(ready.waiting())
        }),
{
    let cell = ready.word_buf[ready.word_i];
    let t = FormatterView {
        word_buf: ready.word_buf.update(ready.word_i, CellView::blank()),
        word_i: ready.word_i + 1,
        ..ready
    };
    assert(seq![' '][0] == ' ');
    assert(ready.waiting() =~= seq![cell] + t.waiting());
    assert(t.page() == ready.page());
}

/// Under soft wrap, the next cell is the first of those that wait.
proof fn lemma_fetch_wrapped<L: LineAnnotation>(s: FormatterView<L>)
    requires
        s.in_step(),
        s.fmt.soft_wrap,
        s.fetch() is Some,
    ensures
        fetched_in_step(s, (s.fetch()->0).0, (s.fetch()->0).1),
{
    let (t, cell) = s.fetch()->0;
    lemma_ready_tracks(s);
    let ready = made_ready(s);
    if cell is Some {
        lemma_word_taken(ready);
        if cell->0.source.at_end_of_text() && !t.exhausted {
            assert(no_end(ready.waiting()));
        }
    } else {
        assert(t.waiting() =~= as_cells(t.peeked));
    }
}

/// Without soft wrap, the next cell is read now.
proof fn lemma_fetch_unwrapped<L: LineAnnotation>(s: FormatterView<L>)
    requires
        s.in_step(),
        !s.fmt.soft_wrap,
        s.fetch() is Some,
    ensures
        fetched_in_step(s, (s.fetch()->0).0, (s.fetch()->0).1),
{
    let (t, cell) = s.fetch()->0;
    assert(s.waiting() =~= Seq::<CellView>::empty());
    lemma_advance_frame(s, s.visual_pos.col as int, s.char_pos);
    lemma_advance_tracks(s, s.waiting(), s.visual_pos.col as int, s.char_pos);
    assert(t.waiting() =~= Seq::<CellView>::empty());
    if cell is Some {
        assert(s.waiting().push(cell->0) =~= seq![cell->0] + t.waiting());
    }
}

/// The next cell is the first of those that wait, or one that is read now.
pub proof fn lemma_fetch_tracks<L: LineAnnotation>(s: FormatterView<L>)
    requires
        s.in_step(),
        s.fetch() is Some,
    ensures
        fetched_in_step(s, (s.fetch()->0).0, (s.fetch()->0).1),
{
    if s.fmt.soft_wrap {
        lemma_fetch_wrapped(s);
    } else {
        lemma_fetch_unwrapped(s);
    }
}

/// Putting a cell on the screen moves the document on by the chars that it stands for.
pub proof fn lemma_place_tracks<L: LineAnnotation>(s: FormatterView<L>, cell: CellView)
    requires
        s.tracks(seq![cell] + s.waiting()),
        s.place(cell) is Some,
    ensures
        ({
            let (t, grapheme) = s.place(cell)->0;
            &&& t.tracks(t.waiting())
            &&& t.waiting() == s.waiting()
            &&& t.exhausted == s.exhausted
            &&& t.page() == s.page()
            &&& t.char_pos == s.char_pos + cell.source.covered()
            &&& grapheme.char_idx == s.char_pos
            &&& s.page().reads(s.char_pos as int, grapheme.raw, grapheme.source)
            &&& s.page().cell_reads(s.char_pos as int, cell)
        }),
{
    let (t, grapheme) = s.place(cell)->0;
    let p = s.char_pos as int;
    let none = Seq::<CellView>::empty();
    assert(none.push(cell) =~= seq![cell]);
    lemma_reads_push(s.page(), p, none, cell);
    lemma_reads_add(s.page(), p, seq![cell], s.waiting());
    lemma_total_covered_add(seq![cell], s.waiting());
    assert(t.waiting() =~= s.waiting());
    let cells = seq![cell] + s.waiting();
    assert forall|i: int| 0 <= i < s.waiting().len() implies #[trigger] s.waiting()[i] == cells[i
        + 1] by {}
}

/// The law of the start. The state at the start of a block belongs to the document, if that
/// was cut into graphemes from there on.
pub proof fn law_block_starts_in_step<L: LineAnnotation>(
    text: Seq<char>,
    fmt: TextFormat,
    annotations: AnnotationsView<L>,
    start: usize,
    doc: Seq<Seq<char>>,
    wrap_indicator: Seq<Seq<char>>,
    fold_marker: Seq<Seq<char>>,
)
    requires
        fmt.tab_width > 0,
        start <= text.len(),
        doc.flatten() == text.skip(start as int),
        well_segmented(doc),
        counted(doc, annotations.folds),
        fold_marker.len() > 0,
    ensures
        FormatterView::at_block(text, fmt, annotations, start, doc, wrap_indicator, fold_marker)
            .in_step(),
{
    let s = FormatterView::at_block(
        text,
        fmt,
        annotations,
        start,
        doc,
        wrap_indicator,
        fold_marker,
    );
    assert(s.waiting() =~= Seq::<CellView>::empty());
    lemma_seek(annotations.inline_positions(), 0, start as int);
    let overlays = annotations.overlay_positions();
    lemma_seek_finds(overlays, 0, start as int);
    assert forall|i: int|
        0 <= i < s.annotations.next_overlay && i < annotations.overlays.len() implies (
    #[trigger] s.annotations.overlays[i]).char_idx < start by {
        assert(overlays[i] == annotations.overlays[i].char_idx);
    }
}

/// The law of reading. A step from a state that belongs to a document leads to one that
/// does. The grapheme that it gives stands where the last one ended, says of the document
/// what holds of it, and the document goes on behind it.
pub proof fn law_step_reads_the_document<L: LineAnnotation>(s: FormatterView<L>)
    requires
        s.in_step(),
        s.next() is Some,
    ensures
        ({
            let (t, found) = s.next()->0;
            &&& t.in_step()
            &&& t.page() == s.page()
            &&& found is Some ==> {
                let grapheme = found->0;
                &&& grapheme.char_idx == s.char_pos
                &&& t.char_pos == grapheme.char_idx + grapheme.source.covered()
                &&& s.page().reads(grapheme.char_idx as int, grapheme.raw, grapheme.source)
            }
            &&& found is None ==> t.char_pos == s.char_pos
        }),
{
    lemma_fetch_tracks(s);
    let (fetched, cell) = s.fetch()->0;
    if cell is Some {
        lemma_place_tracks(fetched, cell->0);
        let (t, grapheme) = fetched.place(cell->0)->0;
    }
}

/// The law of the whole layout. However many steps were made, the graphemes that they gave
/// stand for the document from the start to where the layout is: each begins where the one
/// before ended, and says of its place what holds of it. No char is left out or given twice.
pub proof fn law_layout_reads_the_document<L: LineAnnotation>(s: FormatterView<L>, n: nat)
    requires
        s.in_step(),
        s.run(n) is Some,
    ensures
        ({
            let (t, drawn) = s.run(n)->0;
            &&& t.in_step()
            &&& t.page() == s.page()
            &&& s.page().read_through(s.char_pos as int, drawn, t.char_pos as int)
        }),
    decreases n,
{
    if n > 0 {
        law_layout_reads_the_document(s, (n - 1) as nat);
        let (t, drawn) = s.run((n - 1) as nat)->0;
        law_step_reads_the_document(t);
        let (u, found) = t.next()->0;
        if found is Some {
            assert(drawn.push(found->0).drop_last() =~= drawn);
        }
    }
}

/// The law of the end. No grapheme is given only when the whole document has been drawn or
/// hidden, and the blank behind it has been read; or, under soft wrap, when a grapheme waits
/// that reaches over the edge and is wider than a word that may be moved.
pub proof fn law_nothing_left_at_the_end<L: LineAnnotation>(s: FormatterView<L>)
    requires
        s.in_step(),
        s.next() is Some,
        (s.next()->0).1 is None,
    ensures
        ({
            let t = (s.next()->0).0;
            ||| t.finished() && t.char_pos == t.text.len()
            ||| t.fmt.soft_wrap && stuck(t)
        }),
{
    lemma_fetch_tracks(s);
    let t = (s.next()->0).0;
    if t.finished() {
        assert(t.waiting() =~= Seq::<CellView>::empty());
        assert(t.doc =~= Seq::<Seq<char>>::empty());
        assert(t.doc.flatten().len() == 0);
        assert(t.text.skip(t.char_pos as int).len() == 0);
    }
}

/// The law of the last blank. Once the blank behind the text was given, it is not given
/// again: `ended` holds from then on, and no grapheme of the document follows.
pub proof fn law_end_is_given_once<L: LineAnnotation>(s: FormatterView<L>)
    requires
        s.in_step(),
        s.next() is Some,
        (s.next()->0).1 is Some,
    ensures
        ({
            let (t, found) = s.next()->0;
            &&& (found->0).source.at_end_of_text() ==> !s.ended() && t.ended()
            &&& s.ended() ==> t.ended() && !((found->0).source is Document)
        }),
{
    lemma_fetch_tracks(s);
    let (fetched, cell) = s.fetch()->0;
    lemma_place_tracks(fetched, cell->0);
    let t = (s.next()->0).0;
    let cells = seq![cell->0] + fetched.waiting();
    assert forall|i: int| 0 <= i < t.waiting().len() implies #[trigger] t.waiting()[i] == cells[i
        + 1] by {}
    assert(cells[0] == cell->0);
}

} // verus!
