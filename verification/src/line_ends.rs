//! Annotations of a line end stand behind it, and overlays change only what is drawn.

use crate::formatted::{CellView, FormattedView, GraphemeSource};
use crate::layout::{lemma_take_inline_frame, FormatterView};
use crate::position::Position;
use crate::reading::{lemma_fetch_tracks, lemma_place_tracks};
use crate::stream::lemma_seek_finds;
use crate::text_annotations::{lemma_seek, seek, AnnotationsView, LineAnnotation, OverlayView};
use crate::unicode::grapheme_clusters;
use vstd::prelude::*;

verus! {

/// The law of the cursor. Where a line or the text ends and an annotation is anchored there,
/// the line end is read first, so that a cursor on it stays in front of the annotation. None
/// of the annotation is read with it.
pub proof fn law_line_end_comes_first<L: LineAnnotation>(
    s: FormatterView<L>,
    col: int,
    char_pos: usize,
)
    requires
        s.eol_anchor is None,
        s.marker is None,
        s.annotations.fold_at_start(char_pos) is None,
        char_pos >= s.text.len() || s.text[char_pos as int] == '\n' || char_pos + 1 < s.text.len()
            && s.text[char_pos as int] == '\r' && s.text[char_pos + 1] == '\n',
        s.annotations.take_inline(char_pos).1 is Some,
        s.doc.len() > 0 || !s.exhausted,
    ensures
        ({
            let (t, cell) = s.advance(col, char_pos)->0;
            &&& s.advance(col, char_pos) is Some
            &&& cell is Some
            &&& cell->0.source is Document
            &&& cell->0.after_line_end
            &&& t.eol_anchor == Some(char_pos)
            &&& t.annotations.next_inline == s.annotations.next_inline
            &&& t.inline == s.inline
        }),
{
}

/// The law of what follows a line end. As long as a line end has annotations that were not
/// read, the next cell is of one of them, and the document waits.
pub proof fn law_line_end_annotations_follow<L: LineAnnotation>(
    s: FormatterView<L>,
    col: int,
    char_pos: usize,
)
    requires
        s.eol_anchor is Some,
        s.take_inline(s.eol_anchor->0).1 is Some,
    ensures
        ({
            let (t, cell) = s.advance(col, char_pos)->0;
            let (g, highlight) = s.take_inline(s.eol_anchor->0).1->0;
            &&& s.advance(col, char_pos) is Some
            &&& cell == Some(
                CellView::spelled(
                    g,
                    col,
                    s.fmt.tab_width as int,
                    GraphemeSource::VirtualText { highlight },
                ).marked(true),
            )
            &&& t.eol_anchor == s.eol_anchor
            &&& t.doc == s.doc
            &&& t.exhausted == s.exhausted
            &&& t.marker == s.marker
        }),
{
    lemma_take_inline_frame(s, s.eol_anchor->0);
}

/// The law of the deferred row. A line end that is followed by annotations, and those
/// annotations, are placed where the last grapheme ended and stay on that row. The row below
/// is owed from the line break on, until something else is placed. (If a row is owed when a
/// line end comes, the line end is on the row that is owed.)
pub proof fn law_annotated_line_end_keeps_the_row<L: LineAnnotation>(
    s: FormatterView<L>,
    cell: CellView,
)
    requires
        cell.after_line_end,
        s.pending_eol ==> !(cell.source is Document),
        s.place(cell) is Some,
    ensures
        ({
            let (t, g) = s.place(cell)->0;
            &&& g.visual_pos == s.visual_pos
            &&& t.visual_pos.row == s.visual_pos.row
            &&& t.visual_pos.col == s.visual_pos.col + cell.grapheme.width()
            &&& t.pending_eol == (s.pending_eol || cell.grapheme is Newline)
        }),
{
}

/// The law of the owed row. If a row is owed, whatever is not one of the annotations of that
/// line end is placed at the start of a row below, on the next line of the document. The next
/// line end is no such annotation, though it may have its own.
pub proof fn law_owed_row_is_given<L: LineAnnotation>(s: FormatterView<L>, cell: CellView)
    requires
        s.pending_eol,
        !cell.after_line_end || cell.source is Document,
        s.place(cell) is Some,
    ensures
        ({
            let (t, g) = s.place(cell)->0;
            &&& g.visual_pos.row == s.visual_pos.row + 1 + s.annotations.rows_at(
                s.char_pos,
                s.visual_pos,
                s.line_pos,
            )
            &&& g.visual_pos.col == 0
            &&& g.line_idx == s.line_pos + 1
            &&& t.pending_eol == (cell.after_line_end && cell.grapheme is Newline)
        }),
{
}

impl<L: LineAnnotation> FormatterView<L> {
    /// The state in which the line annotations are asked for rows below a line break: the next
    /// cell was passed in the document and not on the screen.
    pub open spec fn asked(self) -> Self {
        let (s, cell) = self.fetch()->0;
        s.flush_line_end(cell->0)->0.pass(cell->0)->0
    }

    /// The rows that the line annotations answer for the visual line that ends with `g`.
    pub open spec fn rows_below(self, g: FormattedView) -> usize {
        self.asked().annotations.rows_at(
            self.asked().char_pos,
            Position { row: g.visual_pos.row, col: (g.visual_pos.col + g.raw.width()) as usize },
            self.asked().line_pos,
        )
    }
}

/// The law of the next position. Behind a grapheme that is no line break, the layout goes on at
/// its end. A line break of the document at which no inline annotation is anchored is not marked
/// for one; behind it the layout goes on at the start of the next row, below the rows that the
/// line annotations answered for it. So it does behind any line break that leaves no row owed.
pub proof fn law_next_position_is_behind_the_grapheme<L: LineAnnotation>(s: FormatterView<L>)
    requires
        s.in_step(),
        s.next() is Some,
        (s.next()->0).1 is Some,
    ensures
        ({
            let (t, found) = s.next()->0;
            let g = found->0;
            let cell = (s.fetch()->0).1->0;
            let at_end = Position {
                row: g.visual_pos.row,
                col: (g.visual_pos.col + g.raw.width()) as usize,
            };
            let below = Position {
                row: (g.visual_pos.row + 1 + s.rows_below(g)) as usize,
                col: 0,
            };
            &&& g.visual_pos.col + g.raw.width() <= usize::MAX
            &&& !(g.raw is Newline) || cell.after_line_end ==> t.visual_pos == at_end
            &&& g.raw is Newline && !cell.after_line_end ==> {
                &&& t.visual_pos == below
                &&& g.visual_pos.row + 1 + s.rows_below(g) <= usize::MAX
                &&& !t.pending_eol
            }
            &&& g.raw is Newline && !t.pending_eol ==> !cell.after_line_end
            &&& g.source is Document && !s.page().annotated_at(g.char_idx as int)
                ==> !cell.after_line_end
            &&& g.source is Fold ==> !cell.after_line_end
            &&& s.asked().char_pos == t.char_pos
            &&& g.source is Document ==> s.asked().line_pos == g.line_idx
        }),
{
    lemma_fetch_tracks(s);
    let (fetched, cell) = s.fetch()->0;
    lemma_place_tracks(fetched, cell->0);
    assert((seq![cell->0] + fetched.waiting())[0] == cell->0);
}

/// The law of the anchor. Where no line ends, an annotation is read before the char that it is
/// anchored to.
pub proof fn law_annotation_comes_before_its_char<L: LineAnnotation>(
    s: FormatterView<L>,
    col: int,
    char_pos: usize,
)
    requires
        s.eol_anchor is None,
        s.marker is None,
        s.annotations.fold_at_start(char_pos) is None,
        char_pos < s.text.len(),
        s.text[char_pos as int] != '\n',
        !(s.text[char_pos as int] == '\r' && char_pos + 1 < s.text.len() && s.text[char_pos + 1]
            == '\n'),
        s.take_inline(char_pos).1 is Some,
    ensures
        ({
            let (t, cell) = s.advance(col, char_pos)->0;
            let (g, highlight) = s.take_inline(char_pos).1->0;
            &&& s.advance(col, char_pos) is Some
            &&& cell == Some(
                CellView::spelled(
                    g,
                    col,
                    s.fmt.tab_width as int,
                    GraphemeSource::VirtualText { highlight },
                ),
            )
            &&& t.doc == s.doc
            &&& t.exhausted == s.exhausted
        }),
{
    lemma_take_inline_frame(s, char_pos);
}

/// Where nothing is left of the annotations of a char, all of them were handed out or passed.
proof fn lemma_none_left<L: LineAnnotation>(s: FormatterView<L>, char_pos: usize)
    requires
        s.annotations.next_inline >= 0,
        forall|i: int, j: int|
            0 <= i <= j < s.annotations.inline.len() ==> (
            #[trigger] s.annotations.inline[i]).char_idx <= (
            #[trigger] s.annotations.inline[j]).char_idx,
        s.take_inline(char_pos).1 is None,
    ensures
        ({
            let t = s.take_inline(char_pos).0;
            &&& t.inline is None || (t.inline->0).0.len() == 0
            &&& forall|i: int|
                0 <= i < s.annotations.inline.len() && (
                #[trigger] s.annotations.inline[i]).char_idx <= char_pos ==> i
                    < t.annotations.next_inline
        }),
    decreases s.annotations.inline.len() - s.annotations.next_inline,
{
    let inline = s.annotations.inline;
    let positions = s.annotations.inline_positions();
    let (annotations, found) = s.annotations.take_inline(char_pos);
    let k = seek(positions, s.annotations.next_inline, char_pos as int);
    lemma_seek_finds(positions, s.annotations.next_inline, char_pos as int);
    match found {
        Some(annotation) => {
            lemma_none_left(
                FormatterView {
                    annotations,
                    inline: Some((grapheme_clusters(annotation.text), annotation.highlight)),
                    ..s
                },
                char_pos,
            );
        },
        None => {
            assert forall|i: int|
                0 <= i < inline.len() && (#[trigger] inline[i]).char_idx <= char_pos implies i
                < k by {
                if k <= i {
                    assert(positions[k] == inline[k].char_idx);
                    assert(inline[k].char_idx <= inline[i].char_idx);
                }
            }
        },
    }
}

/// The law of the char that waits. With inline annotations in order, a grapheme of the document
/// that is no line break, by the chars of the text, is read only when the annotations of its
/// first char have been read, all of them and each of them whole.
pub proof fn law_char_waits_for_its_annotations<L: LineAnnotation>(
    s: FormatterView<L>,
    col: int,
    char_pos: usize,
)
    requires
        s.annotations.next_inline >= 0,
        forall|i: int, j: int|
            0 <= i <= j < s.annotations.inline.len() ==> (
            #[trigger] s.annotations.inline[i]).char_idx <= (
            #[trigger] s.annotations.inline[j]).char_idx,
        char_pos < s.text.len(),
        s.text[char_pos as int] != '\n',
        !(s.text[char_pos as int] == '\r' && char_pos + 1 < s.text.len() && s.text[char_pos + 1]
            == '\n'),
        s.advance(col, char_pos) is Some,
        (s.advance(col, char_pos)->0).1 is Some,
        (s.advance(col, char_pos)->0).1->0.source is Document,
    ensures
        ({
            let (t, cell) = s.advance(col, char_pos)->0;
            &&& t.inline is None || (t.inline->0).0.len() == 0
            &&& forall|i: int|
                0 <= i < s.annotations.inline.len() && (
                #[trigger] s.annotations.inline[i]).char_idx == char_pos ==> i
                    < t.annotations.next_inline
            &&& t.eol_anchor is None
            &&& !cell->0.after_line_end
        }),
{
    let r = match s.eol_anchor {
        Some(anchor) => {
            lemma_take_inline_frame(s, anchor);
            FormatterView { eol_anchor: None, ..s.take_inline(anchor).0 }
        },
        None => s,
    };
    let (after, found) = r.take_inline(char_pos);
    lemma_take_inline_frame(r, char_pos);
    let u = r.take_marker(col).0;
    assert(r.take_marker(col).1 is None);
    assert(u == r);
    assert(found is None);
    lemma_none_left(r, char_pos);
}

impl<L: LineAnnotation> FormatterView<L> {
    /// The state with other overlays.
    pub open spec fn overlaid(self, overlays: Seq<OverlayView>, next_overlay: int) -> Self {
        FormatterView {
            annotations: AnnotationsView { overlays, next_overlay, ..self.annotations },
            ..self
        }
    }
}

/// Inline annotations are drawn the same, whatever the overlays are.
proof fn lemma_take_inline_overlaid<L: LineAnnotation>(
    s: FormatterView<L>,
    overlays: Seq<OverlayView>,
    next_overlay: int,
    char_pos: usize,
)
    ensures
        s.overlaid(overlays, next_overlay).take_inline(char_pos) == (
            s.take_inline(char_pos).0.overlaid(overlays, next_overlay),
            s.take_inline(char_pos).1,
        ),
    decreases s.annotations.inline.len() - s.annotations.next_inline,
{
    let o = s.overlaid(overlays, next_overlay);
    assert(o.annotations.inline_positions() =~= s.annotations.inline_positions());
    if !(s.inline is Some && (s.inline->0).0.len() > 0) {
        let (annotations, found) = s.annotations.take_inline(char_pos);
        match found {
            Some(annotation) => {
                lemma_seek(
                    s.annotations.inline_positions(),
                    s.annotations.next_inline,
                    char_pos as int,
                );
                lemma_take_inline_overlaid(
                    FormatterView {
                        annotations,
                        inline: Some((grapheme_clusters(annotation.text), annotation.highlight)),
                        ..s
                    },
                    overlays,
                    next_overlay,
                    char_pos,
                );
            },
            None => {},
        }
    }
}

/// The law of overlays. With other overlays, the next cell stands for the same chars and comes
/// from the same source: overlays change how a grapheme of the document is drawn, and nothing
/// else.
#[verifier::rlimit(30)]
pub proof fn law_overlays_change_only_what_is_drawn<L: LineAnnotation>(
    s: FormatterView<L>,
    overlays: Seq<OverlayView>,
    next_overlay: int,
    col: int,
    char_pos: usize,
)
    ensures
        ({
            let o = s.overlaid(overlays, next_overlay);
            match (s.advance(col, char_pos), o.advance(col, char_pos)) {
                (Some((t, cell)), Some((u, drawn))) => {
                    &&& u == t.overlaid(overlays, u.annotations.next_overlay)
                    &&& cell is Some <==> drawn is Some
                    &&& cell is Some ==> {
                        &&& drawn->0.source == cell->0.source
                        &&& drawn->0.after_line_end == cell->0.after_line_end
                        &&& !(cell->0.source is Document) ==> drawn == cell
                    }
                },
                (None, None) => true,
                _ => false,
            }
        }),
{
    let o = s.overlaid(overlays, next_overlay);
    let (t, u) = match s.eol_anchor {
        Some(anchor) => {
            lemma_take_inline_overlaid(s, overlays, next_overlay, anchor);
            lemma_take_inline_frame(s, anchor);
            (
                FormatterView { eol_anchor: None, ..s.take_inline(anchor).0 },
                FormatterView { eol_anchor: None, ..o.take_inline(anchor).0 },
            )
        },
        None => (s, o),
    };
    assert(u == t.overlaid(overlays, next_overlay));
    assert(u.annotations.inline_positions() =~= t.annotations.inline_positions());
    let (t1, cell) = t.take_marker(col);
    let (u1, drawn) = u.take_marker(col);
    assert(u1 == t1.overlaid(overlays, next_overlay));
    assert(cell == drawn);
    assert(u1.annotations.inline_positions() =~= t1.annotations.inline_positions());
    lemma_take_inline_overlaid(t1, overlays, next_overlay, char_pos);
}

} // verus!
