//! What is drawn for a char of the document, and for a fold.

use crate::fold::in_order;
use crate::formatted::{CellView, FormattedView, GraphemeSource};
use crate::layout::{graphemes_within, FormatterView};
use crate::markers::{law_marker_is_drawn_whole, marker_cell};
use crate::numbering::lemma_newlines_bounded;
use crate::reading::{
    law_fold_hides_whole_graphemes, law_layout_reads_the_document, lemma_flatten_split, Page,
};
use crate::rope::newlines;
use crate::stream::{law_last_overlay_is_drawn, look, shape};
use crate::text_annotations::{lemma_fold_starting, LineAnnotation};
use vstd::prelude::*;

verus! {

/// Each of the graphemes that stand for the text says of its place what holds of it.
proof fn lemma_each_reads(page: Page, from: int, drawn: Seq<FormattedView>, to: int, i: int)
    requires
        page.read_through(from, drawn, to),
        0 <= i < drawn.len(),
    ensures
        page.reads(drawn[i].char_idx as int, drawn[i].raw, drawn[i].source),
    decreases drawn.len(),
{
    if i < drawn.len() - 1 {
        lemma_each_reads(page, from, drawn.drop_last(), drawn.last().char_idx as int, i);
    }
}

/// The law of what is drawn for a char. With overlays in order, a grapheme of the document that
/// starts at char `p` looks like the last overlay of that char, if there is one, and else like
/// the chars that it stands for, whatever was drawn before, with soft wrap or without.
pub proof fn law_grapheme_looks_like_its_overlay<L: LineAnnotation>(
    s: FormatterView<L>,
    n: nat,
    i: int,
)
    requires
        s.in_step(),
        forall|a: int, b: int|
            0 <= a <= b < s.annotations.overlays.len() ==> (
            #[trigger] s.annotations.overlays[a]).char_idx <= (
            #[trigger] s.annotations.overlays[b]).char_idx,
        s.run(n) is Some,
        0 <= i < (s.run(n)->0).1.len(),
        (s.run(n)->0).1[i].source is Document,
        (s.run(n)->0).1[i].source->Document_codepoints > 0,
    ensures
        ({
            let g = (s.run(n)->0).1[i];
            let p = g.char_idx as int;
            let end = p + g.source->Document_codepoints;
            let overlays = s.annotations.overlays;
            &&& end <= s.text.len()
            &&& forall|k: int|
                0 <= k < overlays.len() && (#[trigger] overlays[k]).char_idx == p && (forall|m: int|
                    k < m < overlays.len() ==> (#[trigger] overlays[m]).char_idx != p) ==> look(
                    g.raw,
                ) == shape(overlays[k].grapheme)
            &&& (forall|k: int|
                0 <= k < overlays.len() ==> (#[trigger] overlays[k]).char_idx != p) ==> look(g.raw)
                == shape(s.text.subrange(p, end))
        }),
{
    law_layout_reads_the_document(s, n);
    let (t, drawn) = s.run(n)->0;
    let g = drawn[i];
    let p = g.char_idx as int;
    let overlays = s.annotations.overlays;
    let piece = s.text.subrange(p, p + g.source->Document_codepoints);
    lemma_each_reads(s.page(), s.char_pos as int, drawn, t.char_pos as int, i);
    assert(s.page().overlays_sorted());
    assert forall|k: int|
        0 <= k < overlays.len() && (#[trigger] overlays[k]).char_idx == p && (forall|m: int|
            k < m < overlays.len() ==> (#[trigger] overlays[m]).char_idx != p) implies look(g.raw)
        == shape(overlays[k].grapheme) by {
        law_last_overlay_is_drawn(overlays, p, piece, k);
    }
    law_last_overlay_is_drawn(overlays, p, piece, 0);
}

impl<L: LineAnnotation> FormatterView<L> {
    /// The state after the next cell was read for each of the columns, and the cells.
    pub open spec fn read_for(self, cols: Seq<int>, char_pos: usize) -> Option<
        (Self, Seq<Option<CellView>>),
    >
        decreases cols.len(),
    {
        if cols.len() == 0 {
            Some((self, Seq::empty()))
        } else {
            match self.read_for(cols.drop_last(), char_pos) {
                None => None,
                Some((s, cells)) => match s.advance(cols.last(), char_pos) {
                    None => None,
                    Some((t, cell)) => Some((t, cells.push(cell))),
                },
            }
        }
    }
}

/// What is read where a fold starts is its marker.
proof fn lemma_read_marker<L: LineAnnotation>(
    s: FormatterView<L>,
    begun: FormatterView<L>,
    cols: Seq<int>,
    char_pos: usize,
)
    requires
        s.eol_anchor is None,
        s.marker is None,
        begun.eol_anchor is None,
        begun.marker is Some,
        begun.marker->0.graphemes.len() > 0,
        forall|col: int| #[trigger] s.advance(col, char_pos) == Some(begun.take_marker(col)),
        0 < cols.len() <= begun.marker->0.graphemes.len(),
    ensures
        s.read_for(cols, char_pos) == Some(begun.draw_marker(cols)),
    decreases cols.len(),
{
    let init = cols.drop_last();
    if init.len() == 0 {
        assert(s.read_for(init, char_pos) == Some((s, Seq::<Option<CellView>>::empty())));
        assert(begun.draw_marker(init) == (begun, Seq::<Option<CellView>>::empty()));
        assert(s.advance(cols.last(), char_pos) == Some(begun.take_marker(cols.last())));
    } else {
        lemma_read_marker(s, begun, init, char_pos);
        law_marker_is_drawn_whole(begun, init);
        let (t, cells) = begun.draw_marker(init);
        assert(t.advance(cols.last(), char_pos) == Some(t.take_marker(cols.last())));
    }
}

/// The law of a fold. Where a fold starts and the annotations of the line end before were given,
/// the next cells that are read are the graphemes of the fold marker, all of them and in order,
/// whatever the fold hides. All but the last are virtual text. The last one counts the chars and
/// the line feeds that are hidden: those of the fewest graphemes that make up the fold, or of
/// all that are left.
pub proof fn law_fold_is_read_as_its_marker<L: LineAnnotation>(
    s: FormatterView<L>,
    cols: Seq<int>,
    char_pos: usize,
    f: int,
) -> (k: int)
    requires
        s.eol_anchor is None,
        s.marker is None,
        in_order(s.annotations.folds),
        0 <= f < s.annotations.folds.len(),
        s.annotations.folds[f].start_char == char_pos,
        s.doc.flatten().len() <= u32::MAX,
        0 < cols.len() <= s.fold_marker.len(),
    ensures
        ({
            let r = s.read_for(cols, char_pos);
            let (t, cells) = r->0;
            let span = s.annotations.folds[f].end_char - char_pos;
            let hidden = s.doc.take(k).flatten();
            let highlight = s.fmt.fold_marker_highlight;
            &&& r is Some
            &&& 0 <= k <= s.doc.len()
            &&& t.doc == s.doc.skip(k)
            &&& hidden.len() >= span || k == s.doc.len()
            &&& k > 0 ==> s.doc.take(k - 1).flatten().len() < span
            &&& t.marker is None <==> cols.len() == s.fold_marker.len()
            &&& cells.len() == cols.len()
            &&& forall|i: int|
                0 <= i < cols.len() ==> {
                    &&& #[trigger] cells[i] is Some
                    &&& look(cells[i]->0.grapheme) == shape(s.fold_marker[i])
                    &&& cells[i]->0.source == if i < s.fold_marker.len() - 1 {
                        GraphemeSource::VirtualText { highlight }
                    } else {
                        GraphemeSource::Fold {
                            highlight,
                            codepoints: hidden.len() as u32,
                            lines: newlines(hidden) as u32,
                        }
                    }
                }
        }),
{
    let folds = s.annotations.folds;
    let fold = folds[f];
    let span = fold.end_char - char_pos;
    let k = graphemes_within(s.doc, span) as int;
    lemma_fold_starting(folds, 0, char_pos as int);
    let found = s.annotations.fold_at_start(char_pos);
    if found is Some {
        let g = choose|g: int|
            0 <= g < folds.len() && #[trigger] folds[g] == found->0 && folds[g].start_char
                == char_pos;
        assert(g == f) by {
            assert(!folds[f].void() && !folds[g].void());
        }
    }
    assert(found == Some(fold));
    law_fold_hides_whole_graphemes(s.doc, span);
    lemma_flatten_split(s.doc, k);
    lemma_newlines_bounded(s.doc.take(k).flatten());
    let begun = s.begin_fold(char_pos, fold)->0;
    assert(s.begin_fold(char_pos, fold) is Some);
    assert forall|col: int| #[trigger] s.advance(col, char_pos) == Some(begun.take_marker(col)) by {
    }
    lemma_read_marker(s, begun, cols, char_pos);
    law_marker_is_drawn_whole(begun, cols);
    let (t, cells) = begun.draw_marker(cols);
    assert forall|i: int| 0 <= i < cols.len() implies {
        &&& #[trigger] cells[i] is Some
        &&& look(cells[i]->0.grapheme) == shape(s.fold_marker[i])
    } by {
        assert(cells[i] == Some(
            marker_cell(begun.marker->0, i, cols[i], s.fmt.tab_width as int),
        ));
    }
    k
}

} // verus!
