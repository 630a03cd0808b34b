//! Fold markers are drawn whole.

use crate::formatted::{CellView, GraphemeSource};
use crate::layout::{total_covered, FormatterView, MarkerView};
use crate::text_annotations::LineAnnotation;
use vstd::prelude::*;

verus! {

impl<L: LineAnnotation> FormatterView<L> {
    /// The state after the next cell of a fold marker was asked for at each of the columns, and
    /// what was found.
    pub open spec fn draw_marker(self, cols: Seq<int>) -> (Self, Seq<Option<CellView>>)
        decreases cols.len(),
    {
        if cols.len() == 0 {
            (self, Seq::empty())
        } else {
            let (s, cells) = self.draw_marker(cols.drop_last());
            let (t, cell) = s.take_marker(cols.last());
            (t, cells.push(cell))
        }
    }
}

/// Cell `i` of a marker, drawn at column `col`.
pub open spec fn marker_cell(marker: MarkerView, i: int, col: int, tab_width: int) -> CellView {
    CellView::spelled(
        marker.graphemes[i],
        col,
        tab_width,
        if i == marker.graphemes.len() - 1 {
            GraphemeSource::Fold {
                highlight: marker.highlight,
                codepoints: marker.codepoints,
                lines: marker.lines,
            }
        } else {
            GraphemeSource::VirtualText { highlight: marker.highlight }
        },
    )
}

/// Cells that stand for nothing.
proof fn lemma_nothing_covered(cells: Seq<CellView>)
    requires
        forall|i: int| 0 <= i < cells.len() ==> (#[trigger] cells[i]).source is VirtualText,
    ensures
        total_covered(cells) == 0,
    decreases cells.len(),
{
    if cells.len() > 0 {
        assert(cells[cells.len() - 1].source is VirtualText);
        assert forall|i: int| 0 <= i < cells.len() - 1 implies (
        #[trigger] cells.drop_last()[i]).source is VirtualText by {
            assert(cells[i].source is VirtualText);
        }
        lemma_nothing_covered(cells.drop_last());
    }
}

/// The law of the marker. Each grapheme of a marker that was begun is a cell of its own, in
/// order. All but the last are virtual text; the last carries the hidden chars and lines, so
/// that the marker stands for the hidden chars. Behind it there is none.
pub proof fn law_marker_is_drawn_whole<L: LineAnnotation>(s: FormatterView<L>, cols: Seq<int>)
    requires
        s.marker is Some,
        s.marker->0.graphemes.len() > 0,
    ensures
        ({
            let (t, cells) = s.draw_marker(cols);
            let marker = s.marker->0;
            let n = marker.graphemes.len() as int;
            let tab_width = s.fmt.tab_width as int;
            &&& cells.len() == cols.len()
            &&& forall|i: int|
                0 <= i < cols.len() ==> #[trigger] cells[i] == if i < n {
                    Some(marker_cell(marker, i, cols[i], tab_width))
                } else {
                    None
                }
            &&& t == FormatterView {
                marker: if cols.len() < n {
                    Some(MarkerView { graphemes: marker.graphemes.skip(cols.len() as int), ..marker })
                } else {
                    None
                },
                ..s
            }
            &&& cols.len() >= n ==> total_covered(
                Seq::new(n as nat, |i: int| marker_cell(marker, i, cols[i], tab_width)),
            ) == marker.codepoints
        }),
    decreases cols.len(),
{
    let marker = s.marker->0;
    let n = marker.graphemes.len() as int;
    let tab_width = s.fmt.tab_width as int;
    if cols.len() == 0 {
        assert(marker.graphemes.skip(0) =~= marker.graphemes);
    } else {
        let before = cols.drop_last();
        let k = before.len() as int;
        law_marker_is_drawn_whole(s, before);
        let (t, found) = s.draw_marker(before);
        let (_, cells) = s.draw_marker(cols);
        if k < n {
            assert(marker.graphemes.skip(k).drop_first() =~= marker.graphemes.skip(k + 1));
            assert(marker.graphemes.skip(k).first() == marker.graphemes[k]);
        }
        assert forall|i: int| 0 <= i < cols.len() implies #[trigger] cells[i] == if i < n {
            Some(marker_cell(marker, i, cols[i], tab_width))
        } else {
            None
        } by {
            if i < k {
                assert(cells[i] == found[i]);
            }
        }
    }
    if cols.len() >= n {
        let all = Seq::new(n as nat, |i: int| marker_cell(marker, i, cols[i], tab_width));
        lemma_nothing_covered(all.drop_last());
    }
}

/// The law of no marker. Where none was begun, there is no cell of one.
pub proof fn law_no_marker_gives_no_cell<L: LineAnnotation>(s: FormatterView<L>, cols: Seq<int>)
    requires
        s.marker is None,
    ensures
        ({
            let (t, cells) = s.draw_marker(cols);
            &&& t == s
            &&& cells.len() == cols.len()
            &&& forall|i: int| 0 <= i < cells.len() ==> #[trigger] cells[i] is None
        }),
    decreases cols.len(),
{
    if cols.len() > 0 {
        law_no_marker_gives_no_cell(s, cols.drop_last());
    }
}

} // verus!
