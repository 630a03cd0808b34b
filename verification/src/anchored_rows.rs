//! Rows that belong to chars of the document.

use crate::formatted::{FormattedGrapheme, FormattedView};
use crate::position::Position;
use crate::stream::{lemma_run_end_finds, lemma_seek_finds};
use crate::text_annotations::{run_end, seek, LineAnnotation};
use vstd::prelude::*;

verus! {

/// Rows below the visual line on which the grapheme that starts at `char_idx` is drawn.
#[derive(Debug, Clone, Copy)]
pub struct Anchor {
    pub char_idx: usize,
    pub rows: usize,
}

/// Rows that are anchored to chars. Several anchors of a visual line add up, as far as their
/// rows fit in a machine word. An anchor that no grapheme starts at has no rows: one inside a
/// fold, or inside a grapheme. The anchors are given in order.
#[derive(Debug)]
pub struct AnchoredRows {
    anchors: Vec<Anchor>,
    /// The first anchor that has not been met or passed.
    next: usize,
    /// The rows of the anchors that were met on the current visual line.
    met: usize,
}

/// What `AnchoredRows` stand for.
#[verifier::ext_equal]
pub struct AnchoredRowsView {
    pub anchors: Seq<Anchor>,
    pub next: int,
    pub met: usize,
}

/// The chars of the anchors.
pub open spec fn anchor_positions(anchors: Seq<Anchor>) -> Seq<usize> {
    Seq::new(anchors.len(), |i: int| anchors[i].char_idx)
}

/// The rows of the anchors up to place `i`, from place `from` on, on top of `met` rows.
pub open spec fn rows_up_to(anchors: Seq<Anchor>, from: int, i: int, met: usize) -> usize
    decreases i - from,
{
    if i <= from {
        met
    } else {
        let before = rows_up_to(anchors, from, i - 1, met);
        if before + anchors[i - 1].rows <= usize::MAX {
            (before + anchors[i - 1].rows) as usize
        } else {
            usize::MAX
        }
    }
}

impl View for AnchoredRows {
    type V = AnchoredRowsView;

    closed spec fn view(&self) -> AnchoredRowsView {
        AnchoredRowsView { anchors: self.anchors@, next: self.next as int, met: self.met }
    }
}

impl AnchoredRows {
    #[verifier::type_invariant]
    spec fn inv(self) -> bool {
        self.next <= self.anchors@.len()
    }

    pub fn new(anchors: Vec<Anchor>) -> (rows: AnchoredRows)
        ensures
            rows@ == (AnchoredRowsView { anchors: anchors@, next: 0, met: 0 }),
    {
        AnchoredRows { anchors, next: 0, met: 0 }
    }

    /// The place of the first anchor from `from` on at `char_idx` or behind it.
    fn seek(&self, from: usize, char_idx: usize) -> (i: usize)
        requires
            from <= self@.anchors.len(),
        ensures
            i == seek(anchor_positions(self@.anchors), from as int, char_idx as int),
            from <= i <= self@.anchors.len(),
    {
        let ghost positions = anchor_positions(self@.anchors);
        let mut i: usize = from;
        while i < self.anchors.len() && self.anchors[i].char_idx < char_idx
            invariant
                positions == anchor_positions(self.anchors@),
                from <= i <= self.anchors.len(),
                seek(positions, from as int, char_idx as int) == seek(
                    positions,
                    i as int,
                    char_idx as int,
                ),
            decreases self.anchors.len() - i,
        {
            i += 1;
        }
        i
    }
}

impl LineAnnotation for AnchoredRows {
    open spec fn after_reset(state: AnchoredRowsView, char_idx: usize) -> AnchoredRowsView {
        AnchoredRowsView {
            next: seek(anchor_positions(state.anchors), 0, char_idx as int),
            met: 0,
            ..state
        }
    }

    open spec fn after_grapheme(state: AnchoredRowsView, grapheme: FormattedView) -> AnchoredRowsView {
        let positions = anchor_positions(state.anchors);
        let here = seek(positions, state.next, grapheme.char_idx as int);
        let behind = run_end(positions, here, grapheme.char_idx as int);
        AnchoredRowsView {
            next: behind,
            met: rows_up_to(state.anchors, here, behind, state.met),
            ..state
        }
    }

    open spec fn rows_at(
        state: AnchoredRowsView,
        char_idx: usize,
        visual_pos: Position,
        doc_line: usize,
    ) -> usize {
        state.met
    }

    open spec fn after_rows(
        state: AnchoredRowsView,
        char_idx: usize,
        visual_pos: Position,
        doc_line: usize,
    ) -> AnchoredRowsView {
        AnchoredRowsView { met: 0, ..state }
    }

    fn reset_pos(&mut self, char_idx: usize) {
        proof {
            use_type_invariant(&*self);
        }
        self.met = 0;
        self.next = self.seek(0, char_idx);
    }

    fn process_anchor(&mut self, grapheme: &FormattedGrapheme) {
        proof {
            use_type_invariant(&*self);
        }
        let here: usize = self.seek(self.next, grapheme.char_idx);
        let ghost positions = anchor_positions(self.anchors@);
        let mut behind: usize = here;
        let mut rows: usize = self.met;
        while behind < self.anchors.len() && self.anchors[behind].char_idx == grapheme.char_idx
            invariant
                positions == anchor_positions(self.anchors@),
                here <= behind <= self.anchors.len(),
                rows == rows_up_to(self.anchors@, here as int, behind as int, self.met),
                run_end(positions, here as int, grapheme.char_idx as int) == run_end(
                    positions,
                    behind as int,
                    grapheme.char_idx as int,
                ),
            decreases self.anchors.len() - behind,
        {
            rows = rows.saturating_add(self.anchors[behind].rows);
            behind += 1;
        }
        self.next = behind;
        self.met = rows;
    }

    fn insert_virtual_lines(&mut self, char_idx: usize, visual_pos: Position, doc_line: usize) -> (rows:
        usize) {
        proof {
            use_type_invariant(&*self);
        }
        let rows: usize = self.met;
        self.met = 0;
        rows
    }
}

/// The rows of all anchors of char `p`.
pub open spec fn rows_of(anchors: Seq<Anchor>, p: int) -> nat
    decreases anchors.len(),
{
    if anchors.len() == 0 {
        0
    } else {
        rows_of(anchors.drop_last(), p) + if anchors.last().char_idx == p {
            anchors.last().rows as nat
        } else {
            0
        }
    }
}

/// Anchors of other chars have no rows.
proof fn lemma_no_rows(anchors: Seq<Anchor>, p: int)
    requires
        forall|i: int| 0 <= i < anchors.len() ==> (#[trigger] anchors[i]).char_idx != p,
    ensures
        rows_of(anchors, p) == 0,
    decreases anchors.len(),
{
    if anchors.len() > 0 {
        let init = anchors.drop_last();
        assert forall|i: int| 0 <= i < init.len() implies (#[trigger] init[i]).char_idx != p by {
            assert(anchors[i].char_idx != p);
        }
        lemma_no_rows(init, p);
        assert(anchors[anchors.len() - 1].char_idx != p);
    }
}

/// The anchors of a char stand side by side.
proof fn lemma_rows_add(anchors: Seq<Anchor>, from: int, to: int, p: int, met: usize)
    requires
        0 <= from <= to <= anchors.len(),
        forall|i: int| from <= i < to ==> (#[trigger] anchors[i]).char_idx == p,
        forall|i: int| 0 <= i < from ==> (#[trigger] anchors[i]).char_idx != p,
    ensures
        rows_up_to(anchors, from, to, met) == if met + rows_of(anchors.take(to), p)
            <= usize::MAX {
            met + rows_of(anchors.take(to), p)
        } else {
            usize::MAX as int
        },
    decreases to - from,
{
    if to == from {
        assert forall|i: int| 0 <= i < anchors.take(to).len() implies (
        #[trigger] anchors.take(to)[i]).char_idx != p by {
            assert(anchors[i].char_idx != p);
        }
        lemma_no_rows(anchors.take(to), p);
    } else {
        lemma_rows_add(anchors, from, to - 1, p, met);
        assert(anchors.take(to).drop_last() =~= anchors.take(to - 1));
        assert(anchors[to - 1].char_idx == p);
    }
}

/// Rows of anchors behind do not count.
proof fn lemma_rows_behind(anchors: Seq<Anchor>, to: int, p: int)
    requires
        0 <= to <= anchors.len(),
        forall|i: int| to <= i < anchors.len() ==> (#[trigger] anchors[i]).char_idx != p,
    ensures
        rows_of(anchors, p) == rows_of(anchors.take(to), p),
    decreases anchors.len(),
{
    if to == anchors.len() {
        assert(anchors.take(to) =~= anchors);
    } else {
        let init = anchors.drop_last();
        assert forall|i: int| to <= i < init.len() implies (#[trigger] init[i]).char_idx != p by {
            assert(anchors[i].char_idx != p);
        }
        lemma_rows_behind(init, to, p);
        assert(init.take(to) =~= anchors.take(to));
        assert(anchors[anchors.len() - 1].char_idx != p);
    }
}

/// The law of anchors. Let the anchors be in order, and let those that were passed be of chars
/// before char `p`, as they are after a reset at `p` or before. A grapheme that starts at `p`
/// brings the rows of all anchors of that char, as far as they fit, and no others; behind it the
/// anchors of `p` have been passed. They are answered once, at the end of the visual line.
pub proof fn law_anchors_add_up(state: AnchoredRowsView, g: FormattedView)
    requires
        state.next >= 0,
        forall|i: int, j: int|
            0 <= i <= j < state.anchors.len() ==> (#[trigger] state.anchors[i]).char_idx <= (
            #[trigger] state.anchors[j]).char_idx,
        forall|i: int|
            0 <= i < state.next && i < state.anchors.len() ==> (
            #[trigger] state.anchors[i]).char_idx < g.char_idx,
    ensures
        ({
            let after = AnchoredRows::after_grapheme(state, g);
            let met = state.met + rows_of(state.anchors, g.char_idx as int);
            &&& after.anchors == state.anchors
            &&& after.next >= 0
            &&& after.met == if met <= usize::MAX {
                met
            } else {
                usize::MAX as int
            }
            &&& forall|i: int|
                0 <= i < after.next && i < state.anchors.len() ==> (
                #[trigger] state.anchors[i]).char_idx <= g.char_idx
            &&& forall|p: usize, at: Position, line: usize|
                {
                    &&& #[trigger] AnchoredRows::rows_at(after, p, at, line) == after.met
                    &&& AnchoredRows::after_rows(after, p, at, line).met == 0
                    &&& AnchoredRows::after_rows(after, p, at, line).next == after.next
                    &&& AnchoredRows::after_rows(after, p, at, line).anchors == after.anchors
                }
        }),
{
    let anchors = state.anchors;
    let p = g.char_idx as int;
    let positions = anchor_positions(anchors);
    let here = seek(positions, state.next, p);
    let behind = run_end(positions, here, p);
    lemma_seek_finds(positions, state.next, p);
    lemma_run_end_finds(positions, here, p);
    assert forall|i: int| 0 <= i < here && i < anchors.len() implies (
    #[trigger] anchors[i]).char_idx < p by {
        assert(positions[i] == anchors[i].char_idx);
    }
    assert forall|i: int| here <= i < behind implies (#[trigger] anchors[i]).char_idx == p by {
        assert(positions[i] == anchors[i].char_idx);
    }
    assert forall|i: int| behind <= i < anchors.len() implies (#[trigger] anchors[i]).char_idx
        > p by {
        assert(anchors[behind].char_idx <= anchors[i].char_idx);
        assert(positions[behind] == anchors[behind].char_idx);
        if behind == here {
            assert(positions[here] == anchors[here].char_idx);
        } else {
            assert(anchors[behind - 1].char_idx <= anchors[behind].char_idx);
        }
    }
    if behind <= anchors.len() {
        lemma_rows_add(anchors, here, behind, p, state.met);
        lemma_rows_behind(anchors, behind, p);
    } else {
        lemma_no_rows(anchors, p);
    }
}

/// The law of the reset. Where the layout starts at a char, the anchors of the chars before it
/// have been passed, those of that char and behind it have not, and no rows are owed.
pub proof fn law_reset_passes_the_anchors_before(state: AnchoredRowsView, char_idx: usize)
    requires
        forall|i: int, j: int|
            0 <= i <= j < state.anchors.len() ==> (#[trigger] state.anchors[i]).char_idx <= (
            #[trigger] state.anchors[j]).char_idx,
    ensures
        ({
            let after = AnchoredRows::after_reset(state, char_idx);
            &&& after.anchors == state.anchors
            &&& after.next >= 0
            &&& after.met == 0
            &&& forall|i: int|
                0 <= i < state.anchors.len() ==> (i < after.next <==> (
                #[trigger] state.anchors[i]).char_idx < char_idx)
        }),
{
    let anchors = state.anchors;
    let positions = anchor_positions(anchors);
    lemma_seek_finds(positions, 0, char_idx as int);
    let next = seek(positions, 0, char_idx as int);
    assert forall|i: int| 0 <= i < anchors.len() implies (i < next <==> (
    #[trigger] anchors[i]).char_idx < char_idx) by {
        assert(positions[i] == anchors[i].char_idx);
        if next <= i {
            assert(positions[next] == anchors[next].char_idx);
            assert(anchors[next].char_idx <= anchors[i].char_idx);
        }
    }
}

} // verus!
