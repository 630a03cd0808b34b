//! What is drawn besides the document: inline annotations, overlays, folds and
//! whole rows.

use crate::fold::{Fold, Folds};
use crate::formatted::{FormattedGrapheme, FormattedView};
use crate::highlight::Highlight;
use crate::position::Position;
use vstd::prelude::*;

verus! {

/// Text that is drawn before the char at `char_idx`, or behind it where that char
/// ends a line.
#[derive(Debug)]
pub struct InlineAnnotation {
    pub char_idx: usize,
    pub text: String,
    pub highlight: Option<Highlight>,
}

/// What an `InlineAnnotation` stands for.
#[verifier::ext_equal]
pub struct InlineView {
    pub char_idx: usize,
    pub text: Seq<char>,
    pub highlight: Option<Highlight>,
}

impl View for InlineAnnotation {
    type V = InlineView;

    open spec fn view(&self) -> InlineView {
        InlineView { char_idx: self.char_idx, text: self.text@, highlight: self.highlight }
    }
}

/// A grapheme that is drawn in place of the one that starts at `char_idx`.
#[derive(Debug)]
pub struct Overlay {
    pub char_idx: usize,
    pub grapheme: String,
}

/// What an `Overlay` stands for.
#[verifier::ext_equal]
pub struct OverlayView {
    pub char_idx: usize,
    pub grapheme: Seq<char>,
}

impl View for Overlay {
    type V = OverlayView;

    open spec fn view(&self) -> OverlayView {
        OverlayView { char_idx: self.char_idx, grapheme: self.grapheme@ }
    }
}

/// Annotations that put whole rows below a visual line. They are told of every
/// grapheme of the document as it is placed, and asked at the end of every visual
/// line how many rows follow it. What they answer is theirs to decide; the spec
/// functions say it in terms of the state that they show.
pub trait LineAnnotation: View + Sized {
    /// The state after the layout was moved to `char_idx`.
    spec fn after_reset(state: Self::V, char_idx: usize) -> Self::V;

    /// The state after `grapheme` was placed.
    spec fn after_grapheme(state: Self::V, grapheme: FormattedView) -> Self::V;

    /// The rows below the visual line that ends before char `char_idx` of line
    /// `doc_line`, at `visual_pos`.
    spec fn rows_at(
        state: Self::V,
        char_idx: usize,
        visual_pos: Position,
        doc_line: usize,
    ) -> usize;

    /// The state after those rows were inserted.
    spec fn after_rows(
        state: Self::V,
        char_idx: usize,
        visual_pos: Position,
        doc_line: usize,
    ) -> Self::V;

    /// The layout starts again, at `char_idx`.
    fn reset_pos(&mut self, char_idx: usize)
        ensures
            final(self)@ == Self::after_reset(old(self)@, char_idx),
    ;

    /// A grapheme of the document was placed.
    fn process_anchor(&mut self, grapheme: &FormattedGrapheme)
        ensures
            final(self)@ == Self::after_grapheme(old(self)@, grapheme@),
    ;

    /// A visual line ends: how many rows follow?
    fn insert_virtual_lines(
        &mut self,
        char_idx: usize,
        visual_pos: Position,
        doc_line: usize,
    ) -> (rows: usize)
        ensures
            rows == Self::rows_at(old(self)@, char_idx, visual_pos, doc_line),
            final(self)@ == Self::after_rows(old(self)@, char_idx, visual_pos, doc_line),
    ;
}

/// The first place from `from` on whose position is `char_idx` or behind it.
pub open spec fn seek(positions: Seq<usize>, from: int, char_idx: int) -> int
    decreases positions.len() - from,
{
    if from >= positions.len() || positions[from] >= char_idx {
        from
    } else {
        seek(positions, from + 1, char_idx)
    }
}

/// The first place from `from` on whose position is not `char_idx`.
pub open spec fn run_end(positions: Seq<usize>, from: int, char_idx: int) -> int
    decreases positions.len() - from,
{
    if from >= positions.len() || positions[from] != char_idx {
        from
    } else {
        run_end(positions, from + 1, char_idx)
    }
}

/// The first fold from place `from` on that reaches over `char_idx`.
pub open spec fn fold_over(folds: Seq<Fold>, from: int, char_idx: int) -> Option<Fold>
    decreases folds.len() - from,
{
    if from >= folds.len() {
        None
    } else if folds[from].reaches_over(char_idx) {
        Some(folds[from])
    } else {
        fold_over(folds, from + 1, char_idx)
    }
}

/// The first fold from place `from` on that starts at `char_idx`.
pub open spec fn fold_starting(folds: Seq<Fold>, from: int, char_idx: int) -> Option<Fold>
    decreases folds.len() - from,
{
    if from >= folds.len() {
        None
    } else if folds[from].start_char == char_idx {
        Some(folds[from])
    } else {
        fold_starting(folds, from + 1, char_idx)
    }
}

/// All that is drawn besides the document. The inline annotations and the overlays
/// are given in the order of their chars; as the layout moves on, those that it
/// has passed are left behind.
#[derive(Debug)]
pub struct TextAnnotations<L> {
    inline_annotations: Vec<InlineAnnotation>,
    /// The first inline annotation that has not been handed out or passed.
    next_inline: usize,
    overlays: Vec<Overlay>,
    /// The first overlay that has not been handed out or passed.
    next_overlay: usize,
    folds: Folds,
    line_annotations: L,
}

/// What `TextAnnotations` stand for.
#[verifier::ext_equal]
pub struct AnnotationsView<L: LineAnnotation> {
    pub inline: Seq<InlineView>,
    pub next_inline: int,
    pub overlays: Seq<OverlayView>,
    pub next_overlay: int,
    pub folds: Seq<Fold>,
    pub lines: L::V,
}

impl<L: LineAnnotation> AnnotationsView<L> {
    pub open spec fn inline_positions(self) -> Seq<usize> {
        Seq::new(self.inline.len(), |i: int| self.inline[i].char_idx)
    }

    pub open spec fn overlay_positions(self) -> Seq<usize> {
        Seq::new(self.overlays.len(), |i: int| self.overlays[i].char_idx)
    }

    /// The annotations, with the layout at `char_idx`.
    pub open spec fn reset(self, char_idx: usize) -> Self {
        AnnotationsView {
            next_inline: seek(self.inline_positions(), 0, char_idx as int),
            next_overlay: seek(self.overlay_positions(), 0, char_idx as int),
            lines: L::after_reset(self.lines, char_idx),
            ..self
        }
    }

    /// The next inline annotation of the char at `char_idx`, if any is left, and the
    /// annotations without it and without those of the chars before.
    pub open spec fn take_inline(self, char_idx: usize) -> (Self, Option<InlineView>) {
        let i = seek(self.inline_positions(), self.next_inline, char_idx as int);
        if i < self.inline.len() && self.inline[i].char_idx == char_idx {
            (AnnotationsView { next_inline: i + 1, ..self }, Some(self.inline[i]))
        } else {
            (AnnotationsView { next_inline: i, ..self }, None)
        }
    }

    /// The overlay of the grapheme that starts at `char_idx`, if there is one (the
    /// last of several), and the annotations without it and those of the chars before.
    pub open spec fn take_overlay(self, char_idx: usize) -> (Self, Option<OverlayView>) {
        let i = seek(self.overlay_positions(), self.next_overlay, char_idx as int);
        let j = run_end(self.overlay_positions(), i, char_idx as int);
        (
            AnnotationsView { next_overlay: j, ..self },
            if j > i {
                Some(self.overlays[j - 1])
            } else {
                None
            },
        )
    }

    pub open spec fn fold_at_start(self, char_idx: usize) -> Option<Fold> {
        fold_starting(self.folds, 0, char_idx as int)
    }

    pub open spec fn rows_at(self, char_idx: usize, visual_pos: Position, doc_line: usize) -> usize {
        L::rows_at(self.lines, char_idx, visual_pos, doc_line)
    }

    pub open spec fn after_rows(self, char_idx: usize, visual_pos: Position, doc_line: usize) -> Self {
        AnnotationsView { lines: L::after_rows(self.lines, char_idx, visual_pos, doc_line), ..self }
    }

    pub open spec fn after_grapheme(self, grapheme: FormattedView) -> Self {
        AnnotationsView { lines: L::after_grapheme(self.lines, grapheme), ..self }
    }
}

impl<L: LineAnnotation> View for TextAnnotations<L> {
    type V = AnnotationsView<L>;

    closed spec fn view(&self) -> AnnotationsView<L> {
        AnnotationsView {
            inline: Seq::new(
                self.inline_annotations@.len(),
                |i: int| self.inline_annotations@[i]@,
            ),
            next_inline: self.next_inline as int,
            overlays: Seq::new(self.overlays@.len(), |i: int| self.overlays@[i]@),
            next_overlay: self.next_overlay as int,
            folds: self.folds@,
            lines: self.line_annotations@,
        }
    }
}

/// What `fold_starting` finds.
pub proof fn lemma_fold_starting(folds: Seq<Fold>, from: int, p: int)
    requires
        0 <= from,
    ensures
        match fold_starting(folds, from, p) {
            Some(fold) => exists|i: int|
                from <= i < folds.len() && #[trigger] folds[i] == fold && fold.start_char == p,
            None => forall|i: int|
                from <= i < folds.len() ==> (#[trigger] folds[i]).start_char != p,
        },
    decreases folds.len() - from,
{
    if from < folds.len() {
        if folds[from].start_char == p {
            assert(folds[from] == fold_starting(folds, from, p)->0);
        } else {
            lemma_fold_starting(folds, from + 1, p);
        }
    }
}

/// What `fold_over` finds.
pub proof fn lemma_fold_over(folds: Seq<Fold>, from: int, char_idx: int)
    requires
        0 <= from,
    ensures
        match fold_over(folds, from, char_idx) {
            Some(fold) => fold.reaches_over(char_idx),
            None => forall|i: int|
                from <= i < folds.len() ==> !(#[trigger] folds[i]).reaches_over(char_idx),
        },
    decreases folds.len() - from,
{
    if from < folds.len() && !folds[from].reaches_over(char_idx) {
        lemma_fold_over(folds, from + 1, char_idx);
    }
}

/// Seeking goes forward, and not past the end.
pub proof fn lemma_seek(positions: Seq<usize>, from: int, char_idx: int)
    ensures
        from <= seek(positions, from, char_idx),
        from <= positions.len() ==> seek(positions, from, char_idx) <= positions.len(),
    decreases positions.len() - from,
{
    if from < positions.len() && positions[from] < char_idx {
        lemma_seek(positions, from + 1, char_idx);
    }
}

impl<L: LineAnnotation> TextAnnotations<L> {
    pub fn new(
        inline_annotations: Vec<InlineAnnotation>,
        overlays: Vec<Overlay>,
        folds: Folds,
        line_annotations: L,
    ) -> (annotations: TextAnnotations<L>)
        ensures
            annotations@ == (AnnotationsView::<L> {
                inline: Seq::new(inline_annotations@.len(), |i: int| inline_annotations@[i]@),
                next_inline: 0,
                overlays: Seq::new(overlays@.len(), |i: int| overlays@[i]@),
                next_overlay: 0,
                folds: folds@,
                lines: line_annotations@,
            }),
    {
        TextAnnotations {
            inline_annotations,
            next_inline: 0,
            overlays,
            next_overlay: 0,
            folds,
            line_annotations,
        }
    }

    /// The place of the next inline annotation at `char_idx` or behind it.
    fn seek_inline(&self, from: usize, char_idx: usize) -> (i: usize)
        ensures
            i == seek(self@.inline_positions(), from as int, char_idx as int),
    {
        let ghost positions = self@.inline_positions();
        let mut i: usize = from;
        while i < self.inline_annotations.len() && self.inline_annotations[i].char_idx < char_idx
            invariant
                positions == self@.inline_positions(),
                positions.len() == self.inline_annotations.len(),
                forall|k: int|
                    0 <= k < positions.len() ==> #[trigger] positions[k]
                        == self.inline_annotations@[k].char_idx,
                seek(positions, from as int, char_idx as int) == seek(
                    positions,
                    i as int,
                    char_idx as int,
                ),
            decreases self.inline_annotations.len() - i,
        {
            i += 1;
        }
        i
    }

    /// The place of the next overlay at `char_idx` or behind it.
    fn seek_overlay(&self, from: usize, char_idx: usize) -> (i: usize)
        ensures
            i == seek(self@.overlay_positions(), from as int, char_idx as int),
    {
        let ghost positions = self@.overlay_positions();
        let mut i: usize = from;
        while i < self.overlays.len() && self.overlays[i].char_idx < char_idx
            invariant
                positions == self@.overlay_positions(),
                positions.len() == self.overlays.len(),
                forall|k: int|
                    0 <= k < positions.len() ==> #[trigger] positions[k]
                        == self.overlays@[k].char_idx,
                seek(positions, from as int, char_idx as int) == seek(
                    positions,
                    i as int,
                    char_idx as int,
                ),
            decreases self.overlays.len() - i,
        {
            i += 1;
        }
        i
    }

    /// Moves the layout to `char_idx`.
    pub fn reset_pos(&mut self, char_idx: usize)
        ensures
            final(self)@ == old(self)@.reset(char_idx),
    {
        self.next_inline = self.seek_inline(0, char_idx);
        self.next_overlay = self.seek_overlay(0, char_idx);
        self.line_annotations.reset_pos(char_idx);
        assert(final(self)@ =~= old(self)@.reset(char_idx));
    }

    /// The first fold that starts before `char_idx` and ends behind it.
    pub fn fold_reaching_over(&self, char_idx: usize) -> (fold: Option<Fold>)
        ensures
            fold == fold_over(self@.folds, 0, char_idx as int),
    {
        let folds = self.folds.as_slice();
        let mut i: usize = 0;
        while i < folds.len()
            invariant
                folds@ == self@.folds,
                i <= folds.len(),
                fold_over(self@.folds, 0, char_idx as int) == fold_over(
                    self@.folds,
                    i as int,
                    char_idx as int,
                ),
            decreases folds.len() - i,
        {
            let fold = folds[i];
            if fold.start_char < char_idx && char_idx < fold.end_char {
                return Some(fold);
            }
            i += 1;
        }
        None
    }

    /// The fold that starts at `char_idx`.
    pub fn fold_starting_at(&self, char_idx: usize) -> (fold: Option<Fold>)
        ensures
            fold == self@.fold_at_start(char_idx),
    {
        let folds = self.folds.as_slice();
        let mut i: usize = 0;
        while i < folds.len()
            invariant
                folds@ == self@.folds,
                i <= folds.len(),
                self@.fold_at_start(char_idx) == fold_starting(
                    self@.folds,
                    i as int,
                    char_idx as int,
                ),
            decreases folds.len() - i,
        {
            if folds[i].start_char == char_idx {
                return Some(folds[i]);
            }
            i += 1;
        }
        None
    }

    /// Whether an inline annotation of the char at `char_idx` is left.
    pub fn has_inline_annotation_at(&self, char_idx: usize) -> (b: bool)
        ensures
            b == (self@.take_inline(char_idx).1 is Some),
    {
        let i: usize = self.seek_inline(self.next_inline, char_idx);
        i < self.inline_annotations.len() && self.inline_annotations[i].char_idx == char_idx
    }

    /// Hands out the next inline annotation of the char at `char_idx`: its text and
    /// its highlight.
    pub fn next_inline_annotation_at(&mut self, char_idx: usize) -> (found: Option<
        (String, Option<Highlight>),
    >)
        ensures
            final(self)@ == old(self)@.take_inline(char_idx).0,
            match found {
                Some((text, highlight)) => old(self)@.take_inline(char_idx).1 == Some(
                    InlineView { char_idx, text: text@, highlight },
                ),
                None => old(self)@.take_inline(char_idx).1 is None,
            },
            old(self)@.next_inline <= final(self)@.next_inline,
            old(self)@.next_inline <= old(self)@.inline.len() ==> final(self)@.next_inline
                <= final(self)@.inline.len(),
            found is Some ==> old(self)@.next_inline < final(self)@.next_inline
                <= final(self)@.inline.len(),
    {
        proof {
            lemma_seek(self@.inline_positions(), self.next_inline as int, char_idx as int);
        }
        let i: usize = self.seek_inline(self.next_inline, char_idx);
        if i < self.inline_annotations.len() && self.inline_annotations[i].char_idx == char_idx {
            let text = self.inline_annotations[i].text.clone();
            let highlight = self.inline_annotations[i].highlight;
            assert(self@.inline[i as int] =~= InlineView { char_idx, text: text@, highlight });
            self.next_inline = i + 1;
            Some((text, highlight))
        } else {
            self.next_inline = i;
            None
        }
    }

    /// Hands out the overlay of the grapheme that starts at `char_idx`.
    pub fn overlay_at(&mut self, char_idx: usize) -> (found: Option<String>)
        ensures
            final(self)@ == old(self)@.take_overlay(char_idx).0,
            match found {
                Some(grapheme) => old(self)@.take_overlay(char_idx).1 == Some(
                    OverlayView { char_idx, grapheme: grapheme@ },
                ),
                None => old(self)@.take_overlay(char_idx).1 is None,
            },
    {
        let i: usize = self.seek_overlay(self.next_overlay, char_idx);
        let ghost positions = self@.overlay_positions();
        let mut j: usize = i;
        while j < self.overlays.len() && self.overlays[j].char_idx == char_idx
            invariant
                i <= j,
                i < j ==> j <= positions.len() && positions[j - 1] == char_idx,
                positions.len() == self.overlays.len(),
                forall|k: int|
                    0 <= k < positions.len() ==> #[trigger] positions[k]
                        == self.overlays@[k].char_idx,
                run_end(positions, i as int, char_idx as int) == run_end(
                    positions,
                    j as int,
                    char_idx as int,
                ),
            decreases self.overlays.len() - j,
        {
            j += 1;
        }
        self.next_overlay = j;
        if j > i {
            let grapheme = self.overlays[j - 1].grapheme.clone();
            assert(self@.overlays[j - 1] =~= OverlayView { char_idx, grapheme: grapheme@ });
            Some(grapheme)
        } else {
            None
        }
    }

    /// The rows below the visual line that ends before char `char_idx`.
    pub fn virtual_lines_at(
        &mut self,
        char_idx: usize,
        visual_pos: Position,
        doc_line: usize,
    ) -> (rows: usize)
        ensures
            rows == old(self)@.rows_at(char_idx, visual_pos, doc_line),
            final(self)@ == old(self)@.after_rows(char_idx, visual_pos, doc_line),
    {
        let rows: usize = self.line_annotations.insert_virtual_lines(
            char_idx,
            visual_pos,
            doc_line,
        );
        assert(final(self)@ =~= old(self)@.after_rows(char_idx, visual_pos, doc_line));
        rows
    }

    /// Tells the line annotations of a grapheme of the document.
    pub fn process_virtual_text_anchors(&mut self, grapheme: &FormattedGrapheme)
        ensures
            final(self)@ == old(self)@.after_grapheme(grapheme@),
    {
        self.line_annotations.process_anchor(grapheme);
        assert(final(self)@ =~= old(self)@.after_grapheme(grapheme@));
    }
}

} // verus!
