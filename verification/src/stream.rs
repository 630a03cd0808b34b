//! What a layout gives, from the document and what is drawn besides it.

use crate::fold::{in_order, Fold};
use crate::formatted::{CellView, FormattedView, GraphemeSource};
use crate::graphemes::GraphemeView;
use crate::highlight::Highlight;
use crate::layout::{
    graphemes_within, lemma_graphemes_within, lemma_take_inline_frame, line_ends_at, total_covered,
    FormatterView,
};
use crate::reading::{lemma_cut, lemma_flatten_split, lemma_fold_tracks};
use crate::rope::newlines;
use crate::text_annotations::{
    fold_starting, lemma_fold_starting, lemma_seek, run_end, seek, AnnotationsView, InlineView,
    LineAnnotation, OverlayView,
};
use crate::text_format::TextFormat;
use crate::unicode::grapheme_clusters;
use vstd::prelude::*;

verus! {

/// A grapheme that is given: where it comes from and what it looks like. How wide a tab is
/// depends on where it stands, and is left out.
#[verifier::ext_equal]
pub struct Item {
    pub source: GraphemeSource,
    pub look: GraphemeView,
}

/// What a grapheme looks like that is spelled `text`.
pub open spec fn shape(text: Seq<char>) -> GraphemeView {
    if text == seq!['\t'] {
        GraphemeView::Tab { width: 0 }
    } else if text == seq!['\n'] || text == seq!['\r', '\n'] {
        GraphemeView::Newline
    } else {
        GraphemeView::Other { g: text }
    }
}

/// What a grapheme looks like, without the width of a tab.
pub open spec fn look(grapheme: GraphemeView) -> GraphemeView {
    match grapheme {
        GraphemeView::Tab { .. } => GraphemeView::Tab { width: 0 },
        _ => grapheme,
    }
}

/// What a cell is.
pub open spec fn item(cell: CellView) -> Item {
    Item { source: cell.source, look: look(cell.grapheme) }
}

/// What cells are.
pub open spec fn items(cells: Seq<CellView>) -> Seq<Item> {
    Seq::new(cells.len(), |i: int| item(cells[i]))
}

/// What graphemes that were given are.
pub open spec fn given_items(drawn: Seq<FormattedView>) -> Seq<Item> {
    Seq::new(drawn.len(), |i: int| Item { source: drawn[i].source, look: look(drawn[i].raw) })
}

/// Virtual text.
pub open spec fn virtual_items(texts: Seq<Seq<char>>, highlight: Option<Highlight>) -> Seq<Item> {
    Seq::new(
        texts.len(),
        |i: int|
            Item { source: GraphemeSource::VirtualText { highlight }, look: shape(texts[i]) },
    )
}

/// The inline annotations of char `p`, from place `from` of the list on: each of them whole, in
/// the order of the list.
pub open spec fn notes(inline: Seq<InlineView>, from: int, p: int) -> Seq<Item>
    decreases inline.len() - from,
{
    if from >= inline.len() {
        Seq::empty()
    } else if inline[from].char_idx == p {
        virtual_items(grapheme_clusters(inline[from].text), inline[from].highlight) + notes(
            inline,
            from + 1,
            p,
        )
    } else {
        notes(inline, from + 1, p)
    }
}

/// The marker of a fold: each grapheme of it, the last with what the fold hides.
pub open spec fn marker_items(
    texts: Seq<Seq<char>>,
    highlight: Option<Highlight>,
    codepoints: u32,
    lines: u32,
) -> Seq<Item> {
    Seq::new(
        texts.len(),
        |i: int|
            Item {
                source: if i == texts.len() - 1 {
                    GraphemeSource::Fold { highlight, codepoints, lines }
                } else {
                    GraphemeSource::VirtualText { highlight }
                },
                look: shape(texts[i]),
            },
    )
}

/// What is drawn for the grapheme `own` that starts at char `p`: the last overlay of that char,
/// if there is one.
pub open spec fn overlaid_text(overlays: Seq<OverlayView>, p: int, own: Seq<char>) -> Seq<char>
    decreases overlays.len(),
{
    if overlays.len() == 0 {
        own
    } else if overlays.last().char_idx == p {
        overlays.last().grapheme
    } else {
        overlaid_text(overlays.drop_last(), p, own)
    }
}

/// What is left of graphemes behind char `end`, where they begin at char `p`, and where that is.
pub open spec fn skip_to(graphemes: Seq<Seq<char>>, p: int, end: int) -> (Seq<Seq<char>>, int)
    decreases graphemes.len(),
{
    if graphemes.len() == 0 || p >= end {
        (graphemes, p)
    } else {
        skip_to(graphemes.drop_first(), p + graphemes[0].len(), end)
    }
}

/// A document and what is drawn besides it.
pub struct Drawing {
    pub text: Seq<char>,
    pub inline: Seq<InlineView>,
    pub overlays: Seq<OverlayView>,
    pub folds: Seq<Fold>,
    pub fold_marker: Seq<Seq<char>>,
    pub fold_marker_highlight: Option<Highlight>,
}

impl Drawing {
    /// Whether the inline annotations and the overlays are given in the order of their chars,
    /// and the folds are in order and start inside the text.
    pub open spec fn sorted(self) -> bool {
        &&& forall|i: int, j: int|
            0 <= i <= j < self.inline.len() ==> (#[trigger] self.inline[i]).char_idx <= (
            #[trigger] self.inline[j]).char_idx
        &&& forall|i: int, j: int|
            0 <= i <= j < self.overlays.len() ==> (#[trigger] self.overlays[i]).char_idx <= (
            #[trigger] self.overlays[j]).char_idx
        &&& in_order(self.folds)
        &&& forall|i: int|
            0 <= i < self.folds.len() ==> (#[trigger] self.folds[i]).start_char < self.text.len()
    }

    /// Whether a line break is at char `p`, or the end of the text.
    pub open spec fn line_ends(self, p: int) -> bool {
        ||| p >= self.text.len()
        ||| self.text[p] == '\n'
        ||| self.text[p] == '\r' && p + 1 < self.text.len() && self.text[p + 1] == '\n'
    }

    /// Whether a fold starts at char `p`.
    pub open spec fn folded(self, p: int) -> bool {
        exists|i: int| 0 <= i < self.folds.len() && (#[trigger] self.folds[i]).start_char == p
    }

    /// Where the fold ends that starts at char `p`.
    pub open spec fn fold_end(self, p: int) -> int {
        self.folds[choose|i: int|
            0 <= i < self.folds.len() && (#[trigger] self.folds[i]).start_char == p].end_char as int
    }

    /// The grapheme `own` of the document that starts at char `p`.
    pub open spec fn own_item(self, p: int, own: Seq<char>) -> Item {
        Item {
            source: GraphemeSource::Document { codepoints: own.len() as u32 },
            look: shape(overlaid_text(self.overlays, p, own)),
        }
    }

    /// The blank behind the text.
    pub open spec fn end_item(self) -> Item {
        Item {
            source: GraphemeSource::Document { codepoints: 0 },
            look: GraphemeView::Other { g: seq![' '] },
        }
    }

    /// What is to be given, where the document goes on with `graphemes` at char `p`. A fold is
    /// hidden behind its whole marker. Inline annotations of a char are given whole, before the
    /// char, or behind it if it ends a line. Each grapheme is drawn as its overlay, if it has
    /// one. The blank behind the text comes last, and its annotations.
    pub open spec fn stream(self, graphemes: Seq<Seq<char>>, p: int) -> Seq<Item>
        decreases graphemes.len(), 1int,
    {
        if self.folded(p) && graphemes.len() > 0 {
            let (rest, q) = skip_to(
                graphemes.drop_first(),
                p + graphemes[0].len(),
                self.fold_end(p),
            );
            proof {
                lemma_skip_to(graphemes.drop_first(), p + graphemes[0].len(), self.fold_end(p));
            }
            marker_items(
                self.fold_marker,
                self.fold_marker_highlight,
                (q - p) as u32,
                newlines(self.text.subrange(p, q)) as u32,
            ) + self.stream(rest, q)
        } else if self.line_ends(p) {
            self.behind_notes(graphemes, p)
        } else {
            notes(self.inline, 0, p) + self.behind_notes(graphemes, p)
        }
    }

    /// The same where no fold starts, and the annotations before the char were given.
    pub open spec fn behind_notes(self, graphemes: Seq<Seq<char>>, p: int) -> Seq<Item>
        decreases graphemes.len(), 0int,
    {
        if graphemes.len() == 0 {
            seq![self.end_item()] + notes(self.inline, 0, p)
        } else {
            seq![self.own_item(p, graphemes[0])] + (if self.line_ends(p) {
                notes(self.inline, 0, p)
            } else {
                Seq::empty()
            }) + self.stream(graphemes.drop_first(), p + graphemes[0].len())
        }
    }
}

impl<L: LineAnnotation> FormatterView<L> {
    /// The document and what is drawn besides it.
    pub open spec fn drawing(self) -> Drawing {
        Drawing {
            text: self.text,
            inline: self.annotations.inline,
            overlays: self.annotations.overlays,
            folds: self.annotations.folds,
            fold_marker: self.fold_marker,
            fold_marker_highlight: self.fmt.fold_marker_highlight,
        }
    }

    /// What is left of an inline annotation that was begun.
    spec fn begun_note(self) -> Seq<Item> {
        match self.inline {
            Some((texts, highlight)) => virtual_items(texts, highlight),
            None => Seq::empty(),
        }
    }

    /// What is left of the inline annotations of char `p`.
    spec fn notes_left(self, p: int) -> Seq<Item> {
        self.begun_note() + notes(self.annotations.inline, self.annotations.next_inline, p)
    }

    /// What is to be read, where the document has been read up to char `p`.
    pub closed spec fn to_read(self, p: int) -> Seq<Item> {
        let drawing = self.drawing();
        match self.eol_anchor {
            Some(anchor) => self.notes_left(anchor as int) + if self.exhausted {
                Seq::empty()
            } else {
                drawing.stream(self.doc, p)
            },
            None => if self.exhausted {
                Seq::empty()
            } else {
                match self.marker {
                    Some(marker) => marker_items(
                        marker.graphemes,
                        marker.highlight,
                        marker.codepoints,
                        marker.lines,
                    ) + drawing.stream(self.doc, p + marker.codepoints),
                    None => if drawing.folded(p) || drawing.line_ends(p) {
                        drawing.stream(self.doc, p)
                    } else {
                        self.notes_left(p) + drawing.behind_notes(self.doc, p)
                    },
                }
            },
        }
    }

    /// Whether inline annotations before `next_inline` are at char `p` or before it.
    spec fn notes_passed(self, p: int) -> bool {
        forall|i: int|
            0 <= i < self.annotations.next_inline && i < self.annotations.inline.len() ==> (
            #[trigger] self.annotations.inline[i]).char_idx <= p
    }

    /// Whether the places that the annotations have got to fit a document that has been read up
    /// to char `p`.
    pub closed spec fn in_tune(self, p: int) -> bool {
        &&& self.drawing().sorted()
        &&& self.annotations.next_inline >= 0
        &&& self.annotations.next_overlay >= 0
        &&& forall|i: int|
            0 <= i < self.annotations.next_overlay && i < self.annotations.overlays.len() ==> (
            #[trigger] self.annotations.overlays[i]).char_idx < p + self.behind_marker()
        &&& self.marker is Some ==> self.marker->0.codepoints > 0 && !self.exhausted
        &&& match self.eol_anchor {
            Some(anchor) => {
                &&& self.notes_passed(anchor as int)
                &&& self.marker is None
                &&& if self.exhausted {
                    anchor == p
                } else {
                    anchor < p
                }
            },
            None => if self.exhausted {
                self.notes_passed(p) && self.notes_left(p).len() == 0
            } else if self.marker is Some || self.drawing().folded(p) || self.drawing().line_ends(
                p,
            ) {
                self.notes_passed(p - 1) && self.begun_note().len() == 0
            } else {
                self.notes_passed(p)
            },
        }
    }
}

/// What is left of graphemes, as a number of them.
pub proof fn lemma_skip_to(graphemes: Seq<Seq<char>>, p: int, end: int)
    ensures
        ({
            let n = graphemes_within(graphemes, end - p) as int;
            &&& 0 <= n <= graphemes.len()
            &&& skip_to(graphemes, p, end) == (
                graphemes.skip(n),
                p + graphemes.take(n).flatten().len(),
            )
        }),
    decreases graphemes.len(),
{
    let n = graphemes_within(graphemes, end - p) as int;
    lemma_graphemes_within(graphemes, end - p);
    if graphemes.len() == 0 || p >= end {
        assert(graphemes.skip(0) =~= graphemes);
        assert(graphemes.take(0) =~= Seq::<Seq<char>>::empty());
    } else {
        let rest = graphemes.drop_first();
        lemma_skip_to(rest, p + graphemes[0].len(), end);
        assert(rest.skip(n - 1) =~= graphemes.skip(n));
        assert(graphemes.take(n).drop_first() =~= rest.take(n - 1));
        assert(graphemes.take(n).first() == graphemes[0]);
    }
}

/// The law of overlays. What is drawn for a grapheme is the last overlay of its first char, or
/// the grapheme itself if that char has none.
pub proof fn law_last_overlay_is_drawn(overlays: Seq<OverlayView>, p: int, own: Seq<char>, k: int)
    ensures
        0 <= k < overlays.len() && overlays[k].char_idx == p && (forall|m: int|
            k < m < overlays.len() ==> (#[trigger] overlays[m]).char_idx != p) ==> overlaid_text(
            overlays,
            p,
            own,
        ) == overlays[k].grapheme,
        (forall|m: int| 0 <= m < overlays.len() ==> (#[trigger] overlays[m]).char_idx != p)
            ==> overlaid_text(overlays, p, own) == own,
    decreases overlays.len(),
{
    if overlays.len() > 0 {
        let init = overlays.drop_last();
        law_last_overlay_is_drawn(init, p, own, k);
        assert(overlays[overlays.len() - 1] == overlays.last());
        assert forall|m: int| 0 <= m < init.len() implies #[trigger] init[m] == overlays[m] by {}
    }
}

/// Where a search along positions ends.
pub proof fn lemma_seek_finds(positions: Seq<usize>, from: int, p: int)
    requires
        0 <= from,
    ensures
        ({
            let i = seek(positions, from, p);
            &&& from <= i
            &&& forall|k: int| from <= k < i && k < positions.len() ==> #[trigger] positions[k] < p
            &&& i < positions.len() ==> positions[i] >= p
        }),
    decreases positions.len() - from,
{
    if from < positions.len() && positions[from] < p {
        lemma_seek_finds(positions, from + 1, p);
    }
}

/// Where a run of equal positions ends.
pub proof fn lemma_run_end_finds(positions: Seq<usize>, from: int, p: int)
    requires
        0 <= from,
    ensures
        ({
            let j = run_end(positions, from, p);
            &&& from <= j
            &&& from < j ==> j <= positions.len()
            &&& forall|k: int| from <= k < j ==> #[trigger] positions[k] == p
            &&& j < positions.len() ==> positions[j] != p
        }),
    decreases positions.len() - from,
{
    if from < positions.len() && positions[from] == p {
        lemma_run_end_finds(positions, from + 1, p);
    }
}

/// The overlay that is found is the last one.
pub proof fn lemma_overlay_found<L: LineAnnotation>(
    annotations: AnnotationsView<L>,
    p: usize,
    own: Seq<char>,
)
    requires
        annotations.next_overlay >= 0,
        forall|i: int, j: int|
            0 <= i <= j < annotations.overlays.len() ==> (
            #[trigger] annotations.overlays[i]).char_idx <= (
            #[trigger] annotations.overlays[j]).char_idx,
        forall|i: int|
            0 <= i < annotations.next_overlay && i < annotations.overlays.len() ==> (
            #[trigger] annotations.overlays[i]).char_idx < p,
    ensures
        ({
            let (after, overlay) = annotations.take_overlay(p);
            &&& overlaid_text(annotations.overlays, p as int, own) == match overlay {
                Some(overlay) => overlay.grapheme,
                None => own,
            }
            &&& after.next_overlay >= 0
            &&& forall|i: int|
                0 <= i < after.next_overlay && i < annotations.overlays.len() ==> (
                #[trigger] annotations.overlays[i]).char_idx <= p
        }),
{
    let overlays = annotations.overlays;
    let positions = annotations.overlay_positions();
    let i = seek(positions, annotations.next_overlay, p as int);
    let j = run_end(positions, i, p as int);
    lemma_seek_finds(positions, annotations.next_overlay, p as int);
    lemma_run_end_finds(positions, i, p as int);
    assert forall|m: int| 0 <= m < overlays.len() implies #[trigger] positions[m]
        == overlays[m].char_idx by {}
    assert forall|m: int| 0 <= m < i && m < overlays.len() implies (
    #[trigger] overlays[m]).char_idx < p by {
        assert(positions[m] == overlays[m].char_idx);
    }
    assert forall|m: int| i <= m < j implies m < overlays.len() && (
    #[trigger] overlays[m]).char_idx == p by {
        assert(positions[m] == overlays[m].char_idx);
    }
    assert forall|m: int| j <= m < overlays.len() implies (#[trigger] overlays[m]).char_idx
        > p by {
        assert(overlays[j].char_idx <= overlays[m].char_idx);
        assert(positions[j] == overlays[j].char_idx);
        if j == i {
            assert(positions[i] == overlays[i].char_idx);
        } else {
            assert(overlays[j - 1].char_idx <= overlays[j].char_idx);
        }
    }
    law_last_overlay_is_drawn(overlays, p as int, own, j - 1);
}

/// Annotations of other chars add nothing.
proof fn lemma_no_notes(inline: Seq<InlineView>, from: int, to: int, p: int)
    requires
        0 <= from <= to <= inline.len(),
        forall|i: int| from <= i < to ==> (#[trigger] inline[i]).char_idx != p,
    ensures
        notes(inline, from, p) == notes(inline, to, p),
    decreases to - from,
{
    if from < to {
        lemma_no_notes(inline, from + 1, to, p);
    }
}

/// The annotations that are handed out are those of the char.
proof fn lemma_note_taken<L: LineAnnotation>(s: FormatterView<L>, p: usize)
    requires
        s.drawing().sorted(),
        s.annotations.next_inline >= 0,
        s.notes_passed(p as int),
    ensures
        ({
            let (after, found) = s.annotations.take_inline(p);
            let inline = s.annotations.inline;
            let t = FormatterView { annotations: after, ..s };
            &&& after.next_inline >= 0
            &&& t.notes_passed(p as int)
            &&& notes(inline, s.annotations.next_inline, p as int) == match found {
                Some(note) => virtual_items(grapheme_clusters(note.text), note.highlight) + notes(
                    inline,
                    after.next_inline,
                    p as int,
                ),
                None => Seq::empty(),
            }
            &&& found is None ==> notes(inline, after.next_inline, p as int) == Seq::<Item>::empty()
        }),
{
    let inline = s.annotations.inline;
    let positions = s.annotations.inline_positions();
    let from = s.annotations.next_inline;
    let i = seek(positions, from, p as int);
    lemma_seek_finds(positions, from, p as int);
    lemma_seek(positions, from, p as int);
    assert forall|m: int| 0 <= m < inline.len() implies #[trigger] positions[m]
        == inline[m].char_idx by {}
    if from <= inline.len() {
        assert forall|m: int| from <= m < i implies (#[trigger] inline[m]).char_idx < p by {
            assert(positions[m] == inline[m].char_idx);
        }
        lemma_no_notes(inline, from, i, p as int);
        if i < inline.len() && inline[i].char_idx != p {
            assert forall|m: int| i <= m < inline.len() implies (#[trigger] inline[m]).char_idx
                > p by {
                assert(inline[i].char_idx <= inline[m].char_idx);
                assert(positions[i] == inline[i].char_idx);
            }
            lemma_no_notes(inline, i, inline.len() as int, p as int);
        }
    }
}

/// The grapheme that is handed out is the first of those that are left of the annotations.
proof fn lemma_inline_taken<L: LineAnnotation>(s: FormatterView<L>, p: usize)
    requires
        s.drawing().sorted(),
        s.annotations.next_inline >= 0,
        s.notes_passed(p as int),
    ensures
        ({
            let (after, found) = s.take_inline(p);
            &&& after.annotations.next_inline >= 0
            &&& after.notes_passed(p as int)
            &&& s.notes_left(p as int) == match found {
                Some((g, highlight)) => seq![
                    Item { source: GraphemeSource::VirtualText { highlight }, look: shape(g) },
                ] + after.notes_left(p as int),
                None => Seq::empty(),
            }
            &&& found is None ==> after.notes_left(p as int).len() == 0
        }),
    decreases s.annotations.inline.len() - s.annotations.next_inline,
{
    if s.inline is Some && (s.inline->0).0.len() > 0 {
        let (texts, highlight) = s.inline->0;
        let after = s.take_inline(p).0;
        assert(s.begun_note() =~= seq![
            Item { source: GraphemeSource::VirtualText { highlight }, look: shape(texts[0]) },
        ] + after.begun_note());
        assert(s.notes_left(p as int) =~= seq![
            Item { source: GraphemeSource::VirtualText { highlight }, look: shape(texts[0]) },
        ] + after.notes_left(p as int));
    } else {
        let (annotations, found) = s.annotations.take_inline(p);
        lemma_note_taken(s, p);
        assert(s.begun_note() =~= Seq::<Item>::empty());
        match found {
            Some(note) => {
                lemma_seek(
                    s.annotations.inline_positions(),
                    s.annotations.next_inline,
                    p as int,
                );
                let t = FormatterView {
                    annotations,
                    inline: Some((grapheme_clusters(note.text), note.highlight)),
                    ..s
                };
                lemma_inline_taken(t, p);
                assert(s.notes_left(p as int) =~= t.notes_left(p as int));
            },
            None => {
                let t = FormatterView { annotations, ..s };
                assert(s.notes_left(p as int) =~= Seq::<Item>::empty());
                assert(t.notes_left(p as int) =~= Seq::<Item>::empty());
            },
        }
    }
}

/// Where no annotation of char `p` was begun, the whole stream is to come.
proof fn lemma_fresh<L: LineAnnotation>(s: FormatterView<L>, p: int)
    requires
        s.annotations.next_inline >= 0,
        s.begun_note().len() == 0,
        s.notes_passed(p - 1),
        s.eol_anchor is None,
        s.marker is None,
        !s.exhausted,
    ensures
        s.notes_left(p) == notes(s.annotations.inline, 0, p),
        s.to_read(p) == s.drawing().stream(s.doc, p) || s.drawing().folded(p) && s.doc.len() == 0,
{
    let inline = s.annotations.inline;
    let next = s.annotations.next_inline;
    assert(s.begun_note() =~= Seq::<Item>::empty());
    lemma_no_notes(
        inline,
        0,
        if next <= inline.len() {
            next
        } else {
            inline.len() as int
        },
        p,
    );
    assert(s.notes_left(p) =~= notes(inline, 0, p));
}

/// What is left of a text is empty where no grapheme is left.
proof fn lemma_text_left<L: LineAnnotation>(s: FormatterView<L>, cells: Seq<CellView>)
    requires
        s.tracks(cells),
    ensures
        s.doc.len() == 0 <==> s.char_pos + total_covered(cells) + s.behind_marker()
            == s.text.len(),
{
    let q = s.char_pos + total_covered(cells) + s.behind_marker();
    if s.doc.len() == 0 {
        assert(s.doc =~= Seq::<Seq<char>>::empty());
        assert(s.doc.flatten().len() == 0);
    } else {
        assert(s.doc[0].len() > 0);
        assert(s.doc.flatten() == s.doc.first() + s.doc.drop_first().flatten());
    }
    assert(s.text.skip(q).len() == s.text.len() - q);
}

/// A fold starts inside what is left of the text.
proof fn lemma_document_left<L: LineAnnotation>(s: FormatterView<L>, cells: Seq<CellView>)
    requires
        s.tracks(cells),
        s.marker is None,
        s.doc.len() > 0,
        s.drawing().sorted(),
    ensures
        s.drawing().folded(s.char_pos + total_covered(cells) + s.doc[0].len())
            ==> s.doc.drop_first().len() > 0,
{
    let p = s.char_pos + total_covered(cells);
    if s.doc.drop_first().len() == 0 {
        assert(s.doc.drop_first() =~= Seq::<Seq<char>>::empty());
        assert(s.doc.drop_first().flatten().len() == 0);
        assert(s.doc.flatten() == s.doc.first() + s.doc.drop_first().flatten());
        assert(s.text.skip(p).len() == s.text.len() - p);
    }
}

/// What one more cell does to what is to be read.
pub open spec fn reads_on<L: LineAnnotation>(
    s: FormatterView<L>,
    p: int,
    after: FormatterView<L>,
    cell: Option<CellView>,
) -> bool {
    &&& after.drawing() == s.drawing()
    &&& match cell {
        Some(cell) => {
            let q = p + cell.source.covered();
            &&& after.in_tune(q)
            &&& s.to_read(p) == seq![item(cell)] + after.to_read(q)
        },
        None => {
            &&& after.in_tune(p)
            &&& s.to_read(p).len() == 0
            &&& after.to_read(p).len() == 0
        },
    }
}

/// The next grapheme of a fold marker is the first of those that are to be read.
proof fn lemma_marker_streams<L: LineAnnotation>(
    s: FormatterView<L>,
    cells: Seq<CellView>,
    col: int,
)
    requires
        s.tracks(cells),
        s.in_tune(s.char_pos + total_covered(cells)),
        s.marker is Some,
    ensures
        reads_on(
            s,
            s.char_pos + total_covered(cells),
            s.take_marker(col).0,
            s.take_marker(col).1,
        ),
{
    let p = s.char_pos + total_covered(cells);
    let marker = s.marker->0;
    let (after, cell) = s.take_marker(col);
    let q = p + cell->0.source.covered();
    let all = marker_items(marker.graphemes, marker.highlight, marker.codepoints, marker.lines);
    let drawing = s.drawing();
    let rest = drawing.stream(s.doc, p + marker.codepoints);
    lemma_text_left(s, cells);
    if marker.graphemes.len() == 1 {
        assert(all =~= seq![item(cell->0)]);
        lemma_fresh(after, q);
        assert(after.in_tune(q));
        assert(after.to_read(q) == rest);
    } else {
        let left = marker_items(
            marker.graphemes.drop_first(),
            marker.highlight,
            marker.codepoints,
            marker.lines,
        );
        assert(all =~= seq![item(cell->0)] + left);
        assert(all + rest =~= seq![item(cell->0)] + (left + rest));
        assert(after.to_read(q) == left + rest);
    }
}

/// Two folds in order that start at the same char are the same.
proof fn lemma_fold_found(drawing: Drawing, fold: Fold, p: int)
    requires
        drawing.sorted(),
        fold_starting(drawing.folds, 0, p) == Some(fold),
    ensures
        drawing.folded(p),
        drawing.fold_end(p) == fold.end_char,
        p == fold.start_char,
        p < fold.end_char,
        p < drawing.text.len(),
{
    let folds = drawing.folds;
    lemma_fold_starting(folds, 0, p);
    let i = choose|i: int| 0 <= i < folds.len() && #[trigger] folds[i] == fold;
    assert(folds[i].start_char == p);
    let j = choose|j: int| 0 <= j < folds.len() && (#[trigger] folds[j]).start_char == p;
    assert(folds[j].start_char == p);
    assert(i == j);
}

/// A fold that begins is hidden behind its marker.
proof fn lemma_fold_streams<L: LineAnnotation>(
    s: FormatterView<L>,
    cells: Seq<CellView>,
    char_pos: usize,
    fold: Fold,
)
    requires
        s.tracks(cells),
        char_pos == s.char_pos + total_covered(cells),
        s.in_tune(char_pos as int),
        s.eol_anchor is None,
        s.marker is None,
        s.annotations.fold_at_start(char_pos) == Some(fold),
        s.begin_fold(char_pos, fold) is Some,
    ensures
        ({
            let begun = s.begin_fold(char_pos, fold)->0;
            &&& begun.in_tune(char_pos as int)
            &&& begun.to_read(char_pos as int) == s.to_read(char_pos as int)
            &&& begun.drawing() == s.drawing()
        }),
{
    let p = char_pos as int;
    let begun = s.begin_fold(char_pos, fold)->0;
    let drawing = s.drawing();
    let span = fold.end_char - p;
    let n = graphemes_within(s.doc, span) as int;
    let hidden = s.hidden(span);
    lemma_fold_found(drawing, fold, p);
    lemma_text_left(s, cells);
    lemma_fold_tracks(s, cells, char_pos, fold);
    lemma_graphemes_within(s.doc, span);
    lemma_flatten_split(s.doc, n);
    lemma_cut(s.text, p, hidden, s.doc.skip(n).flatten());
    let rest = s.doc.drop_first();
    lemma_skip_to(rest, p + s.doc[0].len(), fold.end_char as int);
    assert(rest.skip(n - 1) =~= s.doc.skip(n));
    assert(s.doc.take(n).drop_first() =~= rest.take(n - 1));
    assert(s.doc.take(n).first() == s.doc[0]);
    assert(s.doc[0].len() > 0);
    let q = p + hidden.len();
    assert(skip_to(rest, p + s.doc[0].len(), fold.end_char as int) == (s.doc.skip(n), q));
}

/// What is at hand where no fold starts.
spec fn in_text<L: LineAnnotation>(
    s: FormatterView<L>,
    cells: Seq<CellView>,
    char_pos: usize,
) -> bool {
    &&& s.tracks(cells)
    &&& char_pos == s.char_pos + total_covered(cells)
    &&& s.in_tune(char_pos as int)
    &&& s.eol_anchor is None
    &&& s.marker is None
    &&& s.annotations.fold_at_start(char_pos) is None
}

/// Whether the annotations of the char come behind it.
spec fn notes_behind<L: LineAnnotation>(s: FormatterView<L>, char_pos: usize) -> bool {
    line_ends_at(s.text, char_pos as int) && s.annotations.take_inline(char_pos).1 is Some
}

/// An annotation before its char is the first of what is to be read.
proof fn lemma_note_streams<L: LineAnnotation>(
    s: FormatterView<L>,
    cells: Seq<CellView>,
    col: int,
    char_pos: usize,
)
    requires
        in_text(s, cells, char_pos),
        !notes_behind(s, char_pos),
        s.take_inline(char_pos).1 is Some,
    ensures
        reads_on(
            s,
            char_pos as int,
            s.advance_in_text(col, char_pos).0,
            s.advance_in_text(col, char_pos).1,
        ),
{
    let p = char_pos as int;
    let (after, cell) = s.advance_in_text(col, char_pos);
    let drawing = s.drawing();
    lemma_fold_starting(s.annotations.folds, 0, p);
    assert(!drawing.folded(p));
    lemma_take_inline_frame(s, char_pos);
    lemma_inline_taken(s, char_pos);
    assert(!s.exhausted);
    if drawing.line_ends(p) {
        lemma_fresh(s, p);
        lemma_note_taken(s, char_pos);
    }
    let behind = drawing.behind_notes(s.doc, p);
    let left = after.notes_left(p);
    assert(s.to_read(p) == s.notes_left(p) + behind);
    assert(after.to_read(p) == left + behind);
    assert((seq![item(cell->0)] + left) + behind =~= seq![item(cell->0)] + (left + behind));
}

/// A grapheme of the document is the first of what is to be read, its annotations before it
/// having been read.
proof fn lemma_own_streams<L: LineAnnotation>(
    s: FormatterView<L>,
    cells: Seq<CellView>,
    col: int,
    char_pos: usize,
)
    requires
        in_text(s, cells, char_pos),
        !notes_behind(s, char_pos),
        s.take_inline(char_pos).1 is None,
        s.doc.len() > 0,
    ensures
        reads_on(
            s,
            char_pos as int,
            s.advance_in_text(col, char_pos).0,
            s.advance_in_text(col, char_pos).1,
        ),
{
    let p = char_pos as int;
    let (after, cell) = s.advance_in_text(col, char_pos);
    let drawing = s.drawing();
    let own = s.doc.first();
    let q = p + own.len();
    lemma_fold_starting(s.annotations.folds, 0, p);
    assert(!drawing.folded(p));
    lemma_text_left(s, cells);
    lemma_take_inline_frame(s, char_pos);
    lemma_inline_taken(s, char_pos);
    let t = s.take_inline(char_pos).0;
    lemma_overlay_found(t.annotations, char_pos, own);
    assert(s.doc[0].len() > 0);
    assert(s.doc[0].len() <= u32::MAX);
    assert(item(cell->0) == drawing.own_item(p, own));
    lemma_document_left(s, cells);
    assert(t.begun_note().len() == 0);
    lemma_fresh(after, q);
    let rest = drawing.stream(s.doc.drop_first(), q);
    assert(after.to_read(q) == rest);
    let none = Seq::<Item>::empty();
    let x = seq![item(cell->0)];
    assert(s.notes_left(p) =~= none);
    if drawing.line_ends(p) {
        lemma_fresh(s, p);
    }
    assert(drawing.behind_notes(s.doc, p) =~= x + rest);
    assert(none + (x + rest) =~= x + rest);
    assert(s.to_read(p) =~= x + rest);
}

/// A grapheme of the document that ends a line is the first of what is to be read, its
/// annotations come behind it.
proof fn lemma_line_end_streams<L: LineAnnotation>(
    s: FormatterView<L>,
    cells: Seq<CellView>,
    col: int,
    char_pos: usize,
)
    requires
        in_text(s, cells, char_pos),
        notes_behind(s, char_pos),
        s.doc.len() > 0,
    ensures
        reads_on(
            s,
            char_pos as int,
            s.advance_in_text(col, char_pos).0,
            s.advance_in_text(col, char_pos).1,
        ),
{
    let p = char_pos as int;
    let (after, cell) = s.advance_in_text(col, char_pos);
    let drawing = s.drawing();
    let own = s.doc.first();
    let q = p + own.len();
    lemma_fold_starting(s.annotations.folds, 0, p);
    assert(!drawing.folded(p));
    lemma_text_left(s, cells);
    lemma_overlay_found(s.annotations, char_pos, own);
    assert(s.doc[0].len() > 0);
    assert(s.doc[0].len() <= u32::MAX);
    assert(item(cell->0) == drawing.own_item(p, own));
    lemma_fresh(s, p);
    let rest = drawing.stream(s.doc.drop_first(), q);
    let behind = notes(s.annotations.inline, 0, p);
    let x = seq![item(cell->0)];
    assert(after.notes_left(p) == s.notes_left(p));
    assert(after.to_read(q) == behind + rest);
    assert(drawing.behind_notes(s.doc, p) == x + behind + rest);
    assert(x + behind + rest =~= x + (behind + rest));
}

/// The blank behind the text is the first of what is to be read.
proof fn lemma_end_streams<L: LineAnnotation>(
    s: FormatterView<L>,
    cells: Seq<CellView>,
    col: int,
    char_pos: usize,
)
    requires
        in_text(s, cells, char_pos),
        notes_behind(s, char_pos) || s.take_inline(char_pos).1 is None,
        s.doc.len() == 0,
    ensures
        reads_on(
            s,
            char_pos as int,
            s.advance_in_text(col, char_pos).0,
            s.advance_in_text(col, char_pos).1,
        ),
{
    let p = char_pos as int;
    let (after, cell) = s.advance_in_text(col, char_pos);
    let drawing = s.drawing();
    lemma_fold_starting(s.annotations.folds, 0, p);
    assert(!drawing.folded(p));
    lemma_text_left(s, cells);
    lemma_take_inline_frame(s, char_pos);
    lemma_note_taken(s, char_pos);
    lemma_inline_taken(s, char_pos);
    if !s.exhausted {
        lemma_fresh(s, p);
        let behind = notes(s.annotations.inline, 0, p);
        let none = Seq::<Item>::empty();
        let x = seq![item(cell->0)];
        assert(p == s.text.len());
        assert(item(cell->0) == drawing.end_item());
        assert(drawing.stream(s.doc, p) == drawing.behind_notes(s.doc, p));
        assert(s.to_read(p) == x + behind);
        if notes_behind(s, char_pos) {
            assert(after.notes_left(p) == s.notes_left(p));
            assert(after.to_read(p) =~= behind);
        } else {
            assert(behind =~= none);
            assert(after.to_read(p) =~= none);
        }
    } else {
        assert(s.to_read(p).len() == 0);
        if notes_behind(s, char_pos) {
            assert(after.notes_left(p) == s.notes_left(p));
        }
        assert(after.to_read(p).len() == 0);
    }
}

/// The next cell of the text and its annotations is the first of those that are to be read.
proof fn lemma_text_streams<L: LineAnnotation>(
    s: FormatterView<L>,
    cells: Seq<CellView>,
    col: int,
    char_pos: usize,
)
    requires
        in_text(s, cells, char_pos),
    ensures
        reads_on(
            s,
            char_pos as int,
            s.advance_in_text(col, char_pos).0,
            s.advance_in_text(col, char_pos).1,
        ),
{
    if !notes_behind(s, char_pos) && s.take_inline(char_pos).1 is Some {
        lemma_note_streams(s, cells, col, char_pos);
    } else if s.doc.len() == 0 {
        lemma_end_streams(s, cells, col, char_pos);
    } else if notes_behind(s, char_pos) {
        lemma_line_end_streams(s, cells, col, char_pos);
    } else {
        lemma_own_streams(s, cells, col, char_pos);
    }
}

/// The next cell is the first of those that are to be read.
pub proof fn lemma_advance_streams<L: LineAnnotation>(
    s: FormatterView<L>,
    cells: Seq<CellView>,
    col: int,
    char_pos: usize,
)
    requires
        s.tracks(cells),
        char_pos == s.char_pos + total_covered(cells),
        s.in_tune(char_pos as int),
        s.advance(col, char_pos) is Some,
    ensures
        reads_on(
            s,
            char_pos as int,
            (s.advance(col, char_pos)->0).0,
            (s.advance(col, char_pos)->0).1,
        ),
{
    let p = char_pos as int;
    let (after, cell) = s.advance(col, char_pos)->0;
    lemma_text_left(s, cells);
    let t = match s.eol_anchor {
        Some(anchor) => {
            lemma_take_inline_frame(s, anchor);
            lemma_inline_taken(s, anchor);
            FormatterView { eol_anchor: None, ..s.take_inline(anchor).0 }
        },
        None => s,
    };
    if s.eol_anchor is Some && s.take_inline(s.eol_anchor->0).1 is Some {
        assert(s.to_read(p) =~= seq![item(cell->0)] + after.to_read(p));
    } else {
        if s.eol_anchor is Some {
            if !s.exhausted {
                lemma_fresh(t, p);
            }
            assert(t.to_read(p) =~= s.to_read(p));
            assert(t.in_tune(p));
        }
        assert(t.tracks(cells));
        if t.marker is Some {
            lemma_marker_streams(t, cells, col);
        } else {
            match t.annotations.fold_at_start(char_pos) {
                Some(fold) => {
                    let begun = t.begin_fold(char_pos, fold)->0;
                    lemma_fold_tracks(t, cells, char_pos, fold);
                    lemma_fold_streams(t, cells, char_pos, fold);
                    lemma_marker_streams(begun, cells, col);
                },
                None => lemma_text_streams(t, cells, col, char_pos),
            }
        }
    }
}

/// What is to be read does not depend on what has been read, or on the screen.
pub proof fn lemma_same_stream<L: LineAnnotation>(s: FormatterView<L>, t: FormatterView<L>, p: int)
    requires
        t == (FormatterView {
            annotations: AnnotationsView { lines: t.annotations.lines, ..s.annotations },
            visual_pos: t.visual_pos,
            char_pos: t.char_pos,
            line_pos: t.line_pos,
            pending_eol: t.pending_eol,
            indent_level: t.indent_level,
            peeked: t.peeked,
            word_buf: t.word_buf,
            word_i: t.word_i,
            overflowed: t.overflowed,
            ..s
        }),
    ensures
        t.to_read(p) == s.to_read(p),
        t.in_tune(p) == s.in_tune(p),
        t.drawing() == s.drawing(),
{
    assert(t.notes_left(p) == s.notes_left(p));
    assert(s.eol_anchor is Some ==> t.notes_left(s.eol_anchor->0 as int) == s.notes_left(
        s.eol_anchor->0 as int,
    ));
    assert(t.in_tune(p) == s.in_tune(p));
}

/// At the start of a block the whole stream is to be read.
pub proof fn lemma_block_streams<L: LineAnnotation>(
    text: Seq<char>,
    fmt: TextFormat,
    annotations: AnnotationsView<L>,
    start: usize,
    doc: Seq<Seq<char>>,
    wrap_indicator: Seq<Seq<char>>,
    fold_marker: Seq<Seq<char>>,
)
    requires
        start <= text.len(),
        doc.flatten() == text.skip(start as int),
        FormatterView::at_block(text, fmt, annotations, start, doc, wrap_indicator, fold_marker)
            .drawing().sorted(),
    ensures
        ({
            let s = FormatterView::at_block(
                text,
                fmt,
                annotations,
                start,
                doc,
                wrap_indicator,
                fold_marker,
            );
            &&& s.in_tune(start as int)
            &&& s.to_read(start as int) == s.drawing().stream(doc, start as int)
        }),
{
    let s = FormatterView::at_block(
        text,
        fmt,
        annotations,
        start,
        doc,
        wrap_indicator,
        fold_marker,
    );
    let inline = annotations.inline_positions();
    let overlays = annotations.overlay_positions();
    lemma_seek_finds(inline, 0, start as int);
    lemma_seek_finds(overlays, 0, start as int);
    assert forall|i: int|
        0 <= i < s.annotations.next_inline && i < annotations.inline.len() implies (
    #[trigger] s.annotations.inline[i]).char_idx < start by {
        assert(inline[i] == annotations.inline[i].char_idx);
    }
    assert forall|i: int|
        0 <= i < s.annotations.next_overlay && i < annotations.overlays.len() implies (
    #[trigger] s.annotations.overlays[i]).char_idx < start by {
        assert(overlays[i] == annotations.overlays[i].char_idx);
    }
    lemma_fresh(s, start as int);
    if doc.len() == 0 {
        assert(doc =~= Seq::<Seq<char>>::empty());
        assert(doc.flatten().len() == 0);
        assert(text.skip(start as int).len() == text.len() - start);
    }
}

} // verus!
