//! The line numbers of the layout.

use crate::graphemes::GraphemeView;
use crate::layout::FormatterView;
use crate::reading::{law_step_reads_the_document, lemma_fetch_tracks, spells};
use crate::rope::{lemma_newlines_monotone, newlines};
use crate::text_annotations::{AnnotationsView, LineAnnotation};
use crate::text_format::TextFormat;
use crate::unicode::is_line_ending;
use vstd::prelude::*;

verus! {

impl<L: LineAnnotation> FormatterView<L> {
    /// Whether the line of the state is the one that its char is on. Behind an annotated line
    /// end the line is still the one that ends there.
    pub open spec fn on_its_line(self) -> bool {
        newlines(self.text.take(self.char_pos as int)) == self.line_pos + if self.pending_eol {
            1int
        } else {
            0int
        }
    }
}

/// There are no more line feeds than chars.
pub proof fn lemma_newlines_bounded(chars: Seq<char>)
    ensures
        newlines(chars) <= chars.len(),
    decreases chars.len(),
{
    if chars.len() > 0 {
        lemma_newlines_bounded(chars.drop_last());
    }
}

/// Chars without a line feed.
proof fn lemma_no_newlines(chars: Seq<char>)
    requires
        !chars.contains('\n'),
    ensures
        newlines(chars) == 0,
    decreases chars.len(),
{
    if chars.len() > 0 {
        let init = chars.drop_last();
        assert forall|i: int| 0 <= i < init.len() implies init[i] != '\n' by {
            assert(chars[i] == init[i]);
        }
        assert(chars[chars.len() - 1] != '\n');
        lemma_no_newlines(init);
    }
}

/// How many line feeds a piece of the text holds, by what is drawn for it.
proof fn lemma_lines_of_piece(grapheme: GraphemeView, piece: Seq<char>)
    requires
        spells(grapheme, piece),
        piece.contains('\n') ==> is_line_ending(piece),
    ensures
        newlines(piece) == if grapheme is Newline {
            1nat
        } else {
            0nat
        },
{
    reveal_with_fuel(newlines, 3);
    if grapheme is Newline {
        if piece == seq!['\n'] {
            assert(piece.drop_last() =~= Seq::<char>::empty());
        } else {
            assert(piece.drop_last() =~= seq!['\r']);
            assert(piece.drop_last().drop_last() =~= Seq::<char>::empty());
        }
    } else {
        lemma_no_newlines(piece);
    }
}

/// The law of the first line. The state at the start of a block is on its line.
pub proof fn law_block_starts_on_its_line<L: LineAnnotation>(
    text: Seq<char>,
    fmt: TextFormat,
    annotations: AnnotationsView<L>,
    start: usize,
    doc: Seq<Seq<char>>,
    wrap_indicator: Seq<Seq<char>>,
    fold_marker: Seq<Seq<char>>,
)
    requires
        start <= text.len(),
    ensures
        FormatterView::at_block(text, fmt, annotations, start, doc, wrap_indicator, fold_marker)
            .on_its_line(),
{
    lemma_newlines_bounded(text.take(start as int));
}

/// The law of line numbers. A grapheme that stands for chars of the document, or for its end,
/// carries the number of the line that it is on, and the state stays on its line; without
/// overlays, which may draw a line break where there is none, and the other way round. An
/// annotation behind a line end carries the number of the line that ends there. The law leaves
/// out one step: a line break in the text of an annotation, behind a line end that owes no row
/// (such as the end of the text), leaves a row owed though no line of the document ends there.
pub proof fn law_lines_are_counted<L: LineAnnotation>(s: FormatterView<L>)
    requires
        s.in_step(),
        s.page().plain,
        s.on_its_line(),
        s.next() is Some,
        (s.next()->0).1 is Some,
        ({
            let (t, found) = s.next()->0;
            t.pending_eol && !s.pending_eol ==> (found->0).source is Document
        }),
    ensures
        ({
            let (t, found) = s.next()->0;
            let g = found->0;
            let line = newlines(s.text.take(g.char_idx as int));
            &&& t.on_its_line()
            &&& g.source is VirtualText && s.pending_eol && t.pending_eol ==> g.line_idx + 1
                == line
            &&& !(g.source is VirtualText && s.pending_eol && t.pending_eol) ==> g.line_idx == line
        }),
{
    law_step_reads_the_document(s);
    lemma_fetch_tracks(s);
    let (fetched, cell) = s.fetch()->0;
    assert((seq![cell->0] + fetched.waiting())[0] == cell->0);
    let (t, found) = s.next()->0;
    let g = found->0;
    let p = s.char_pos as int;
    let end = t.char_pos as int;
    lemma_newlines_monotone(s.text, p, end);
    let piece = s.text.subrange(p, end);
    if g.source is Document && !g.source.at_end_of_text() {
        lemma_lines_of_piece(g.raw, piece);
    } else if !(g.source is Fold) {
        assert(piece =~= Seq::<char>::empty());
    }
}

} // verus!
