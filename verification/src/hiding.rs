//! Hidden text stays hidden, and the layout starts outside of it.

use crate::fold::{in_order, Fold};
use crate::layout::{checkpoint, header, lemma_line_start, line_start, FormatterView};
use crate::reading::law_step_reads_the_document;
use crate::rope::{is_line_start, newlines};
use crate::text_annotations::{
    fold_over, fold_starting, lemma_fold_over, lemma_fold_starting, LineAnnotation,
};
use vstd::prelude::*;

verus! {

/// Whether no fold starts before char `p` of a text of `len` chars and ends behind it.
pub open spec fn outside(folds: Seq<Fold>, len: int, p: int) -> bool {
    p >= len || forall|i: int|
        0 <= i < folds.len() ==> !(#[trigger] folds[i]).reaches_over(p)
}

/// The law of hiding. Where no fold reaches over the place of the layout, none does after a
/// step, and a char of the document that the step draws is not hidden by any fold. The folds
/// are in order, and none of them starts in the middle of what the step draws or hides: a
/// fold is found by the grapheme that it starts with.
pub proof fn law_hidden_chars_are_not_drawn<L: LineAnnotation>(s: FormatterView<L>)
    requires
        s.in_step(),
        in_order(s.annotations.folds),
        outside(s.annotations.folds, s.text.len() as int, s.char_pos as int),
        s.next() is Some,
        (s.next()->0).1 is Some,
        ({
            let g = (s.next()->0).1->0;
            let folds = s.annotations.folds;
            forall|i: int|
                0 <= i < folds.len() ==> !(g.char_idx < (#[trigger] folds[i]).start_char
                    < g.char_idx + g.source.covered())
        }),
    ensures
        ({
            let (t, found) = s.next()->0;
            let g = found->0;
            let folds = s.annotations.folds;
            &&& outside(folds, s.text.len() as int, t.char_pos as int)
            &&& g.source is Document && !g.source.at_end_of_text() ==> forall|i: int|
                0 <= i < folds.len() ==> !(#[trigger] folds[i]).hides(g.char_idx as int)
            &&& g.source is Fold ==> exists|i: int|
                0 <= i < folds.len() && (#[trigger] folds[i]).start_char == g.char_idx
                    && (t.char_pos >= folds[i].end_char || t.char_pos == s.text.len())
        }),
{
    law_step_reads_the_document(s);
    let (t, found) = s.next()->0;
    let g = found->0;
    let folds = s.annotations.folds;
    let p = s.char_pos as int;
    lemma_fold_starting(folds, 0, p);
    if g.source is Fold {
        let k = choose|i: int|
            0 <= i < folds.len() && #[trigger] folds[i] == fold_starting(folds, 0, p)->0
                && folds[i].start_char == p;
        assert(folds[k].start_char == g.char_idx);
        if t.char_pos < s.text.len() {
            assert forall|i: int| 0 <= i < folds.len() implies !(
            #[trigger] folds[i]).reaches_over(t.char_pos as int) by {
                if i < k {
                    assert(folds[i].end_char <= folds[k].start_char);
                } else if k < i {
                    assert(folds[k].end_char <= folds[i].start_char);
                    assert(!folds[k].void());
                }
            }
        }
    }
}

/// A header is the start of a line, at the block or above, that no fold reaches over.
proof fn lemma_header(text: Seq<char>, folds: Seq<Fold>, block: int)
    requires
        0 <= block <= text.len(),
        is_line_start(text, newlines(text.take(block)) as int, block),
    ensures
        ({
            let start = header(text, folds, block);
            &&& 0 <= start <= block
            &&& is_line_start(text, newlines(text.take(start)) as int, start)
            &&& forall|i: int| 0 <= i < folds.len() ==> !(#[trigger] folds[i]).reaches_over(start)
        }),
    decreases block,
{
    lemma_fold_over(folds, 0, block);
    match fold_over(folds, 0, block) {
        Some(fold) => {
            lemma_line_start(text, fold.start_char as int);
            lemma_header(text, folds, line_start(text, fold.start_char as int));
        },
        None => {},
    }
}

/// The law of the checkpoint. The layout that is to reach `char_idx` starts at the start of a
/// line, at that char or before it.
pub proof fn law_checkpoint_is_a_line_start(text: Seq<char>, folds: Seq<Fold>, char_idx: int)
    requires
        0 <= char_idx,
    ensures
        ({
            let start = checkpoint(text, folds, char_idx);
            &&& 0 <= start <= char_idx
            &&& is_line_start(text, newlines(text.take(start)) as int, start)
        }),
{
    let target = if char_idx <= text.len() {
        char_idx
    } else {
        text.len() as int
    };
    lemma_line_start(text, target);
    lemma_header(text, folds, line_start(text, target));
}

/// The law of the header. The layout does not start inside of a fold.
pub proof fn law_checkpoint_is_outside_of_folds(text: Seq<char>, folds: Seq<Fold>, char_idx: int)
    requires
        0 <= char_idx,
    ensures
        outside(folds, text.len() as int, checkpoint(text, folds, char_idx)),
        forall|i: int|
            0 <= i < folds.len() ==> !(#[trigger] folds[i]).reaches_over(
                checkpoint(text, folds, char_idx),
            ),
{
    let target = if char_idx <= text.len() {
        char_idx
    } else {
        text.len() as int
    };
    lemma_line_start(text, target);
    lemma_header(text, folds, line_start(text, target));
}

/// The start of a line has no line feed behind it on that line.
proof fn lemma_line_has_one_start(text: Seq<char>, pos: int)
    requires
        0 <= pos <= text.len(),
    ensures
        ({
            let block = line_start(text, pos);
            &&& 0 <= block <= pos
            &&& block > 0 ==> text[block - 1] == '\n'
            &&& forall|k: int| block <= k < pos ==> #[trigger] text[k] != '\n'
        }),
    decreases pos,
{
    if pos > 0 && text[pos - 1] != '\n' {
        lemma_line_has_one_start(text, pos - 1);
    }
}

/// The first of the folds that reach over a char.
proof fn lemma_first_over(folds: Seq<Fold>, from: int, p: int, i: int)
    requires
        0 <= from <= i < folds.len(),
        folds[i].start_char < p < folds[i].end_char,
        forall|j: int|
            from <= j < i ==> !((#[trigger] folds[j]).start_char < p < folds[j].end_char),
    ensures
        fold_over(folds, from, p) == Some(folds[i]),
    decreases i - from,
{
    if from < i {
        lemma_first_over(folds, from + 1, p, i);
    }
}

/// The law of the way to the checkpoint. Let `block` be the start of the line that the char is
/// on, or that the text ends with if the char is behind its end: no line feed is between it and
/// the char. Where no fold reaches over it, the layout starts right there. Else it starts where
/// it starts for the first char of the fold.
pub proof fn law_way_to_the_checkpoint(
    text: Seq<char>,
    folds: Seq<Fold>,
    char_idx: int,
) -> (block: int)
    requires
        0 <= char_idx,
    ensures
        0 <= block <= char_idx,
        block <= text.len(),
        block > 0 ==> text[block - 1] == '\n',
        forall|k: int| block <= k < char_idx && k < text.len() ==> #[trigger] text[k] != '\n',
        (forall|i: int|
            0 <= i < folds.len() ==> !((#[trigger] folds[i]).start_char < block
                < folds[i].end_char)) ==> checkpoint(text, folds, char_idx) == block,
        forall|i: int|
            0 <= i < folds.len() && (#[trigger] folds[i]).start_char < block < folds[i].end_char
                && (forall|j: int|
                0 <= j < i ==> !((#[trigger] folds[j]).start_char < block < folds[j].end_char))
                ==> checkpoint(text, folds, char_idx) == checkpoint(
                text,
                folds,
                folds[i].start_char as int,
            ),
{
    let target = if char_idx <= text.len() {
        char_idx
    } else {
        text.len() as int
    };
    let block = line_start(text, target);
    lemma_line_has_one_start(text, target);
    lemma_fold_over(folds, 0, block);
    if forall|i: int|
        0 <= i < folds.len() ==> !((#[trigger] folds[i]).start_char < block < folds[i].end_char) {
        if fold_over(folds, 0, block) is Some {
            lemma_fold_over_is_there(folds, 0, block);
        }
    }
    assert forall|i: int|
        0 <= i < folds.len() && (#[trigger] folds[i]).start_char < block < folds[i].end_char && (
        forall|j: int|
            0 <= j < i ==> !((#[trigger] folds[j]).start_char < block
                < folds[j].end_char)) implies checkpoint(text, folds, char_idx) == checkpoint(text, folds, folds[i].start_char as int) by {
        lemma_first_over(folds, 0, block, i);
    }
    block
}

/// A fold that is found to reach over a char is one of the folds.
proof fn lemma_fold_over_is_there(folds: Seq<Fold>, from: int, p: int)
    requires
        0 <= from,
        fold_over(folds, from, p) is Some,
    ensures
        exists|i: int|
            from <= i < folds.len() && (#[trigger] folds[i]).start_char < p < folds[i].end_char,
    decreases folds.len() - from,
{
    if from < folds.len() {
        if folds[from].reaches_over(p) {
            assert(folds[from].start_char < p < folds[from].end_char);
        } else {
            lemma_fold_over_is_there(folds, from + 1, p);
        }
    }
}

} // verus!
