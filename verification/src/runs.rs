//! What a layout gives from its start to its end.

use crate::course::{
    ahead, folds_fit, given, law_finished_run_gives_the_course, lemma_step_goes_its_course, Passage,
};
use crate::fold::{in_order, Fold};
use crate::formatted::{CellView, FormattedView, GraphemeSource};
use crate::hiding::outside;
use crate::highlight::Highlight;
use crate::layout::{
    graphemes_within, lemma_flatten_take_monotone, lemma_flatten_take_step, FormatterView,
};
use crate::numbering::{law_block_starts_on_its_line, law_lines_are_counted};
use crate::reading::{
    folds_counted, law_ascii_texts_are_counted, counted, hidden_from, law_block_starts_in_step,
    law_fold_hides_whole_graphemes, law_step_reads_the_document, lemma_counted_skip,
    lemma_fetch_tracks, lemma_flatten_split,
};
use crate::rope::newlines;
use crate::text_annotations::{
    fold_starting, lemma_fold_starting, lemma_seek, AnnotationsView, LineAnnotation,
};
use crate::text_format::TextFormat;
use crate::unadorned::law_bare_text_is_drawn_to_its_end;
use crate::unicode::{ascii, well_segmented};
use crate::wrapping::{
    law_block_starts_inside, law_short_indicator_leaves_room, law_soft_wrap_stays_inside,
};
use vstd::prelude::*;

verus! {

/// Whether a grapheme starts at char `x`, or the text ends there, where the text goes on with
/// `graphemes` at char `p`.
pub open spec fn cut_at(graphemes: Seq<Seq<char>>, p: int, x: int) -> bool {
    exists|k: int|
        0 <= k <= graphemes.len() && p + (#[trigger] graphemes.take(k)).flatten().len() == x
}

/// Whether the folds start and end between graphemes, or end behind the text.
pub open spec fn folds_cut(graphemes: Seq<Seq<char>>, folds: Seq<Fold>, p: int) -> bool {
    forall|i: int|
        0 <= i < folds.len() ==> {
            &&& (#[trigger] folds[i]).start_char >= p ==> cut_at(
                graphemes,
                p,
                folds[i].start_char as int,
            )
            &&& p <= folds[i].end_char <= p + graphemes.flatten().len() ==> cut_at(
                graphemes,
                p,
                folds[i].end_char as int,
            )
        }
}

/// Whether a fold hides char `x`.
pub open spec fn hidden_at(folds: Seq<Fold>, x: int) -> bool {
    exists|i: int| 0 <= i < folds.len() && (#[trigger] folds[i]).hides(x)
}

/// Whether a passage is the marker of `fold` in a text of `len` chars.
pub open spec fn marks(passage: Passage, fold: Fold, len: int) -> bool {
    &&& passage.source is Fold
    &&& passage.char_idx == fold.start_char
    &&& passage.source.covered() == if fold.end_char <= len {
        fold.end_char - fold.start_char
    } else {
        len - fold.start_char
    }
}

/// Whether exactly one of the passages is the marker of a fold that starts where `fold` does,
/// and it is the marker of `fold`.
pub open spec fn marked_once(passages: Seq<Passage>, fold: Fold, len: int) -> bool {
    exists|i: int|
        {
            &&& 0 <= i < passages.len()
            &&& marks(#[trigger] passages[i], fold, len)
            &&& forall|j: int|
                0 <= j < passages.len() && (#[trigger] passages[j]).source is Fold
                    && passages[j].char_idx == fold.start_char ==> j == i
        }
}

/// The passage of grapheme `k`, where the text goes on with `graphemes` at char `p`.
pub open spec fn own_passage(graphemes: Seq<Seq<char>>, p: int, k: int) -> Passage {
    Passage {
        char_idx: p + graphemes.take(k).flatten().len(),
        source: GraphemeSource::Document { codepoints: graphemes[k].len() as u32 },
    }
}

/// Whether the passages show a document with folds as it should be shown: a char that is given
/// is not hidden, each fold has one marker, and each grapheme that is not hidden is given.
pub open spec fn shows(
    passages: Seq<Passage>,
    graphemes: Seq<Seq<char>>,
    folds: Seq<Fold>,
    p: int,
) -> bool {
    let len = p + graphemes.flatten().len();
    &&& forall|i: int|
        0 <= i < passages.len() && (#[trigger] passages[i]).source is Document
            && !passages[i].source.at_end_of_text() ==> !hidden_at(folds, passages[i].char_idx)
    &&& forall|i: int|
        0 <= i < folds.len() && (#[trigger] folds[i]).start_char >= p ==> marked_once(
            passages,
            folds[i],
            len,
        )
    &&& forall|k: int|
        0 <= k < graphemes.len() && !hidden_at(
            folds,
            (#[trigger] own_passage(graphemes, p, k)).char_idx,
        ) ==> passages.contains(own_passage(graphemes, p, k))
}

/// Taking pieces off the front.
proof fn lemma_take_of_skip(graphemes: Seq<Seq<char>>, n: int, k: int)
    requires
        0 <= n <= k <= graphemes.len(),
    ensures
        graphemes.take(k).flatten().len() == graphemes.take(n).flatten().len() + graphemes.skip(
            n,
        ).take(k - n).flatten().len(),
{
    let front = graphemes.take(k);
    lemma_flatten_split(front, n);
    assert(front.take(n) =~= graphemes.take(n));
    assert(front.skip(n) =~= graphemes.skip(n).take(k - n));
}

/// Where a text is cut, what is left of it is cut.
proof fn lemma_cut_skip(graphemes: Seq<Seq<char>>, n: int, p: int, x: int)
    requires
        0 <= n <= graphemes.len(),
        cut_at(graphemes, p, x),
        x >= p + graphemes.take(n).flatten().len(),
    ensures
        cut_at(graphemes.skip(n), p + graphemes.take(n).flatten().len(), x),
{
    let rest = graphemes.skip(n);
    let q = p + graphemes.take(n).flatten().len();
    let k = choose|k: int|
        0 <= k <= graphemes.len() && p + (#[trigger] graphemes.take(k)).flatten().len() == x;
    if k >= n {
        lemma_take_of_skip(graphemes, n, k);
        assert(q + rest.take(k - n).flatten().len() == x);
    } else {
        lemma_flatten_take_monotone(graphemes, k, n);
        assert(rest.take(0) =~= Seq::<Seq<char>>::empty());
        assert(q + rest.take(0).flatten().len() == x);
    }
}

/// No cut is inside the first grapheme.
proof fn lemma_no_cut_inside(graphemes: Seq<Seq<char>>, p: int, x: int)
    requires
        graphemes.len() > 0,
        cut_at(graphemes, p, x),
        x > p,
    ensures
        x >= p + graphemes[0].len(),
{
    let k = choose|k: int|
        0 <= k <= graphemes.len() && p + (#[trigger] graphemes.take(k)).flatten().len() == x;
    if k == 0 {
        assert(graphemes.take(0) =~= Seq::<Seq<char>>::empty());
    } else {
        lemma_flatten_take_monotone(graphemes, 1, k);
        lemma_one_taken(graphemes);
    }
}

/// The first piece.
proof fn lemma_one_taken(graphemes: Seq<Seq<char>>)
    requires
        graphemes.len() > 0,
    ensures
        graphemes.take(1).flatten() == graphemes[0],
        graphemes.skip(1) == graphemes.drop_first(),
        graphemes.take(0).flatten().len() == 0,
{
    lemma_flatten_take_step(graphemes, 0);
    assert(graphemes.take(0) =~= Seq::<Seq<char>>::empty());
    assert(graphemes.take(1).flatten() =~= graphemes[0]);
    assert(graphemes.skip(1) =~= graphemes.drop_first());
}

/// What holds of a place in a document with folds, from which `ahead` is looked at.
pub open spec fn in_place(graphemes: Seq<Seq<char>>, folds: Seq<Fold>, p: int) -> bool {
    let len = p + graphemes.flatten().len();
    &&& forall|i: int| 0 <= i < graphemes.len() ==> #[trigger] graphemes[i].len() > 0
    &&& counted(graphemes, folds)
    &&& in_order(folds)
    &&& folds_fit(folds, len)
    &&& folds_cut(graphemes, folds, p)
    &&& outside(folds, len, p)
}

/// What is left behind `n` graphemes, if no fold reaches over that place.
proof fn lemma_in_place_behind(graphemes: Seq<Seq<char>>, folds: Seq<Fold>, p: int, n: int)
    requires
        in_place(graphemes, folds, p),
        0 <= n <= graphemes.len(),
        outside(
            folds,
            p + graphemes.flatten().len(),
            p + graphemes.take(n).flatten().len(),
        ),
    ensures
        in_place(graphemes.skip(n), folds, p + graphemes.take(n).flatten().len()),
        graphemes.take(n).flatten().len() + graphemes.skip(n).flatten().len()
            == graphemes.flatten().len(),
{
    let rest = graphemes.skip(n);
    let q = p + graphemes.take(n).flatten().len();
    lemma_flatten_split(graphemes, n);
    lemma_counted_skip(graphemes, folds, n);
    assert forall|i: int| 0 <= i < rest.len() implies #[trigger] rest[i].len() > 0 by {
        assert(graphemes[n + i].len() > 0);
    }
    assert forall|i: int| 0 <= i < folds.len() implies {
        &&& (#[trigger] folds[i]).start_char >= q ==> cut_at(rest, q, folds[i].start_char as int)
        &&& q <= folds[i].end_char <= q + rest.flatten().len() ==> cut_at(
            rest,
            q,
            folds[i].end_char as int,
        )
    } by {
        if folds[i].start_char >= q {
            lemma_cut_skip(graphemes, n, p, folds[i].start_char as int);
        }
        if q <= folds[i].end_char <= q + rest.flatten().len() {
            lemma_cut_skip(graphemes, n, p, folds[i].end_char as int);
        }
    }
}

/// What is ahead begins where the document goes on.
proof fn lemma_ahead_begins(
    graphemes: Seq<Seq<char>>,
    folds: Seq<Fold>,
    p: int,
    highlight: Option<Highlight>,
)
    ensures
        forall|i: int|
            0 <= i < ahead(graphemes, folds, p, highlight).len() ==> (
            #[trigger] ahead(graphemes, folds, p, highlight)[i]).char_idx >= p,
    decreases graphemes.len(),
{
    let all = ahead(graphemes, folds, p, highlight);
    match fold_starting(folds, 0, p) {
        Some(fold) => {
            let n = graphemes_within(graphemes, fold.end_char - p) as int;
            let q = p + graphemes.take(n).flatten().len();
            if 0 < n <= graphemes.len() {
                lemma_ahead_begins(graphemes.skip(n), folds, q, highlight);
                let rest = ahead(graphemes.skip(n), folds, q, highlight);
                assert forall|i: int| 0 <= i < all.len() implies (
                #[trigger] all[i]).char_idx >= p by {
                    if i > 0 {
                        assert(all[i] == rest[i - 1]);
                    }
                }
            }
        },
        None => {
            if graphemes.len() > 0 {
                let q = p + graphemes.first().len();
                lemma_ahead_begins(graphemes.drop_first(), folds, q, highlight);
                let rest = ahead(graphemes.drop_first(), folds, q, highlight);
                assert forall|i: int| 0 <= i < all.len() implies (
                #[trigger] all[i]).char_idx >= p by {
                    if i > 0 {
                        assert(all[i] == rest[i - 1]);
                    }
                }
            }
        },
    }
}

/// A fold that is marked once stays so behind a passage that is no marker at its start.
proof fn lemma_marked_once_behind(
    first: Passage,
    rest: Seq<Passage>,
    fold: Fold,
    len: int,
)
    requires
        marked_once(rest, fold, len),
        !(first.source is Fold && first.char_idx == fold.start_char),
    ensures
        marked_once(seq![first] + rest, fold, len),
{
    let all = seq![first] + rest;
    let i = choose|i: int|
        {
            &&& 0 <= i < rest.len()
            &&& marks(#[trigger] rest[i], fold, len)
            &&& forall|j: int|
                0 <= j < rest.len() && (#[trigger] rest[j]).source is Fold && rest[j].char_idx
                    == fold.start_char ==> j == i
        };
    assert(all[i + 1] == rest[i]);
    assert forall|j: int|
        0 <= j < all.len() && (#[trigger] all[j]).source is Fold && all[j].char_idx
            == fold.start_char implies j == i + 1 by {
        if j > 0 {
            assert(all[j] == rest[j - 1]);
        }
    }
}

/// What was shown is shown behind a passage.
proof fn lemma_shown_behind(first: Passage, rest: Seq<Passage>, passage: Passage)
    requires
        rest.contains(passage),
    ensures
        (seq![first] + rest).contains(passage),
{
    let i = choose|i: int| 0 <= i < rest.len() && rest[i] == passage;
    assert((seq![first] + rest)[i + 1] == passage);
}

/// The passages of the graphemes that are left.
proof fn lemma_own_passage_skip(graphemes: Seq<Seq<char>>, p: int, n: int, k: int)
    requires
        0 <= n <= k < graphemes.len(),
    ensures
        own_passage(graphemes, p, k) == own_passage(
            graphemes.skip(n),
            p + graphemes.take(n).flatten().len(),
            k - n,
        ),
{
    lemma_take_of_skip(graphemes, n, k);
    assert(graphemes.skip(n)[k - n] == graphemes[k]);
}

/// What is ahead shows the document, where a grapheme comes first.
proof fn lemma_grapheme_shows(
    graphemes: Seq<Seq<char>>,
    folds: Seq<Fold>,
    p: int,
    highlight: Option<Highlight>,
)
    requires
        in_place(graphemes, folds, p),
        fold_starting(folds, 0, p) is None,
        graphemes.len() > 0,
        ({
            let q = p + graphemes.first().len();
            shows(
                ahead(graphemes.drop_first(), folds, q, highlight),
                graphemes.drop_first(),
                folds,
                q,
            )
        }),
    ensures
        shows(ahead(graphemes, folds, p, highlight), graphemes, folds, p),
{
    let g = graphemes.first();
    let q = p + g.len();
    let left = graphemes.drop_first();
    let rest = ahead(left, folds, q, highlight);
    let first = Passage {
        char_idx: p,
        source: GraphemeSource::Document { codepoints: g.len() as u32 },
    };
    let all = ahead(graphemes, folds, p, highlight);
    let len = p + graphemes.flatten().len();
    assert(all == seq![first] + rest);
    lemma_one_taken(graphemes);
    lemma_flatten_split(graphemes, 1);
    lemma_fold_starting(folds, 0, p);
    assert(graphemes[0].len() > 0 && graphemes[0].len() <= u32::MAX);
    assert(!hidden_at(folds, p)) by {
        if hidden_at(folds, p) {
            let i = choose|i: int| 0 <= i < folds.len() && (#[trigger] folds[i]).hides(p);
            assert(folds[i].start_char != p);
            assert(folds[i].reaches_over(p));
        }
    }
    assert forall|i: int|
        0 <= i < all.len() && (#[trigger] all[i]).source is Document
            && !all[i].source.at_end_of_text() implies !hidden_at(folds, all[i].char_idx) by {
        if i > 0 {
            assert(all[i] == rest[i - 1]);
        }
    }
    assert forall|i: int|
        0 <= i < folds.len() && (#[trigger] folds[i]).start_char >= p implies marked_once(
        all,
        folds[i],
        len,
    ) by {
        lemma_no_cut_inside(graphemes, p, folds[i].start_char as int);
        lemma_marked_once_behind(first, rest, folds[i], len);
    }
    assert forall|k: int|
        0 <= k < graphemes.len() && !hidden_at(
            folds,
            (#[trigger] own_passage(graphemes, p, k)).char_idx,
        ) implies all.contains(own_passage(graphemes, p, k)) by {
        if k == 0 {
            assert(all[0] == own_passage(graphemes, p, 0));
        } else {
            lemma_own_passage_skip(graphemes, p, 1, k);
            assert(rest.contains(own_passage(left, q, k - 1)));
            lemma_shown_behind(first, rest, own_passage(graphemes, p, k));
        }
    }
}

/// The graphemes that a fold skips end where the fold ends, or the text.
proof fn lemma_fold_ends(graphemes: Seq<Seq<char>>, folds: Seq<Fold>, p: int, f: int)
    requires
        in_place(graphemes, folds, p),
        0 <= f < folds.len(),
        folds[f].start_char == p,
    ensures
        ({
            let n = graphemes_within(graphemes, folds[f].end_char - p) as int;
            let len = p + graphemes.flatten().len();
            let hidden = graphemes.take(n).flatten();
            &&& 0 < n <= graphemes.len()
            &&& p + hidden.len() == if folds[f].end_char <= len {
                folds[f].end_char as int
            } else {
                len
            }
            &&& hidden.len() <= u32::MAX
            &&& outside(folds, len, p + hidden.len())
        }),
{
    let fold = folds[f];
    let span = fold.end_char - p;
    let n = graphemes_within(graphemes, span) as int;
    let len = p + graphemes.flatten().len();
    let q = p + graphemes.take(n).flatten().len();
    assert(!folds[f].void() && folds[f].start_char < len);
    if graphemes.len() == 0 {
        assert(graphemes =~= Seq::<Seq<char>>::empty());
        assert(graphemes.flatten().len() == 0);
    }
    law_fold_hides_whole_graphemes(graphemes, span);
    lemma_flatten_split(graphemes, n);
    assert(n >= 1);
    assert(graphemes.skip(0) =~= graphemes);
    assert(hidden_from(graphemes, 0, folds[f]).len() <= u32::MAX);
    if fold.end_char <= len {
        let x = fold.end_char as int;
        assert(cut_at(graphemes, p, x));
        let k = choose|k: int|
            0 <= k <= graphemes.len() && p + (#[trigger] graphemes.take(k)).flatten().len() == x;
        if k < n {
            lemma_flatten_take_monotone(graphemes, k, n - 1);
        } else {
            lemma_flatten_take_monotone(graphemes, n, k);
        }
        if n == graphemes.len() {
            assert(graphemes.take(n) =~= graphemes);
        }
        assert(q == x);
    } else {
        assert(graphemes.take(graphemes.len() as int) =~= graphemes);
        lemma_flatten_take_monotone(graphemes, n, graphemes.len() as int);
        assert(q == len);
    }
    if q < len {
        assert forall|i: int| 0 <= i < folds.len() implies !(
        #[trigger] folds[i]).reaches_over(q) by {
            if i < f {
                assert(folds[i].end_char <= folds[f].start_char);
            } else if f < i {
                assert(folds[f].end_char <= folds[i].start_char);
            }
        }
    }
}

/// What is ahead shows the document, where a fold starts.
proof fn lemma_fold_shows(
    graphemes: Seq<Seq<char>>,
    folds: Seq<Fold>,
    p: int,
    highlight: Option<Highlight>,
    f: int,
)
    requires
        in_place(graphemes, folds, p),
        0 <= f < folds.len(),
        fold_starting(folds, 0, p) == Some(folds[f]),
        folds[f].start_char == p,
        ({
            let n = graphemes_within(graphemes, folds[f].end_char - p) as int;
            let q = p + graphemes.take(n).flatten().len();
            shows(
                ahead(graphemes.skip(n), folds, q, highlight),
                graphemes.skip(n),
                folds,
                q,
            )
        }),
    ensures
        shows(ahead(graphemes, folds, p, highlight), graphemes, folds, p),
{
    let fold = folds[f];
    let n = graphemes_within(graphemes, fold.end_char - p) as int;
    let hidden = graphemes.take(n).flatten();
    let q = p + hidden.len();
    let len = p + graphemes.flatten().len();
    let left = graphemes.skip(n);
    let rest = ahead(left, folds, q, highlight);
    let all = ahead(graphemes, folds, p, highlight);
    lemma_fold_ends(graphemes, folds, p, f);
    lemma_flatten_split(graphemes, n);
    lemma_ahead_begins(left, folds, q, highlight);
    let first = all[0];
    assert(all =~= seq![first] + rest);
    assert(!folds[f].void());
    assert(q > p);
    assert forall|i: int|
        0 <= i < all.len() && (#[trigger] all[i]).source is Document
            && !all[i].source.at_end_of_text() implies !hidden_at(folds, all[i].char_idx) by {
        assert(all[i] == rest[i - 1]);
    }
    assert forall|i: int|
        0 <= i < folds.len() && (#[trigger] folds[i]).start_char >= p implies marked_once(
        all,
        folds[i],
        len,
    ) by {
        if i == f {
            assert(marks(all[0], fold, len));
            assert forall|j: int|
                0 <= j < all.len() && (#[trigger] all[j]).source is Fold && all[j].char_idx
                    == fold.start_char implies j == 0 by {
                if j > 0 {
                    assert(all[j] == rest[j - 1]);
                }
            }
        } else {
            if i < f {
                assert(!folds[i].void());
                assert(folds[i].end_char <= folds[f].start_char);
            } else {
                assert(folds[f].end_char <= folds[i].start_char);
            }
            assert(folds[i].start_char < len);
            assert(folds[i].start_char >= q);
            lemma_marked_once_behind(first, rest, folds[i], len);
        }
    }
    assert forall|k: int|
        0 <= k < graphemes.len() && !hidden_at(
            folds,
            (#[trigger] own_passage(graphemes, p, k)).char_idx,
        ) implies all.contains(own_passage(graphemes, p, k)) by {
        if k < n {
            let x = own_passage(graphemes, p, k).char_idx;
            lemma_flatten_take_monotone(graphemes, k + 1, n);
            lemma_flatten_take_step(graphemes, k);
            assert(graphemes[k].len() > 0);
            assert(folds[f].hides(x));
        } else {
            lemma_own_passage_skip(graphemes, p, n, k);
            assert(rest.contains(own_passage(left, q, k - n)));
            lemma_shown_behind(first, rest, own_passage(graphemes, p, k));
        }
    }
}

/// What is ahead shows the document.
proof fn lemma_ahead_shows(
    graphemes: Seq<Seq<char>>,
    folds: Seq<Fold>,
    p: int,
    highlight: Option<Highlight>,
)
    requires
        in_place(graphemes, folds, p),
    ensures
        shows(ahead(graphemes, folds, p, highlight), graphemes, folds, p),
    decreases graphemes.len(),
{
    let len = p + graphemes.flatten().len();
    lemma_fold_starting(folds, 0, p);
    match fold_starting(folds, 0, p) {
        Some(fold) => {
            let f = choose|i: int|
                0 <= i < folds.len() && #[trigger] folds[i] == fold && fold.start_char == p;
            let n = graphemes_within(graphemes, fold.end_char - p) as int;
            lemma_fold_ends(graphemes, folds, p, f);
            lemma_in_place_behind(graphemes, folds, p, n);
            lemma_ahead_shows(
                graphemes.skip(n),
                folds,
                p + graphemes.take(n).flatten().len(),
                highlight,
            );
            lemma_fold_shows(graphemes, folds, p, highlight, f);
        },
        None => {
            if graphemes.len() > 0 {
                let q = p + graphemes.first().len();
                lemma_one_taken(graphemes);
                lemma_flatten_split(graphemes, 1);
                assert(graphemes[0].len() > 0);
                assert(outside(folds, len, q)) by {
                    assert forall|i: int| 0 <= i < folds.len() implies !(
                    #[trigger] folds[i]).reaches_over(q) by {
                        if folds[i].start_char >= p {
                            lemma_no_cut_inside(graphemes, p, folds[i].start_char as int);
                        } else {
                            assert(!folds[i].reaches_over(p));
                        }
                    }
                }
                lemma_in_place_behind(graphemes, folds, p, 1);
                lemma_ahead_shows(graphemes.drop_first(), folds, q, highlight);
                lemma_grapheme_shows(graphemes, folds, p, highlight);
            } else {
                assert(graphemes =~= Seq::<Seq<char>>::empty());
                assert(graphemes.flatten().len() == 0);
            }
        },
    }
}

/// The law of a whole run with folds. Where the folds are in order, start inside the text, start
/// and end between graphemes and none reaches over the start, a layout that drew everything has
/// given no char of the document that a fold hides, one marker for each fold from the start on,
/// which stands for the chars of the fold, and every grapheme that is not hidden.
pub proof fn law_run_shows_the_folds<L: LineAnnotation>(
    text: Seq<char>,
    fmt: TextFormat,
    annotations: AnnotationsView<L>,
    start: usize,
    doc: Seq<Seq<char>>,
    wrap_indicator: Seq<Seq<char>>,
    fold_marker: Seq<Seq<char>>,
    n: nat,
)
    requires
        fmt.tab_width > 0,
        start <= text.len(),
        doc.flatten() == text.skip(start as int),
        well_segmented(doc),
        fold_marker.len() > 0,
        counted(doc, annotations.folds),
        in_order(annotations.folds),
        folds_fit(annotations.folds, text.len() as int),
        folds_cut(doc, annotations.folds, start as int),
        outside(annotations.folds, text.len() as int, start as int),
        ({
            let s = FormatterView::at_block(
                text,
                fmt,
                annotations,
                start,
                doc,
                wrap_indicator,
                fold_marker,
            );
            s.run(n) is Some && (s.run(n)->0).0.finished()
        }),
    ensures
        ({
            let s = FormatterView::at_block(
                text,
                fmt,
                annotations,
                start,
                doc,
                wrap_indicator,
                fold_marker,
            );
            shows(given((s.run(n)->0).1), doc, annotations.folds, start as int)
        }),
{
    let s = FormatterView::at_block(
        text,
        fmt,
        annotations,
        start,
        doc,
        wrap_indicator,
        fold_marker,
    );
    law_block_starts_in_step(text, fmt, annotations, start, doc, wrap_indicator, fold_marker);
    law_finished_run_gives_the_course(s, n);
    lemma_first_course(s);
    lemma_ahead_shows(doc, annotations.folds, start as int, fmt.fold_marker_highlight);
}

/// At the start, the whole course is ahead.
proof fn lemma_first_course<L: LineAnnotation>(s: FormatterView<L>)
    requires
        s.word_buf.len() == 0,
        s.word_i == 0,
        s.peeked is None,
        s.marker is None,
        !s.exhausted,
    ensures
        s.course() == ahead(
            s.doc,
            s.annotations.folds,
            s.char_pos as int,
            s.fmt.fold_marker_highlight,
        ),
{
    assert(s.waiting() =~= Seq::<CellView>::empty());
    assert(s.course() =~= ahead(
        s.doc,
        s.annotations.folds,
        s.char_pos as int,
        s.fmt.fold_marker_highlight,
    ));
}

/// The chars, lines and lengths of what the graphemes that were drawn stand for.
pub open spec fn account(drawn: Seq<FormattedView>) -> Seq<(int, int, int)>
    decreases drawn.len(),
{
    if drawn.len() == 0 {
        Seq::empty()
    } else {
        let g = drawn.last();
        account(drawn.drop_last()) + if g.source is VirtualText {
            Seq::empty()
        } else {
            seq![(g.char_idx as int, g.line_idx as int, g.source.covered() as int)]
        }
    }
}

/// The same of passages of `text`, with the lines that their chars are on.
pub open spec fn told(text: Seq<char>, passages: Seq<Passage>) -> Seq<(int, int, int)> {
    Seq::new(
        passages.len(),
        |i: int|
            (
                passages[i].char_idx,
                newlines(text.take(passages[i].char_idx)) as int,
                passages[i].source.covered() as int,
            ),
    )
}

/// The law of line numbers over a run. Without inline annotations and overlays, and whatever the
/// folds are, every grapheme that is given, a fold marker and a wrap indicator too, carries the
/// number of the line that its char is on.
pub proof fn law_run_counts_lines<L: LineAnnotation>(s: FormatterView<L>, n: nat)
    requires
        s.in_step(),
        s.page().plain,
        s.on_its_line(),
        s.quiet(),
        s.run(n) is Some,
    ensures
        ({
            let (t, drawn) = s.run(n)->0;
            &&& t.in_step()
            &&& t.page() == s.page()
            &&& t.on_its_line()
            &&& t.quiet()
            &&& forall|i: int|
                0 <= i < drawn.len() ==> (#[trigger] drawn[i]).line_idx == newlines(
                    s.text.take(drawn[i].char_idx as int),
                )
        }),
    decreases n,
{
    if n > 0 {
        law_run_counts_lines(s, (n - 1) as nat);
        let (t, drawn) = s.run((n - 1) as nat)->0;
        law_step_reads_the_document(t);
        lemma_step_goes_its_course(t);
        let (u, found) = t.next()->0;
        match found {
            Some(g) => {
                law_lines_are_counted(t);
            },
            None => {
                lemma_fetch_tracks(t);
            },
        }
    }
}

/// The law of line numbers of a layout. The same of a layout from the start of a block on.
pub proof fn law_layout_counts_lines<L: LineAnnotation>(
    text: Seq<char>,
    fmt: TextFormat,
    annotations: AnnotationsView<L>,
    start: usize,
    doc: Seq<Seq<char>>,
    wrap_indicator: Seq<Seq<char>>,
    fold_marker: Seq<Seq<char>>,
    n: nat,
)
    requires
        fmt.tab_width > 0,
        start <= text.len(),
        doc.flatten() == text.skip(start as int),
        well_segmented(doc),
        fold_marker.len() > 0,
        counted(doc, annotations.folds),
        annotations.inline.len() == 0,
        annotations.overlays.len() == 0,
        FormatterView::at_block(text, fmt, annotations, start, doc, wrap_indicator, fold_marker)
            .run(n) is Some,
    ensures
        ({
            let s = FormatterView::at_block(
                text,
                fmt,
                annotations,
                start,
                doc,
                wrap_indicator,
                fold_marker,
            );
            let drawn = (s.run(n)->0).1;
            forall|i: int|
                0 <= i < drawn.len() ==> (#[trigger] drawn[i]).line_idx == newlines(
                    text.take(drawn[i].char_idx as int),
                )
        }),
{
    let s = FormatterView::at_block(
        text,
        fmt,
        annotations,
        start,
        doc,
        wrap_indicator,
        fold_marker,
    );
    lemma_block_is_quiet(text, fmt, annotations, start, doc, wrap_indicator, fold_marker);
    law_run_counts_lines(s, n);
}

/// A layout without inline annotations starts without them, in step and on its line.
pub proof fn lemma_block_is_quiet<L: LineAnnotation>(
    text: Seq<char>,
    fmt: TextFormat,
    annotations: AnnotationsView<L>,
    start: usize,
    doc: Seq<Seq<char>>,
    wrap_indicator: Seq<Seq<char>>,
    fold_marker: Seq<Seq<char>>,
)
    requires
        fmt.tab_width > 0,
        start <= text.len(),
        doc.flatten() == text.skip(start as int),
        well_segmented(doc),
        fold_marker.len() > 0,
        counted(doc, annotations.folds),
        annotations.inline.len() == 0,
    ensures
        ({
            let s = FormatterView::at_block(
                text,
                fmt,
                annotations,
                start,
                doc,
                wrap_indicator,
                fold_marker,
            );
            s.in_step() && s.on_its_line() && s.quiet()
        }),
{
    let s = FormatterView::at_block(
        text,
        fmt,
        annotations,
        start,
        doc,
        wrap_indicator,
        fold_marker,
    );
    law_block_starts_in_step(text, fmt, annotations, start, doc, wrap_indicator, fold_marker);
    law_block_starts_on_its_line(text, fmt, annotations, start, doc, wrap_indicator, fold_marker);
    lemma_seek(annotations.inline_positions(), 0, start as int);
    assert(s.waiting() =~= Seq::<CellView>::empty());
}

/// Graphemes that are on their lines are accounted for by what they stand for.
proof fn lemma_account_is_told(text: Seq<char>, drawn: Seq<FormattedView>)
    requires
        forall|i: int|
            0 <= i < drawn.len() ==> (#[trigger] drawn[i]).line_idx == newlines(
                text.take(drawn[i].char_idx as int),
            ),
    ensures
        account(drawn) == told(text, given(drawn)),
    decreases drawn.len(),
{
    if drawn.len() > 0 {
        let init = drawn.drop_last();
        assert forall|i: int| 0 <= i < init.len() implies (#[trigger] init[i]).line_idx == newlines(
            text.take(init[i].char_idx as int),
        ) by {
            assert(init[i] == drawn[i]);
        }
        lemma_account_is_told(text, init);
        assert(drawn[drawn.len() - 1] == drawn.last());
        assert(account(drawn) =~= told(text, given(drawn)));
    } else {
        assert(account(drawn) =~= told(text, given(drawn)));
    }
}

/// The law of two layouts. Two layouts of a document from the same place, with or without soft
/// wrap, which drew everything, gave the same chars, lines and lengths: soft wrap changes only
/// where graphemes go on the screen and how wide tabs are, and adds virtual text. There are no
/// inline annotations, which may break a line where the document does not, and no overlays.
pub proof fn law_soft_wrap_changes_only_the_screen<L: LineAnnotation>(
    text: Seq<char>,
    fmt: TextFormat,
    other_fmt: TextFormat,
    annotations: AnnotationsView<L>,
    start: usize,
    doc: Seq<Seq<char>>,
    wrap_indicator: Seq<Seq<char>>,
    other_indicator: Seq<Seq<char>>,
    fold_marker: Seq<Seq<char>>,
    n: nat,
    m: nat,
)
    requires
        fmt.tab_width > 0,
        other_fmt.tab_width > 0,
        fmt.fold_marker_highlight == other_fmt.fold_marker_highlight,
        start <= text.len(),
        doc.flatten() == text.skip(start as int),
        well_segmented(doc),
        fold_marker.len() > 0,
        counted(doc, annotations.folds),
        folds_fit(annotations.folds, text.len() as int),
        annotations.inline.len() == 0,
        annotations.overlays.len() == 0,
        ({
            let a = FormatterView::at_block(
                text,
                fmt,
                annotations,
                start,
                doc,
                wrap_indicator,
                fold_marker,
            );
            let b = FormatterView::at_block(
                text,
                other_fmt,
                annotations,
                start,
                doc,
                other_indicator,
                fold_marker,
            );
            &&& a.run(n) is Some
            &&& (a.run(n)->0).0.finished()
            &&& b.run(m) is Some
            &&& (b.run(m)->0).0.finished()
        }),
    ensures
        ({
            let a = FormatterView::at_block(
                text,
                fmt,
                annotations,
                start,
                doc,
                wrap_indicator,
                fold_marker,
            );
            let b = FormatterView::at_block(
                text,
                other_fmt,
                annotations,
                start,
                doc,
                other_indicator,
                fold_marker,
            );
            account((a.run(n)->0).1) == account((b.run(m)->0).1)
        }),
{
    let a = FormatterView::at_block(
        text,
        fmt,
        annotations,
        start,
        doc,
        wrap_indicator,
        fold_marker,
    );
    let b = FormatterView::at_block(
        text,
        other_fmt,
        annotations,
        start,
        doc,
        other_indicator,
        fold_marker,
    );
    lemma_block_is_quiet(text, fmt, annotations, start, doc, wrap_indicator, fold_marker);
    lemma_block_is_quiet(text, other_fmt, annotations, start, doc, other_indicator, fold_marker);
    law_run_counts_lines(a, n);
    law_run_counts_lines(b, m);
    lemma_account_is_told(text, (a.run(n)->0).1);
    lemma_account_is_told(text, (b.run(m)->0).1);
    law_finished_run_gives_the_course(a, n);
    law_finished_run_gives_the_course(b, m);
    lemma_first_course(a);
    lemma_first_course(b);
}

/// The law of soft wrap over a run. If there is room for it, every grapheme that is given starts
/// inside the viewport. If the text is wrapped at a width of its own, a line break and the blank
/// behind the text may stand right behind that.
pub proof fn law_run_stays_inside<L: LineAnnotation>(s: FormatterView<L>, n: nat)
    requires
        s.in_step(),
        s.fmt.soft_wrap,
        s.has_room(),
        s.word_inside(),
        s.run(n) is Some,
    ensures
        ({
            let (t, drawn) = s.run(n)->0;
            &&& t.in_step()
            &&& t.fmt == s.fmt
            &&& t.has_room()
            &&& t.word_inside()
            &&& forall|i: int|
                0 <= i < drawn.len() ==> starts_inside(s.fmt, #[trigger] drawn[i])
        }),
    decreases n,
{
    if n > 0 {
        law_run_stays_inside(s, (n - 1) as nat);
        let (t, drawn) = s.run((n - 1) as nat)->0;
        law_step_reads_the_document(t);
        law_soft_wrap_stays_inside(t);
    }
}

/// Whether a grapheme starts inside the viewport, or ends a line right behind it where the text
/// is wrapped at a width of its own.
pub open spec fn starts_inside(fmt: TextFormat, g: FormattedView) -> bool {
    ||| g.visual_pos.col < fmt.viewport_width
    ||| {
        &&& g.visual_pos.col == fmt.viewport_width
        &&& fmt.soft_wrap_at_text_width
        &&& g.raw is Newline || g.source.at_end_of_text()
    }
}

/// What is left of ASCII text is ASCII.
proof fn lemma_ascii_skip(text: Seq<char>, start: int)
    requires
        ascii(text),
        0 <= start <= text.len(),
    ensures
        ascii(text.skip(start)),
{
    assert forall|i: int| 0 <= i < text.skip(start).len() implies #[trigger] text.skip(start)[i]
        <= '\u{7F}' by {
        assert(text.skip(start)[i] == text[start + i]);
    }
}

/// The law of soft wrap for ASCII text. Where the wrap indicator is one ASCII char that is no
/// tab, and the deepest indentation that is kept, that char and a word that may be moved are less
/// wide than the viewport, every grapheme of a layout of ASCII text starts inside the viewport.
pub proof fn law_ascii_layout_stays_inside<L: LineAnnotation>(
    text: Seq<char>,
    fmt: TextFormat,
    annotations: AnnotationsView<L>,
    start: usize,
    doc: Seq<Seq<char>>,
    wrap_indicator: Seq<Seq<char>>,
    fold_marker: Seq<Seq<char>>,
    indicator: char,
    n: nat,
)
    requires
        fmt.tab_width > 0,
        fmt.soft_wrap,
        fmt.max_indent_retain + 1 + fmt.max_wrap < fmt.viewport_width,
        ascii(text),
        start <= text.len(),
        doc.flatten() == text.skip(start as int),
        well_segmented(doc),
        fold_marker.len() > 0,
        folds_counted(annotations.folds),
        wrap_indicator.flatten() == seq![indicator],
        well_segmented(wrap_indicator),
        indicator <= '\u{7F}',
        indicator != '\t',
        FormatterView::at_block(text, fmt, annotations, start, doc, wrap_indicator, fold_marker)
            .run(n) is Some,
    ensures
        ({
            let s = FormatterView::at_block(
                text,
                fmt,
                annotations,
                start,
                doc,
                wrap_indicator,
                fold_marker,
            );
            let drawn = (s.run(n)->0).1;
            forall|i: int| 0 <= i < drawn.len() ==> starts_inside(fmt, #[trigger] drawn[i])
        }),
{
    let s = FormatterView::at_block(
        text,
        fmt,
        annotations,
        start,
        doc,
        wrap_indicator,
        fold_marker,
    );
    lemma_ascii_skip(text, start as int);
    law_ascii_texts_are_counted(doc, annotations.folds);
    law_block_starts_in_step(text, fmt, annotations, start, doc, wrap_indicator, fold_marker);
    law_block_starts_inside(text, fmt, annotations, start, doc, wrap_indicator, fold_marker);
    law_short_indicator_leaves_room(s, indicator);
    law_run_stays_inside(s, n);
}

/// A run of bare text.
proof fn lemma_run_bare<L: LineAnnotation>(s: FormatterView<L>, n: nat)
    requires
        s.in_step(),
        s.bare(),
        s.run(n) is Some,
    ensures
        ({
            let (t, drawn) = s.run(n)->0;
            &&& t.in_step()
            &&& t.bare()
            &&& t.fmt == s.fmt
            &&& t.page() == s.page()
            &&& !s.fmt.soft_wrap ==> forall|i: int|
                0 <= i < drawn.len() ==> (#[trigger] drawn[i]).source is Document
        }),
    decreases n,
{
    if n > 0 {
        lemma_run_bare(s, (n - 1) as nat);
        let (t, drawn) = s.run((n - 1) as nat)->0;
        law_step_reads_the_document(t);
        law_bare_text_is_drawn_to_its_end(t);
    }
}

/// A layout of bare ASCII text that gives no grapheme any more is finished.
proof fn lemma_ascii_run_finishes<L: LineAnnotation>(s: FormatterView<L>, n: nat)
    requires
        s.in_step(),
        s.bare(),
        s.page().plain,
        ascii(s.text),
        s.fmt.max_wrap > 0,
        s.run_until_none(n),
    ensures
        s.run(n + 1) is Some,
        (s.run(n + 1)->0).0.finished(),
        (s.run(n + 1)->0).1 == (s.run(n)->0).1,
{
    lemma_run_bare(s, n);
    law_bare_text_is_drawn_to_its_end((s.run(n)->0).0);
}

impl<L: LineAnnotation> FormatterView<L> {
    /// Whether no grapheme is given any more after `n` steps.
    pub open spec fn run_until_none(self, n: nat) -> bool {
        &&& self.run(n) is Some
        &&& (self.run(n)->0).0.next() is Some
        &&& ((self.run(n)->0).0.next()->0).1 is None
    }
}

/// The law of two layouts of ASCII text. Two layouts of ASCII text from the same place, with or
/// without soft wrap, without annotations, folds and overlays, run until no grapheme is given any
/// more: they gave the same chars, lines and lengths. The one without soft wrap gave no virtual
/// text.
pub proof fn law_ascii_layouts_agree<L: LineAnnotation>(
    text: Seq<char>,
    fmt: TextFormat,
    other_fmt: TextFormat,
    annotations: AnnotationsView<L>,
    start: usize,
    doc: Seq<Seq<char>>,
    wrap_indicator: Seq<Seq<char>>,
    other_indicator: Seq<Seq<char>>,
    fold_marker: Seq<Seq<char>>,
    n: nat,
    m: nat,
)
    requires
        fmt.tab_width > 0,
        other_fmt.tab_width > 0,
        fmt.max_wrap > 0,
        other_fmt.max_wrap > 0,
        fmt.fold_marker_highlight == other_fmt.fold_marker_highlight,
        ascii(text),
        start <= text.len(),
        doc.flatten() == text.skip(start as int),
        well_segmented(doc),
        fold_marker.len() > 0,
        annotations.folds.len() == 0,
        annotations.inline.len() == 0,
        annotations.overlays.len() == 0,
        FormatterView::at_block(text, fmt, annotations, start, doc, wrap_indicator, fold_marker)
            .run_until_none(n),
        FormatterView::at_block(
            text,
            other_fmt,
            annotations,
            start,
            doc,
            other_indicator,
            fold_marker,
        ).run_until_none(m),
    ensures
        ({
            let a = FormatterView::at_block(
                text,
                fmt,
                annotations,
                start,
                doc,
                wrap_indicator,
                fold_marker,
            );
            let b = FormatterView::at_block(
                text,
                other_fmt,
                annotations,
                start,
                doc,
                other_indicator,
                fold_marker,
            );
            let drawn = (a.run(n)->0).1;
            &&& account(drawn) == account((b.run(m)->0).1)
            &&& !fmt.soft_wrap ==> forall|i: int|
                0 <= i < drawn.len() ==> (#[trigger] drawn[i]).source is Document
        }),
{
    let a = FormatterView::at_block(
        text,
        fmt,
        annotations,
        start,
        doc,
        wrap_indicator,
        fold_marker,
    );
    let b = FormatterView::at_block(
        text,
        other_fmt,
        annotations,
        start,
        doc,
        other_indicator,
        fold_marker,
    );
    lemma_ascii_skip(text, start as int);
    law_ascii_texts_are_counted(doc, annotations.folds);
    lemma_block_is_quiet(text, fmt, annotations, start, doc, wrap_indicator, fold_marker);
    lemma_block_is_quiet(text, other_fmt, annotations, start, doc, other_indicator, fold_marker);
    lemma_ascii_run_finishes(a, n);
    lemma_ascii_run_finishes(b, m);
    lemma_run_bare(a, n);
    law_soft_wrap_changes_only_the_screen(
        text,
        fmt,
        other_fmt,
        annotations,
        start,
        doc,
        wrap_indicator,
        other_indicator,
        fold_marker,
        n + 1,
        m + 1,
    );
}

} // verus!
