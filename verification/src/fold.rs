//! Folds hide lines when a document is drawn. They do not change the text, so
//! whoever reads the text still sees the whole document.

use crate::rope::{newlines, rope_chars};
use ropey::RopeSlice;
use vstd::prelude::*;

verus! {

/// A hidden range of chars. The first line and the last line still show, only
/// what is in between gets hidden.
#[derive(Debug, Clone, Copy, PartialEq, Eq, Structural)]
pub struct Fold {
    pub start_char: usize,
    pub end_char: usize,
}

impl Fold {
    /// Whether the fold hides the char at `char_idx`.
    pub open spec fn hides(self, char_idx: int) -> bool {
        self.start_char <= char_idx < self.end_char
    }

    /// Whether the fold starts before `char_idx` and ends behind it.
    pub open spec fn reaches_over(self, char_idx: int) -> bool {
        self.start_char < char_idx < self.end_char
    }

    /// Whether the fold hides no char at all.
    pub open spec fn void(self) -> bool {
        self.start_char >= self.end_char
    }

    /// Whether the fold ends before `other` starts, or starts behind its end.
    pub open spec fn clear_of(self, other: Fold) -> bool {
        self.end_char <= other.start_char || self.start_char >= other.end_char
    }

    pub fn new(start_char: usize, end_char: usize) -> (fold: Fold)
        ensures
            fold == (Fold { start_char, end_char }),
    {
        Fold { start_char, end_char }
    }

    /// Is this char inside the hidden part?
    pub fn contains(&self, char_idx: usize) -> (b: bool)
        ensures
            b == self.hides(char_idx as int),
    {
        self.start_char <= char_idx && char_idx < self.end_char
    }

    pub fn is_empty(&self) -> (b: bool)
        ensures
            b == self.void(),
            b == (forall|c: int| !self.hides(c)),
    {
        proof {
            if self.start_char < self.end_char {
                assert(self.hides(self.start_char as int));
            }
        }
        self.start_char >= self.end_char
    }
}

/// How the folds of a document stand: none is empty, each ends before the next one
/// starts. So they are sorted by start and never overlap.
pub open spec fn in_order(folds: Seq<Fold>) -> bool {
    &&& forall|i: int| 0 <= i < folds.len() ==> !(#[trigger] folds[i]).void()
    &&& forall|i: int, j: int|
        0 <= i < j < folds.len() ==> (#[trigger] folds[i]).end_char <= (
        #[trigger] folds[j]).start_char
}

/// Whether no two folds overlap, in whatever order they stand.
pub open spec fn apart(folds: Seq<Fold>) -> bool {
    forall|i: int, j: int|
        0 <= i < folds.len() && 0 <= j < folds.len() && i != j ==> (#[trigger] folds[i]).clear_of(
            #[trigger] folds[j],
        )
}

/// Whether the folds are sorted by start.
pub open spec fn sorted(folds: Seq<Fold>) -> bool {
    forall|i: int, j: int|
        0 <= i <= j < folds.len() ==> (#[trigger] folds[i]).start_char <= (
        #[trigger] folds[j]).start_char
}

/// The place of the first fold that hides the char, if there is one.
pub open spec fn first_hiding(folds: Seq<Fold>, char_idx: int) -> Option<int>
    decreases folds.len(),
{
    if folds.len() == 0 {
        None
    } else {
        match first_hiding(folds.drop_last(), char_idx) {
            Some(i) => Some(i),
            None => if folds.last().hides(char_idx) {
                Some(folds.len() - 1)
            } else {
                None
            },
        }
    }
}

/// The place of the first fold that starts at `start` or behind it, or the end.
pub open spec fn place_for(folds: Seq<Fold>, start: int) -> int
    decreases folds.len(),
{
    if folds.len() == 0 || folds[0].start_char >= start {
        0
    } else {
        1 + place_for(folds.drop_first(), start)
    }
}

/// The folds that do not overlap `fold`.
pub open spec fn clear_of(folds: Seq<Fold>, fold: Fold) -> Seq<Fold> {
    folds.filter(|f: Fold| f.clear_of(fold))
}

/// The folds after `fold` was added: it throws out those that it overlaps. A fold
/// that hides nothing is not added.
pub open spec fn inserted(folds: Seq<Fold>, fold: Fold) -> Seq<Fold> {
    if fold.void() {
        folds
    } else {
        let kept = clear_of(folds, fold);
        kept.insert(place_for(kept, fold.start_char as int), fold)
    }
}

/// The folds after the one that hides the char was taken out.
pub open spec fn removed(folds: Seq<Fold>, char_idx: int) -> Seq<Fold> {
    match first_hiding(folds, char_idx) {
        Some(i) => folds.remove(i),
        None => folds,
    }
}

/// The folds that are left of a text of `text_len` chars.
pub open spec fn surviving(folds: Seq<Fold>, text_len: int) -> Seq<Fold> {
    folds.filter(|f: Fold| !f.void() && f.start_char < text_len)
}

/// The folds that start at `start`.
pub open spec fn starting_at(folds: Seq<Fold>, start: usize) -> Seq<Fold> {
    folds.filter(|f: Fold| f.start_char == start)
}

/// Whether `after` holds the folds of `before` sorted by start, those with the
/// same start in the order in which they stood.
pub open spec fn sorted_from(after: Seq<Fold>, before: Seq<Fold>) -> bool {
    &&& sorted(after)
    &&& after.to_multiset() == before.to_multiset()
    &&& forall|start: usize| #[trigger] starting_at(after, start) == starting_at(before, start)
}

/// What `first_hiding` finds.
pub proof fn lemma_first_hiding(folds: Seq<Fold>, char_idx: int)
    ensures
        match first_hiding(folds, char_idx) {
            Some(i) => {
                &&& 0 <= i < folds.len()
                &&& folds[i].hides(char_idx)
                &&& forall|j: int| 0 <= j < i ==> !(#[trigger] folds[j]).hides(char_idx)
            },
            None => forall|j: int| 0 <= j < folds.len() ==> !(#[trigger] folds[j]).hides(char_idx),
        },
    decreases folds.len(),
{
    if folds.len() > 0 {
        let init = folds.drop_last();
        lemma_first_hiding(init, char_idx);
        match first_hiding(init, char_idx) {
            Some(i) => {
                assert forall|j: int| 0 <= j < i implies !(#[trigger] folds[j]).hides(
                    char_idx,
                ) by {
                    assert(init[j] == folds[j]);
                }
            },
            None => {
                assert forall|j: int| 0 <= j < folds.len() - 1 implies !(
                #[trigger] folds[j]).hides(char_idx) by {
                    assert(init[j] == folds[j]);
                }
            },
        }
    }
}

/// What `place_for` finds.
pub proof fn lemma_place_for(folds: Seq<Fold>, start: int)
    ensures
        0 <= place_for(folds, start) <= folds.len(),
        forall|j: int|
            0 <= j < place_for(folds, start) ==> (#[trigger] folds[j]).start_char < start,
        place_for(folds, start) < folds.len() ==> folds[place_for(folds, start)].start_char
            >= start,
    decreases folds.len(),
{
    if folds.len() != 0 && folds[0].start_char < start {
        let rest = folds.drop_first();
        lemma_place_for(rest, start);
        assert forall|j: int| 0 <= j < place_for(folds, start) implies (
        #[trigger] folds[j]).start_char < start by {
            if j > 0 {
                assert(folds[j] == rest[j - 1]);
            }
        }
    }
}

/// A place with smaller starts before it and none right behind is the one that
/// `place_for` finds.
proof fn lemma_place_for_is(folds: Seq<Fold>, start: int, k: int)
    requires
        0 <= k <= folds.len(),
        forall|j: int| 0 <= j < k ==> (#[trigger] folds[j]).start_char < start,
        k < folds.len() ==> folds[k].start_char >= start,
    ensures
        place_for(folds, start) == k,
{
    lemma_place_for(folds, start);
    let p = place_for(folds, start);
    if p < k {
        assert(folds[p].start_char < start);
    } else if k < p {
        assert(folds[k].start_char < start);
    }
}

/// All the folds of one document. Sorted by start, and they never overlap, as long
/// as nobody moves them by hand (see `iter_mut`).
#[derive(Debug)]
pub struct Folds {
    folds: Vec<Fold>,
}

impl View for Folds {
    type V = Seq<Fold>;

    closed spec fn view(&self) -> Seq<Fold> {
        self.folds@
    }
}

impl Default for Folds {
    fn default() -> (folds: Folds)
        ensures
            folds@ == Seq::<Fold>::empty(),
    {
        Folds { folds: Vec::new() }
    }
}

impl Clone for Folds {
    fn clone(&self) -> (copy: Folds)
        ensures
            copy@ == self@,
    {
        let copy = Folds { folds: self.folds.clone() };
        assert(copy@ =~= self@);
        copy
    }
}

impl Folds {
    pub fn is_empty(&self) -> (b: bool)
        ensures
            b == (self@.len() == 0),
    {
        self.folds.is_empty()
    }

    pub fn len(&self) -> (n: usize)
        ensures
            n == self@.len(),
    {
        self.folds.len()
    }

    /// The folds one after the other.
    pub fn iter(&self) -> (folds: core::slice::Iter<'_, Fold>)
        ensures
            vstd::std_specs::iter::IteratorSpec::remaining(&folds) == self@.as_ref(),
            vstd::std_specs::iter::IteratorSpec::decrease(&folds) is Some,
            vstd::std_specs::iter::IteratorSpec::initial_value_relation(&folds, &folds),
    {
        self.folds.as_slice().iter()
    }

    /// The folds one after the other, to be moved. Whoever leaves them out of order
    /// calls `prune`.
    pub fn iter_mut(&mut self) -> (folds: &mut [Fold])
        ensures
            folds@ == old(self)@,
            final(self)@ == final(folds)@,
    {
        self.folds.as_mut_slice()
    }

    pub fn as_slice(&self) -> (folds: &[Fold])
        ensures
            folds@ == self@,
    {
        self.folds.as_slice()
    }

    /// The place of the first fold that hides this char.
    fn position(&self, char_idx: usize) -> (at: Option<usize>)
        ensures
            match at {
                Some(i) => first_hiding(self@, char_idx as int) == Some(i as int),
                None => first_hiding(self@, char_idx as int) is None,
            },
    {
        assert(self@.take(0) =~= Seq::<Fold>::empty());
        let mut i: usize = 0;
        while i < self.folds.len()
            invariant
                i <= self@.len(),
                self@ == self.folds@,
                first_hiding(self@.take(i as int), char_idx as int) is None,
            decreases self.folds.len() - i,
        {
            assert(self@.take(i + 1).drop_last() =~= self@.take(i as int));
            if self.folds[i].contains(char_idx) {
                proof {
                    lemma_first_hiding_of_prefix(self@, i + 1, char_idx as int);
                }
                return Some(i);
            }
            i += 1;
        }
        assert(self@.take(i as int) =~= self@);
        None
    }

    /// Find the fold that hides this char, if there is one.
    pub fn fold_at(&self, char_idx: usize) -> (fold: Option<&Fold>)
        ensures
            match fold {
                Some(f) => {
                    &&& first_hiding(self@, char_idx as int) is Some
                    &&& *f == self@[first_hiding(self@, char_idx as int)->0]
                    &&& f.hides(char_idx as int)
                    &&& f.start_char <= char_idx < f.end_char
                    &&& exists|i: int|
                        {
                            &&& 0 <= i < self@.len()
                            &&& #[trigger] self@[i] == *f
                            &&& forall|j: int|
                                0 <= j < i ==> !((#[trigger] self@[j]).start_char <= char_idx
                                    < self@[j].end_char)
                        }
                },
                None => {
                    &&& first_hiding(self@, char_idx as int) is None
                    &&& forall|j: int|
                        0 <= j < self@.len() ==> !(#[trigger] self@[j]).hides(char_idx as int)
                    &&& forall|j: int|
                        0 <= j < self@.len() ==> !((#[trigger] self@[j]).start_char <= char_idx
                            < self@[j].end_char)
                },
            },
    {
        proof {
            lemma_first_hiding(self@, char_idx as int);
        }
        match self.position(char_idx) {
            Some(i) => {
                assert(self@[i as int] == self.folds@[i as int]);
                Some(&self.folds[i])
            },
            None => None,
        }
    }

    /// Add a fold. If it overlaps an existing one, throw the old one out.
    pub fn insert(&mut self, fold: Fold)
        ensures
            final(self)@ == inserted(old(self)@, fold),
            in_order(old(self)@) ==> in_order(final(self)@),
            fold.start_char >= fold.end_char ==> final(self)@ == old(self)@,
            fold.start_char < fold.end_char ==> forall|f: Fold|
                #[trigger] final(self)@.contains(f) <==> f == fold || old(self)@.contains(f) && (
                f.end_char <= fold.start_char || fold.end_char <= f.start_char),
    {
        proof {
            assert forall|f: Fold| fold.start_char < fold.end_char implies (
            #[trigger] inserted(self@, fold).contains(f) <==> f == fold || self@.contains(f) && (
            f.end_char <= fold.start_char || fold.end_char <= f.start_char)) by {
                law_insert_keeps_the_others(self@, fold, f);
            }
            if in_order(self@) {
                law_insert_keeps_order(self@, fold);
            }
        }
        if fold.is_empty() {
            return ;
        }
        let mut kept: Vec<Fold> = Vec::new();
        let ghost pred = |f: Fold| f.clear_of(fold);
        assert(old(self)@.take(0).filter(pred) =~= Seq::<Fold>::empty()) by {
            reveal(Seq::filter);
        }
        let mut i: usize = 0;
        while i < self.folds.len()
            invariant
                i <= self.folds.len(),
                pred == (|f: Fold| f.clear_of(fold)),
                self.folds@ == old(self)@,
                kept@ == old(self)@.take(i as int).filter(pred),
            decreases self.folds.len() - i,
        {
            let f = self.folds[i];
            assert(old(self)@.take(i + 1).drop_last() =~= old(self)@.take(i as int));
            assert(old(self)@.take(i + 1).filter(pred) =~= if pred(f) {
                kept@.push(f)
            } else {
                kept@
            }) by {
                reveal(Seq::filter);
            }
            if f.end_char <= fold.start_char || f.start_char >= fold.end_char {
                kept.push(f);
            }
            i += 1;
        }
        assert(old(self)@.take(i as int) =~= old(self)@);
        assert(kept@ == clear_of(old(self)@, fold));
        let mut idx: usize = 0;
        while idx < kept.len() && kept[idx].start_char < fold.start_char
            invariant
                idx <= kept.len(),
                forall|j: int|
                    0 <= j < idx ==> (#[trigger] kept@[j]).start_char < fold.start_char,
            decreases kept.len() - idx,
        {
            idx += 1;
        }
        proof {
            lemma_place_for_is(kept@, fold.start_char as int, idx as int);
        }
        kept.insert(idx, fold);
        self.folds = kept;
    }

    /// Remove the fold sitting on this char. Tells you if it actually removed one.
    pub fn remove_at(&mut self, char_idx: usize) -> (found: bool)
        ensures
            final(self)@ == removed(old(self)@, char_idx as int),
            found == (exists|i: int|
                0 <= i < old(self)@.len() && (#[trigger] old(self)@[i]).hides(char_idx as int)),
            in_order(old(self)@) ==> in_order(final(self)@),
            !found ==> final(self)@ == old(self)@,
            found ==> exists|i: int|
                0 <= i < old(self)@.len() && (#[trigger] old(self)@[i]).start_char <= char_idx
                    < old(self)@[i].end_char && final(self)@ == old(self)@.remove(i),
    {
        proof {
            lemma_first_hiding(self@, char_idx as int);
        }
        match self.position(char_idx) {
            Some(i) => {
                self.folds.remove(i);
                true
            },
            None => false,
        }
    }

    pub fn clear(&mut self)
        ensures
            final(self)@ == Seq::<Fold>::empty(),
    {
        self.folds.clear();
    }

    /// After an edit moves things around, drop the folds that got squished to
    /// nothing or fell off the end of the text, and sort again.
    pub fn prune(&mut self, text_len: usize)
        ensures
            sorted_from(final(self)@, surviving(old(self)@, text_len as int)),
            apart(old(self)@) ==> in_order(final(self)@),
    {
        let ghost pred = |f: Fold| !f.void() && f.start_char < text_len;
        let mut left: Vec<Fold> = Vec::new();
        proof {
            reveal(Seq::filter);
            assert(old(self)@.take(0).filter(pred) =~= left@);
        }
        let mut i: usize = 0;
        while i < self.folds.len()
            invariant
                i <= self.folds.len(),
                pred == (|f: Fold| !f.void() && f.start_char < text_len),
                self.folds@ == old(self)@,
                sorted_from(left@, old(self)@.take(i as int).filter(pred)),
            decreases self.folds.len() - i,
        {
            let f = self.folds[i];
            let ghost before = old(self)@.take(i as int).filter(pred);
            assert(old(self)@.take(i + 1).drop_last() =~= old(self)@.take(i as int));
            assert(old(self)@.take(i + 1).filter(pred) =~= if pred(f) {
                before.push(f)
            } else {
                before
            }) by {
                reveal(Seq::filter);
            }
            if !f.is_empty() && f.start_char < text_len {
                let mut k: usize = left.len();
                while k > 0 && left[k - 1].start_char > f.start_char
                    invariant
                        k <= left.len(),
                        forall|j: int|
                            k <= j < left.len() ==> (#[trigger] left@[j]).start_char
                                > f.start_char,
                    decreases k,
                {
                    k -= 1;
                }
                proof {
                    lemma_sorted_insert(left@, before, f, k as int);
                }
                left.insert(k, f);
            }
            i += 1;
        }
        assert(old(self)@.take(i as int) =~= old(self)@);
        proof {
            if apart(old(self)@) {
                law_prune_restores_order(old(self)@, left@, text_len as int);
            }
        }
        self.folds = left;
    }
}

/// Sorting one more fold in.
proof fn lemma_sorted_insert(sorted_folds: Seq<Fold>, before: Seq<Fold>, fold: Fold, k: int)
    requires
        sorted_from(sorted_folds, before),
        0 <= k <= sorted_folds.len(),
        k > 0 ==> sorted_folds[k - 1].start_char <= fold.start_char,
        forall|j: int|
            k <= j < sorted_folds.len() ==> (#[trigger] sorted_folds[j]).start_char
                > fold.start_char,
    ensures
        sorted_from(sorted_folds.insert(k, fold), before.push(fold)),
{
    let after = sorted_folds.insert(k, fold);
    let head = sorted_folds.take(k);
    let tail = sorted_folds.skip(k);
    assert(sorted_folds =~= head + tail);
    assert(after =~= head.push(fold) + tail);
    assert(after.to_multiset() == before.push(fold).to_multiset()) by {
        broadcast use vstd::seq_lib::group_to_multiset_ensures;

        assert(after.remove(k) =~= sorted_folds);
        assert(after[k] == fold);
        assert(after.contains(fold));
        assert(after.to_multiset() =~= sorted_folds.to_multiset().insert(fold));
    }
    assert forall|start: usize| #[trigger] starting_at(after, start) == starting_at(
        before.push(fold),
        start,
    ) by {
        let pred = |f: Fold| f.start_char == start;
        assert(starting_at(sorted_folds, start) == starting_at(before, start));
        Seq::<Fold>::filter_distributes_over_add(head, tail, pred);
        Seq::<Fold>::filter_distributes_over_add(head.push(fold), tail, pred);
        assert(head.push(fold).drop_last() =~= head);
        assert(before.push(fold).drop_last() =~= before);
        if start == fold.start_char {
            lemma_filter_none(tail, pred);
        }
        reveal(Seq::filter);
        assert(after.filter(pred) =~= before.push(fold).filter(pred));
    }
}

/// A filter that lets nothing through leaves nothing.
proof fn lemma_filter_none(folds: Seq<Fold>, pred: spec_fn(Fold) -> bool)
    requires
        forall|i: int| 0 <= i < folds.len() ==> !pred(#[trigger] folds[i]),
    ensures
        folds.filter(pred) == Seq::<Fold>::empty(),
    decreases folds.len(),
{
    reveal(Seq::filter);
    if folds.len() > 0 {
        lemma_filter_none(folds.drop_last(), pred);
    }
}

/// What a filter lets through was there before, and what it should keep it keeps.
proof fn lemma_filter_members(folds: Seq<Fold>, pred: spec_fn(Fold) -> bool)
    ensures
        forall|i: int|
            0 <= i < folds.filter(pred).len() ==> pred(#[trigger] folds.filter(pred)[i])
                && folds.contains(folds.filter(pred)[i]),
        forall|i: int|
            0 <= i < folds.len() && pred(#[trigger] folds[i]) ==> folds.filter(pred).contains(
                folds[i],
            ),
    decreases folds.len(),
{
    reveal(Seq::filter);
    if folds.len() > 0 {
        let init = folds.drop_last();
        let sub = init.filter(pred);
        let all = folds.filter(pred);
        lemma_filter_members(init, pred);
        assert forall|i: int| 0 <= i < all.len() implies pred(#[trigger] all[i]) && folds.contains(
            all[i],
        ) by {
            if i < sub.len() {
                assert(all[i] == sub[i]);
                let k = choose|k: int| 0 <= k < init.len() && init[k] == sub[i];
                assert(folds[k] == all[i]);
            } else {
                assert(folds[folds.len() - 1] == all[i]);
            }
        }
        assert forall|i: int| 0 <= i < folds.len() && pred(#[trigger] folds[i]) implies all.contains(
            folds[i],
        ) by {
            if i < init.len() {
                assert(pred(init[i]));
                let k = choose|k: int| 0 <= k < sub.len() && sub[k] == init[i];
                assert(all[k] == folds[i]);
            } else {
                assert(all[all.len() - 1] == folds[i]);
            }
        }
    }
}

/// A filter lets through what stands apart, and only that.
proof fn lemma_filter_apart(folds: Seq<Fold>, pred: spec_fn(Fold) -> bool)
    requires
        apart(folds),
    ensures
        apart(folds.filter(pred)),
    decreases folds.len(),
{
    reveal(Seq::filter);
    if folds.len() > 0 {
        let init = folds.drop_last();
        assert(apart(init)) by {
            assert forall|i: int, j: int|
                0 <= i < init.len() && 0 <= j < init.len() && i != j implies (
            #[trigger] init[i]).clear_of(#[trigger] init[j]) by {
                assert(folds[i].clear_of(folds[j]));
            }
        }
        lemma_filter_apart(init, pred);
        lemma_filter_members(init, pred);
        let sub = init.filter(pred);
        let all = folds.filter(pred);
        assert forall|i: int, j: int|
            0 <= i < all.len() && 0 <= j < all.len() && i != j implies (
        #[trigger] all[i]).clear_of(#[trigger] all[j]) by {
            if i < sub.len() && j < sub.len() {
                assert(sub[i].clear_of(sub[j]));
            } else if i < sub.len() {
                assert(pred(sub[i]));
                let k = choose|k: int| 0 <= k < init.len() && init[k] == sub[i];
                assert(folds[k].clear_of(folds[folds.len() - 1]));
            } else {
                assert(pred(sub[j]));
                let k = choose|k: int| 0 <= k < init.len() && init[k] == sub[j];
                assert(folds[folds.len() - 1].clear_of(folds[k]));
            }
        }
    }
}

/// What `first_hiding` finds in a prefix it finds in the whole.
proof fn lemma_first_hiding_of_prefix(folds: Seq<Fold>, n: int, char_idx: int)
    requires
        0 <= n <= folds.len(),
        first_hiding(folds.take(n), char_idx) is Some,
    ensures
        first_hiding(folds, char_idx) == first_hiding(folds.take(n), char_idx),
    decreases folds.len() - n,
{
    if n == folds.len() {
        assert(folds.take(n) =~= folds);
    } else {
        assert(folds.take(n + 1).drop_last() =~= folds.take(n));
        lemma_first_hiding_of_prefix(folds, n + 1, char_idx);
    }
}

/// What is filtered out of folds in order is in order.
proof fn lemma_filter_in_order(folds: Seq<Fold>, pred: spec_fn(Fold) -> bool)
    requires
        in_order(folds),
    ensures
        in_order(folds.filter(pred)),
    decreases folds.len(),
{
    reveal(Seq::filter);
    if folds.len() > 0 {
        let init = folds.drop_last();
        let sub = init.filter(pred);
        lemma_filter_in_order(init, pred);
        lemma_filter_members(init, pred);
        assert forall|i: int, j: int| 0 <= i < j < folds.filter(pred).len() implies (
        #[trigger] folds.filter(pred)[i]).end_char <= (
        #[trigger] folds.filter(pred)[j]).start_char by {
            if j == sub.len() {
                assert(pred(sub[i]));
                let k = choose|k: int| 0 <= k < init.len() && init[k] == sub[i];
                assert(folds[k] == sub[i]);
            }
        }
    }
}

/// Adding a fold keeps the folds in order.
pub proof fn law_insert_keeps_order(folds: Seq<Fold>, fold: Fold)
    requires
        in_order(folds),
    ensures
        in_order(inserted(folds, fold)),
{
    if !fold.void() {
        let pred = |f: Fold| f.clear_of(fold);
        let kept = clear_of(folds, fold);
        let p = place_for(kept, fold.start_char as int);
        lemma_filter_in_order(folds, pred);
        lemma_filter_members(folds, pred);
        lemma_place_for(kept, fold.start_char as int);
        let after = kept.insert(p, fold);
        assert forall|i: int, j: int| 0 <= i < j < after.len() implies (
        #[trigger] after[i]).end_char <= (#[trigger] after[j]).start_char by {
            if i < p {
                assert(after[i] == kept[i]);
                assert(pred(kept[i]));
            }
            if j > p {
                assert(after[j] == kept[j - 1]);
                assert(pred(kept[j - 1]));
                assert(pred(kept[p]));
            }
            if i > p {
                assert(after[i] == kept[i - 1]);
            }
        }
    }
}

/// Where no two folds overlapped, pruning leaves the folds in order: an edit that
/// moves folds without pushing one into another undoes nothing that lasts.
pub proof fn law_prune_restores_order(before: Seq<Fold>, after: Seq<Fold>, text_len: int)
    requires
        apart(before),
        sorted_from(after, surviving(before, text_len)),
    ensures
        in_order(after),
        forall|i: int| 0 <= i < after.len() ==> (#[trigger] after[i]).start_char < text_len,
{
    let pred = |f: Fold| !f.void() && f.start_char < text_len;
    let left = surviving(before, text_len);
    lemma_filter_members(before, pred);
    lemma_filter_apart(before, pred);
    assert(left.no_duplicates()) by {
        assert forall|i: int, j: int|
            0 <= i < left.len() && 0 <= j < left.len() && i != j implies left[i] != left[j] by {
            assert(pred(left[i]));
            assert(left[i].clear_of(left[j]));
        }
    }
    left.lemma_multiset_has_no_duplicates();
    after.lemma_multiset_has_no_duplicates_conv();
    assert forall|i: int| 0 <= i < after.len() implies left.contains(#[trigger] after[i]) by {
        broadcast use vstd::seq_lib::group_to_multiset_ensures;

        assert(after.contains(after[i]));
        assert(left.to_multiset().count(after[i]) > 0);
    }
    assert forall|i: int| 0 <= i < after.len() implies pred(#[trigger] after[i]) by {
        let k = choose|k: int| 0 <= k < left.len() && left[k] == after[i];
        assert(pred(left[k]));
    }
    assert forall|i: int| 0 <= i < after.len() implies !(#[trigger] after[i]).void() && after[i].start_char
        < text_len by {
        assert(pred(after[i]));
    }
    assert forall|i: int, j: int| 0 <= i < j < after.len() implies (
    #[trigger] after[i]).end_char <= (#[trigger] after[j]).start_char by {
        let k = choose|k: int| 0 <= k < left.len() && left[k] == after[i];
        let l = choose|l: int| 0 <= l < left.len() && left[l] == after[j];
        assert(left[k].clear_of(left[l]));
        assert(pred(after[i]) && pred(after[j]));
        assert(after[i].start_char <= after[j].start_char);
    }
}

/// In folds in order a char is hidden by one fold at most: whatever fold hides it is
/// the one that `first_hiding` finds.
pub proof fn law_hidden_by_one_fold(folds: Seq<Fold>, i: int, char_idx: int)
    requires
        in_order(folds),
        0 <= i < folds.len(),
        folds[i].hides(char_idx),
    ensures
        first_hiding(folds, char_idx) == Some(i),
{
    lemma_first_hiding(folds, char_idx);
    match first_hiding(folds, char_idx) {
        Some(k) => {
            if k < i {
                assert(folds[k].end_char <= folds[i].start_char);
            } else if i < k {
                assert(folds[i].end_char <= folds[k].start_char);
            }
        },
        None => {},
    }
}

/// A fold that was added is where it was put.
proof fn lemma_inserted_is_there(folds: Seq<Fold>, fold: Fold)
    requires
        !fold.void(),
    ensures
        ({
            let p = place_for(clear_of(folds, fold), fold.start_char as int);
            &&& 0 <= p < inserted(folds, fold).len()
            &&& inserted(folds, fold)[p] == fold
        }),
{
    lemma_place_for(clear_of(folds, fold), fold.start_char as int);
}

/// A char that was hidden by a fold which the new one does not overlap is hidden by it after.
proof fn lemma_insert_keeps_hidden(folds: Seq<Fold>, fold: Fold, i: int, char_idx: int)
    requires
        in_order(folds),
        !fold.void(),
        0 <= i < folds.len(),
        folds[i].clear_of(fold),
        folds[i].hides(char_idx),
    ensures
        match first_hiding(inserted(folds, fold), char_idx) {
            Some(k) => inserted(folds, fold)[k] == folds[i],
            None => false,
        },
{
    let pred = |f: Fold| f.clear_of(fold);
    let kept = clear_of(folds, fold);
    let p = place_for(kept, fold.start_char as int);
    let after = inserted(folds, fold);
    lemma_place_for(kept, fold.start_char as int);
    lemma_filter_members(folds, pred);
    assert(pred(folds[i]));
    let k = choose|k: int| 0 <= k < kept.len() && kept[k] == folds[i];
    let at = if k < p {
        k
    } else {
        k + 1
    };
    assert(after[at] == folds[i]);
    law_insert_keeps_order(folds, fold);
    law_hidden_by_one_fold(after, at, char_idx);
}

/// A char outside of a new fold that is hidden after was hidden before, by a fold that the new
/// one does not overlap.
proof fn lemma_hidden_before_insert(folds: Seq<Fold>, fold: Fold, k: int, char_idx: int)
    requires
        in_order(folds),
        !fold.void(),
        !fold.hides(char_idx),
        0 <= k < inserted(folds, fold).len(),
        inserted(folds, fold)[k].hides(char_idx),
    ensures
        match first_hiding(folds, char_idx) {
            Some(i) => folds[i].clear_of(fold) && inserted(folds, fold)[k] == folds[i],
            None => false,
        },
{
    let pred = |f: Fold| f.clear_of(fold);
    let kept = clear_of(folds, fold);
    let p = place_for(kept, fold.start_char as int);
    let after = inserted(folds, fold);
    lemma_place_for(kept, fold.start_char as int);
    lemma_filter_members(folds, pred);
    let m = if k < p {
        k
    } else {
        k - 1
    };
    assert(kept[m] == after[k]);
    assert(pred(kept[m]));
    let i = choose|i: int| 0 <= i < folds.len() && folds[i] == kept[m];
    law_hidden_by_one_fold(folds, i, char_idx);
}

/// After a fold was added, a char in its range is hidden by that fold, and any other
/// char is hidden by the fold that hid it before, if that fold does not overlap the
/// new one.
pub proof fn law_insert_hides(folds: Seq<Fold>, fold: Fold, char_idx: int)
    requires
        in_order(folds),
        !fold.void(),
    ensures
        fold.hides(char_idx) ==> match first_hiding(inserted(folds, fold), char_idx) {
            Some(i) => inserted(folds, fold)[i] == fold,
            None => false,
        },
        !fold.hides(char_idx) ==> match (
            first_hiding(folds, char_idx),
            first_hiding(inserted(folds, fold), char_idx),
        ) {
            (Some(i), Some(k)) => folds[i].clear_of(fold) && inserted(folds, fold)[k] == folds[i],
            (Some(i), None) => !folds[i].clear_of(fold),
            (None, Some(_)) => false,
            (None, None) => true,
        },
{
    lemma_inserted_is_there(folds, fold);
    lemma_first_hiding(folds, char_idx);
    lemma_first_hiding(inserted(folds, fold), char_idx);
    if fold.hides(char_idx) {
        law_insert_keeps_order(folds, fold);
        let p = place_for(clear_of(folds, fold), fold.start_char as int);
        law_hidden_by_one_fold(inserted(folds, fold), p, char_idx);
    } else {
        match first_hiding(folds, char_idx) {
            Some(i) => {
                if folds[i].clear_of(fold) {
                    lemma_insert_keeps_hidden(folds, fold, i, char_idx);
                }
            },
            None => {},
        }
        match first_hiding(inserted(folds, fold), char_idx) {
            Some(k) => lemma_hidden_before_insert(folds, fold, k, char_idx),
            None => {},
        }
    }
}

/// After the fold on a char was removed, the char is not hidden any more, and
/// every char that the removed fold did not hide is hidden as before.
pub proof fn law_remove_shows(folds: Seq<Fold>, removed_at: int, char_idx: int)
    requires
        in_order(folds),
    ensures
        first_hiding(removed(folds, removed_at), removed_at) is None,
        match first_hiding(folds, removed_at) {
            Some(i) => {
                &&& folds[i].hides(char_idx) ==> first_hiding(
                    removed(folds, removed_at),
                    char_idx,
                ) is None
                &&& !folds[i].hides(char_idx) ==> match (
                    first_hiding(folds, char_idx),
                    first_hiding(removed(folds, removed_at), char_idx),
                ) {
                    (Some(j), Some(k)) => removed(folds, removed_at)[k] == folds[j],
                    (None, None) => true,
                    _ => false,
                }
            },
            None => removed(folds, removed_at) == folds,
        },
{
    let after = removed(folds, removed_at);
    lemma_first_hiding(folds, removed_at);
    lemma_first_hiding(after, removed_at);
    lemma_first_hiding(folds, char_idx);
    lemma_first_hiding(after, char_idx);
    match first_hiding(folds, removed_at) {
        Some(i) => {
            assert forall|k: int| 0 <= k < after.len() implies #[trigger] after[k] == folds[if k
                < i {
                k
            } else {
                k + 1
            }] by {}
            match first_hiding(after, removed_at) {
                Some(k) => {
                    law_hidden_by_one_fold(
                        folds,
                        if k < i {
                            k
                        } else {
                            k + 1
                        },
                        removed_at,
                    );
                },
                None => {},
            }
            match first_hiding(after, char_idx) {
                Some(k) => {
                    law_hidden_by_one_fold(
                        folds,
                        if k < i {
                            k
                        } else {
                            k + 1
                        },
                        char_idx,
                    );
                },
                None => {},
            }
            match first_hiding(folds, char_idx) {
                Some(j) => {
                    if j != i {
                        let k = if j < i {
                            j
                        } else {
                            j - 1
                        };
                        assert(after[k] == folds[j]);
                    }
                },
                None => {},
            }
        },
        None => {},
    }
}

/// One filter behind the other lets through what passes both.
proof fn lemma_filter_twice(
    folds: Seq<Fold>,
    p: spec_fn(Fold) -> bool,
    q: spec_fn(Fold) -> bool,
    both: spec_fn(Fold) -> bool,
)
    requires
        forall|f: Fold| #[trigger] both(f) == (p(f) && q(f)),
    ensures
        folds.filter(p).filter(q) == folds.filter(both),
    decreases folds.len(),
{
    reveal(Seq::filter);
    if folds.len() > 0 {
        let init = folds.drop_last();
        lemma_filter_twice(init, p, q, both);
        assert(both(folds.last()) == (p(folds.last()) && q(folds.last())));
        if p(folds.last()) {
            assert(init.filter(p).push(folds.last()).drop_last() =~= init.filter(p));
        }
    }
}

/// It does not matter whether the folds with one start are looked for before or after the
/// folds are pruned.
proof fn lemma_starting_at_surviving(folds: Seq<Fold>, n: int, start: usize)
    ensures
        starting_at(surviving(folds, n), start) == surviving(starting_at(folds, start), n),
{
    let lives = |f: Fold| !f.void() && f.start_char < n;
    let starts = |f: Fold| f.start_char == start;
    let both = |f: Fold| !f.void() && f.start_char < n && f.start_char == start;
    lemma_filter_twice(folds, lives, starts, both);
    lemma_filter_twice(folds, starts, lives, both);
}

/// Pruning what was pruned leaves what starts before both ends.
proof fn lemma_surviving_twice(folds: Seq<Fold>, a: int, b: int)
    ensures
        surviving(surviving(folds, a), b) == surviving(
            folds,
            if a <= b {
                a
            } else {
                b
            },
        ),
{
    let n = if a <= b {
        a
    } else {
        b
    };
    lemma_filter_twice(
        folds,
        |f: Fold| !f.void() && f.start_char < a,
        |f: Fold| !f.void() && f.start_char < b,
        |f: Fold| !f.void() && f.start_char < n,
    );
}

/// The folds with one start, where the last fold has that start.
proof fn lemma_starting_at_last(folds: Seq<Fold>, start: usize)
    requires
        folds.len() > 0,
    ensures
        starting_at(folds, start) == if folds.last().start_char == start {
            starting_at(folds.drop_last(), start).push(folds.last())
        } else {
            starting_at(folds.drop_last(), start)
        },
{
    reveal(Seq::filter);
}

/// Folds that start elsewhere are not found.
proof fn lemma_starting_at_none(folds: Seq<Fold>, start: usize)
    requires
        forall|i: int| 0 <= i < folds.len() ==> (#[trigger] folds[i]).start_char != start,
    ensures
        starting_at(folds, start).len() == 0,
{
    lemma_filter_none(folds, |f: Fold| f.start_char == start);
}

/// Sorted folds are fixed by the folds with each start.
proof fn lemma_sorted_unique(a: Seq<Fold>, b: Seq<Fold>)
    requires
        sorted(a),
        sorted(b),
        forall|start: usize| #[trigger] starting_at(a, start) == starting_at(b, start),
    ensures
        a == b,
    decreases a.len(),
{
    if a.len() == 0 || b.len() == 0 {
        if b.len() > 0 {
            lemma_starting_at_last(b, b.last().start_char);
            lemma_starting_at_none(a, b.last().start_char);
        }
        if a.len() > 0 {
            lemma_starting_at_last(a, a.last().start_char);
            lemma_starting_at_none(b, a.last().start_char);
        }
        assert(starting_at(a, a.last().start_char) == starting_at(b, a.last().start_char));
        assert(starting_at(a, b.last().start_char) == starting_at(b, b.last().start_char));
        assert(a =~= b);
    } else {
        let x = a.last().start_char;
        let y = b.last().start_char;
        assert(starting_at(a, x) == starting_at(b, x));
        assert(starting_at(a, y) == starting_at(b, y));
        lemma_starting_at_last(a, x);
        lemma_starting_at_last(b, y);
        if x < y {
            assert forall|i: int| 0 <= i < a.len() implies (#[trigger] a[i]).start_char != y by {
                assert(a[i].start_char <= a[a.len() - 1].start_char);
            }
            lemma_starting_at_none(a, y);
        } else if y < x {
            assert forall|i: int| 0 <= i < b.len() implies (#[trigger] b[i]).start_char != x by {
                assert(b[i].start_char <= b[b.len() - 1].start_char);
            }
            lemma_starting_at_none(b, x);
        }
        assert(x == y);
        let (c, d) = (a.drop_last(), b.drop_last());
        assert(starting_at(a, x).last() == a.last());
        assert(starting_at(b, x).last() == b.last());
        assert forall|start: usize| #[trigger] starting_at(c, start) == starting_at(d, start) by {
            assert(starting_at(a, start) == starting_at(b, start));
            lemma_starting_at_last(a, start);
            lemma_starting_at_last(b, start);
            if start == x {
                assert(starting_at(c, start) =~= starting_at(a, start).drop_last());
                assert(starting_at(d, start) =~= starting_at(b, start).drop_last());
            }
        }
        assert(sorted(c)) by {
            assert forall|i: int, j: int| 0 <= i <= j < c.len() implies (#[trigger] c[i]).start_char
                <= (#[trigger] c[j]).start_char by {
                assert(a[i].start_char <= a[j].start_char);
            }
        }
        assert(sorted(d)) by {
            assert forall|i: int, j: int| 0 <= i <= j < d.len() implies (#[trigger] d[i]).start_char
                <= (#[trigger] d[j]).start_char by {
                assert(b[i].start_char <= b[j].start_char);
            }
        }
        lemma_sorted_unique(c, d);
        assert(a =~= c.push(a.last()));
        assert(b =~= d.push(b.last()));
    }
}

/// Pruning leaves one sequence of folds only.
pub proof fn law_prune_is_determined(left: Seq<Fold>, also_left: Seq<Fold>, survivors: Seq<Fold>)
    requires
        sorted_from(left, survivors),
        sorted_from(also_left, survivors),
    ensures
        left == also_left,
{
    assert forall|start: usize| #[trigger] starting_at(left, start) == starting_at(
        also_left,
        start,
    ) by {
        assert(starting_at(left, start) == starting_at(survivors, start));
        assert(starting_at(also_left, start) == starting_at(survivors, start));
    }
    lemma_sorted_unique(left, also_left);
}

/// Pruning for one length and then for another leaves what pruning for the smaller one leaves.
/// So pruning twice for one length is pruning once.
pub proof fn law_prune_twice(
    folds: Seq<Fold>,
    once: Seq<Fold>,
    twice: Seq<Fold>,
    direct: Seq<Fold>,
    a: int,
    b: int,
)
    requires
        sorted_from(once, surviving(folds, a)),
        sorted_from(twice, surviving(once, b)),
        sorted_from(
            direct,
            surviving(
                folds,
                if a <= b {
                    a
                } else {
                    b
                },
            ),
        ),
    ensures
        twice == direct,
{
    lemma_surviving_twice(folds, a, b);
    let survivors = surviving(folds, a);
    assert forall|start: usize| #[trigger] starting_at(twice, start) == starting_at(
        direct,
        start,
    ) by {
        assert(starting_at(twice, start) == starting_at(surviving(once, b), start));
        lemma_starting_at_surviving(once, b, start);
        assert(starting_at(once, start) == starting_at(survivors, start));
        lemma_starting_at_surviving(survivors, b, start);
        assert(starting_at(direct, start) == starting_at(surviving(survivors, b), start));
    }
    lemma_sorted_unique(twice, direct);
}

/// Pruning changes nothing in folds that are in order and start before the end of the text.
pub proof fn law_prune_keeps_what_is_in_order(folds: Seq<Fold>, left: Seq<Fold>, text_len: int)
    requires
        in_order(folds),
        forall|i: int| 0 <= i < folds.len() ==> (#[trigger] folds[i]).start_char < text_len,
        sorted_from(left, surviving(folds, text_len)),
    ensures
        left == folds,
{
    lemma_all_survive(folds, text_len);
    assert(sorted(folds)) by {
        assert forall|i: int, j: int| 0 <= i <= j < folds.len() implies (
        #[trigger] folds[i]).start_char <= (#[trigger] folds[j]).start_char by {
            if i < j {
                assert(!folds[i].void());
                assert(folds[i].end_char <= folds[j].start_char);
            }
        }
    }
    lemma_sorted_unique(left, folds);
}

/// Where every fold hides something and starts before the end of the text, all survive.
proof fn lemma_all_survive(folds: Seq<Fold>, text_len: int)
    requires
        forall|i: int| 0 <= i < folds.len() ==> !(#[trigger] folds[i]).void(),
        forall|i: int| 0 <= i < folds.len() ==> (#[trigger] folds[i]).start_char < text_len,
    ensures
        surviving(folds, text_len) == folds,
    decreases folds.len(),
{
    reveal(Seq::filter);
    if folds.len() > 0 {
        let init = folds.drop_last();
        assert forall|i: int| 0 <= i < init.len() implies !(#[trigger] init[i]).void()
            && init[i].start_char < text_len by {
            assert(!folds[i].void());
            assert(folds[i].start_char < text_len);
        }
        lemma_all_survive(init, text_len);
        assert(!folds[folds.len() - 1].void());
        assert(folds[folds.len() - 1].start_char < text_len);
        assert(folds =~= init.push(folds.last()));
    }
}

/// No fold is left of an empty text.
pub proof fn law_prune_of_an_empty_text(folds: Seq<Fold>, left: Seq<Fold>)
    requires
        sorted_from(left, surviving(folds, 0)),
    ensures
        left.len() == 0,
{
    let none = Seq::<Fold>::empty();
    assert(surviving(folds, 0) =~= none) by {
        lemma_filter_members(folds, |f: Fold| !f.void() && f.start_char < 0);
        let survivors = surviving(folds, 0);
        if survivors.len() > 0 {
            assert(survivors.contains(survivors[0]));
        }
    }
    lemma_sorted_unique(left, none);
}

/// The law of adding a fold. The new fold is there, and so are the old ones with which it shares
/// no char; no other is. Those that are left stand in the order in which they stood. A fold
/// that hides nothing changes nothing.
pub proof fn law_insert_keeps_the_others(folds: Seq<Fold>, fold: Fold, other: Fold)
    ensures
        fold.start_char >= fold.end_char ==> inserted(folds, fold) == folds,
        fold.start_char < fold.end_char ==> {
            let after = inserted(folds, fold);
            &&& after.contains(other) <==> other == fold || folds.contains(other) && (
            other.end_char <= fold.start_char || fold.end_char <= other.start_char)
            &&& exists|k: int|
                0 <= k < after.len() && #[trigger] after[k] == fold && after.remove(k)
                    == folds.filter(
                    |f: Fold| f.end_char <= fold.start_char || fold.end_char <= f.start_char,
                ) && (forall|i: int|
                    0 <= i < k ==> (#[trigger] after[i]).start_char < fold.start_char) && (k + 1
                    < after.len() ==> after[k + 1].start_char >= fold.start_char)
        },
{
    if fold.start_char < fold.end_char {
        let pred = |f: Fold| f.clear_of(fold);
        let direct = |f: Fold| f.end_char <= fold.start_char || fold.end_char <= f.start_char;
        assert(pred =~= direct);
        let kept = clear_of(folds, fold);
        let k = place_for(kept, fold.start_char as int);
        lemma_place_for(kept, fold.start_char as int);
        let after = inserted(folds, fold);
        assert(after[k] == fold);
        assert(after.remove(k) =~= kept);
        lemma_filter_members(folds, pred);
        if after.contains(other) && other != fold {
            let i = choose|i: int| 0 <= i < after.len() && after[i] == other;
            if i < k {
                assert(kept[i] == other);
            } else {
                assert(kept[i - 1] == other);
            }
            assert(kept.contains(other));
        }
        if kept.contains(other) {
            let i = choose|i: int| 0 <= i < kept.len() && kept[i] == other;
            if i < k {
                assert(after[i] == other);
            } else {
                assert(after[i + 1] == other);
            }
        }
    }
}

/// The law of removing a fold. Where no fold hides the char nothing changes. Else the first fold
/// that hides it is gone, and the others stand as they stood.
pub proof fn law_remove_takes_the_first(folds: Seq<Fold>, char_idx: int)
    ensures
        (forall|i: int|
            0 <= i < folds.len() ==> !((#[trigger] folds[i]).start_char <= char_idx
                < folds[i].end_char)) ==> removed(folds, char_idx) == folds,
        forall|i: int|
            0 <= i < folds.len() && (#[trigger] folds[i]).start_char <= char_idx
                < folds[i].end_char && (forall|j: int|
                0 <= j < i ==> !((#[trigger] folds[j]).start_char <= char_idx
                    < folds[j].end_char)) ==> removed(folds, char_idx) == folds.remove(i),
{
    lemma_first_hiding(folds, char_idx);
    match first_hiding(folds, char_idx) {
        Some(k) => {
            assert(folds[k].start_char <= char_idx < folds[k].end_char);
            assert forall|i: int|
                0 <= i < folds.len() && (#[trigger] folds[i]).start_char <= char_idx
                    < folds[i].end_char && (forall|j: int|
                    0 <= j < i ==> !((#[trigger] folds[j]).start_char <= char_idx
                        < folds[j].end_char)) implies removed(folds, char_idx)
                == folds.remove(i) by {
                if i < k {
                    assert(!folds[i].hides(char_idx));
                }
                assert(i == k);
            }
        },
        None => {
            assert forall|i: int| 0 <= i < folds.len() implies !((
            #[trigger] folds[i]).start_char <= char_idx < folds[i].end_char) by {
                assert(!folds[i].hides(char_idx));
            }
        },
    }
}

/// How often a filter leaves a fold in.
proof fn lemma_filter_count(folds: Seq<Fold>, pred: spec_fn(Fold) -> bool, f: Fold)
    ensures
        folds.filter(pred).to_multiset().count(f) == if pred(f) {
            folds.to_multiset().count(f)
        } else {
            0
        },
    decreases folds.len(),
{
    broadcast use vstd::seq_lib::group_to_multiset_ensures;

    reveal(Seq::filter);
    if folds.len() > 0 {
        let init = folds.drop_last();
        lemma_filter_count(init, pred, f);
        assert(folds =~= init.push(folds.last()));
    } else {
        assert(folds.filter(pred) =~= folds);
        assert(folds.to_multiset().len() == 0);
    }
}

/// The law of pruning. Each fold that hides a char and starts inside the text is left, as often
/// as it was there, and no other. They are sorted by start, those with the same start as they
/// stood.
pub proof fn law_prune_keeps_what_is_left(
    before: Seq<Fold>,
    after: Seq<Fold>,
    text_len: int,
    fold: Fold,
    start: usize,
)
    requires
        sorted_from(after, surviving(before, text_len)),
    ensures
        after.to_multiset().count(fold) == if fold.start_char < fold.end_char && fold.start_char
            < text_len {
            before.to_multiset().count(fold)
        } else {
            0
        },
        forall|i: int, j: int|
            0 <= i <= j < after.len() ==> (#[trigger] after[i]).start_char <= (
            #[trigger] after[j]).start_char,
        after.filter(|f: Fold| f.start_char == start) == before.filter(
            |f: Fold| f.start_char < f.end_char && f.start_char < text_len,
        ).filter(|f: Fold| f.start_char == start),
{
    let pred = |f: Fold| !f.void() && f.start_char < text_len;
    let direct = |f: Fold| f.start_char < f.end_char && f.start_char < text_len;
    assert(pred =~= direct);
    lemma_filter_count(before, direct, fold);
    assert(starting_at(after, start) == starting_at(surviving(before, text_len), start));
}

/// Where `line_end_char` points for a line of `chars`: to the line feed at its end. The last
/// line has none; there, and for the lines behind it, it is the end of the text.
pub open spec fn line_end(chars: Seq<char>, line: int, end: int) -> bool {
    if line < newlines(chars) {
        &&& 0 <= end < chars.len()
        &&& chars[end] == '\n'
        &&& newlines(chars.take(end)) == line
    } else {
        end == chars.len()
    }
}

/// Char index of the newline at the end of a line. Clamps to the end of the file
/// for the very last line.
pub fn line_end_char(text: RopeSlice<'_>, line: usize) -> (end: usize)
    ensures
        line_end(rope_chars(text), line as int, end as int),
        end <= rope_chars(text).len(),
        end < rope_chars(text).len() ==> rope_chars(text)[end as int] == '\n',
        end < rope_chars(text).len() <==> line < newlines(rope_chars(text)),
        newlines(rope_chars(text).take(end as int)) == if line < newlines(rope_chars(text)) {
            line as nat
        } else {
            newlines(rope_chars(text))
        },
{
    assert(rope_chars(text).take(rope_chars(text).len() as int) =~= rope_chars(text));
    let lines: usize = text.len_lines();
    if line >= lines - 1 {
        return text.len_chars();
    }
    let next_start: usize = text.line_to_char(line + 1);
    let ghost chars = rope_chars(text);
    proof {
        if next_start == 0 {
            assert(chars.take(0) =~= Seq::<char>::empty());
        }
        assert(chars.take(next_start as int).drop_last() =~= chars.take(next_start - 1));
    }
    next_start - 1
}

} // verus!
