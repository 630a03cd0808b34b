//! What is drawn is what is to be read, with wrap indicators in between.

use crate::formatted::{CellView, FormattedView, GraphemeSource};
use crate::layout::{
    lemma_moved_len, lemma_total_covered_add, lemma_word_grows, moved_to, spelled_at, total_covered,
    total_width, FormatterView,
};
use crate::reading::{
    as_cells, counted, filled, filling, law_block_starts_in_step, law_layout_reads_the_document,
    lemma_fetch_tracks, lemma_no_end_looked, lemma_no_end_parts, lemma_peek_tracks,
    lemma_place_tracks, lemma_step_tracks, lemma_word_begins, lemma_wrap_tracks, made_ready, no_end,
    stuck,
};
use crate::stream::{
    given_items, item, items, lemma_advance_streams, lemma_block_streams, lemma_same_stream,
    virtual_items, Item,
};
use crate::text_annotations::{AnnotationsView, LineAnnotation};
use crate::text_format::TextFormat;
use crate::unicode::well_segmented;
use vstd::prelude::*;

verus! {

/// Whether `b` is `a` with the whole of `block` put in, any number of times.
pub open spec fn woven(a: Seq<Item>, b: Seq<Item>, block: Seq<Item>) -> bool
    decreases b.len(),
{
    if b.len() == 0 {
        a.len() == 0
    } else {
        ||| a.len() > 0 && a.last() == b.last() && woven(a.drop_last(), b.drop_last(), block)
        ||| 0 < block.len() <= b.len() && b.skip(b.len() - block.len()) == block && woven(
            a,
            b.take(b.len() - block.len()),
            block,
        )
    }
}

proof fn lemma_woven_push(a: Seq<Item>, b: Seq<Item>, block: Seq<Item>, x: Item)
    requires
        woven(a, b, block),
    ensures
        woven(a.push(x), b.push(x), block),
{
    assert(a.push(x).drop_last() =~= a);
    assert(b.push(x).drop_last() =~= b);
}

proof fn lemma_woven_add(
    a: Seq<Item>,
    b: Seq<Item>,
    c: Seq<Item>,
    d: Seq<Item>,
    block: Seq<Item>,
)
    requires
        woven(a, b, block),
        woven(c, d, block),
    ensures
        woven(a + c, b + d, block),
    decreases d.len(),
{
    if d.len() == 0 {
        assert(a + c =~= a);
        assert(b + d =~= b);
    } else if c.len() > 0 && c.last() == d.last() && woven(c.drop_last(), d.drop_last(), block) {
        lemma_woven_add(a, b, c.drop_last(), d.drop_last(), block);
        assert((a + c).drop_last() =~= a + c.drop_last());
        assert((b + d).drop_last() =~= b + d.drop_last());
    } else {
        let n = d.len() - block.len();
        lemma_woven_add(a, b, c, d.take(n), block);
        assert((b + d).skip((b + d).len() - block.len()) =~= d.skip(n));
        assert((b + d).take((b + d).len() - block.len()) =~= b + d.take(n));
    }
}

proof fn lemma_woven_block(block: Seq<Item>)
    ensures
        woven(Seq::empty(), block, block),
{
    if block.len() > 0 {
        assert(block.skip(0) =~= block);
        assert(block.take(0) =~= Seq::<Item>::empty());
        reveal_with_fuel(woven, 2);
    }
}

proof fn lemma_moved_items(cells: Seq<CellView>, x: int, tab_width: int)
    ensures
        items(moved_to(cells, x, tab_width)) == items(cells),
    decreases cells.len(),
{
    if cells.len() > 0 {
        let init = cells.drop_last();
        lemma_moved_items(init, x, tab_width);
        let moved = moved_to(cells, x, tab_width);
        assert(moved.drop_last() =~= moved_to(init, x, tab_width));
        lemma_moved_len(init, x, tab_width);
        assert(items(moved) =~= items(moved.drop_last()).push(item(moved.last())));
        assert(items(cells) =~= items(init).push(item(cells.last())));
    } else {
        assert(items(moved_to(cells, x, tab_width)) =~= items(cells));
    }
}

proof fn lemma_spelled_items(
    texts: Seq<Seq<char>>,
    x: int,
    tab_width: int,
    source: GraphemeSource,
)
    requires
        source is VirtualText,
    ensures
        items(spelled_at(texts, x, tab_width, source)) == virtual_items(
            texts,
            source->VirtualText_highlight,
        ),
    decreases texts.len(),
{
    let cells = spelled_at(texts, x, tab_width, source);
    let all = virtual_items(texts, source->VirtualText_highlight);
    if texts.len() > 0 {
        let init = texts.drop_last();
        lemma_spelled_items(init, x, tab_width, source);
        assert(cells.drop_last() =~= spelled_at(init, x, tab_width, source));
        assert(items(cells) =~= items(cells.drop_last()).push(item(cells.last())));
        assert(all =~= virtual_items(init, source->VirtualText_highlight).push(
            item(cells.last()),
        ));
    } else {
        assert(items(cells) =~= all);
    }
}

impl<L: LineAnnotation> FormatterView<L> {
    /// The wrap indicator.
    pub open spec fn indicator_items(self) -> Seq<Item> {
        virtual_items(self.wrap_indicator, self.fmt.wrap_indicator_highlight)
    }

    /// How far the document has been read for the word.
    spec fn word_read(self) -> int {
        self.char_pos + total_covered(self.gathered())
    }

    /// Whether the word is what was read, with wrap indicators.
    spec fn word_woven(self, a: Seq<Item>) -> bool {
        &&& self.in_tune(self.word_read())
        &&& woven(a, items(self.word_buf), self.indicator_items())
    }

    /// Whether the last cell of the word was read.
    spec fn last_read(self, a: Seq<Item>) -> bool {
        self.word_buf.len() > 0 ==> {
            &&& a.len() > 0
            &&& a.last() == item(self.word_buf.last())
            &&& woven(a.drop_last(), items(self.word_buf.drop_last()), self.indicator_items())
        }
    }

    /// All that was read since the last word, and what is to be read.
    spec fn with_word(self, a: Seq<Item>) -> Seq<Item> {
        a + items(as_cells(self.peeked)) + self.to_read(self.word_read())
    }
}

/// A look at the next cell changes nothing in what is read.
proof fn lemma_peek_weaves<L: LineAnnotation>(
    s: FormatterView<L>,
    col: int,
    char_pos: usize,
    a: Seq<Item>,
)
    requires
        s.cells_show(),
        s.tracks(s.gathered()),
        no_end(s.gathered()),
        char_pos == s.char_pos + total_covered(s.word_buf),
        s.peek(col, char_pos) is Some,
        s.word_woven(a),
    ensures
        ({
            let t = s.peek(col, char_pos)->0;
            &&& t.word_woven(a)
            &&& t.with_word(a) == s.with_word(a)
            &&& t.peeked is None ==> t.to_read(t.word_read()).len() == 0
            &&& t.last_read(a) == s.last_read(a)
        }),
{
    lemma_peek_tracks(s, col, char_pos);
    let t = s.peek(col, char_pos)->0;
    if s.peeked is None {
        let (after, cell) = s.advance(col, char_pos)->0;
        let p = char_pos as int;
        assert(s.gathered() =~= s.word_buf);
        lemma_advance_streams(s, s.word_buf, col, char_pos);
        lemma_total_covered_add(t.word_buf, as_cells(t.peeked));
        lemma_same_stream(after, t, t.word_read());
        match cell {
            Some(cell) => {
                assert(total_covered(as_cells(t.peeked)) == cell.source.covered()) by {
                    reveal_with_fuel(total_covered, 2);
                }
                assert(t.word_read() == p + cell.source.covered());
                assert(items(as_cells(t.peeked)) =~= seq![item(cell)]);
                assert(t.with_word(a) =~= s.with_word(a));
            },
            None => {
                assert(t.word_read() == p);
                assert(t.with_word(a) =~= s.with_word(a));
            },
        }
    }
}

/// A cell that goes into the word was read.
proof fn lemma_take_weaves<L: LineAnnotation>(
    s: FormatterView<L>,
    col: int,
    char_pos: usize,
    a: Seq<Item>,
) -> (b: Seq<Item>)
    requires
        s.cells_show(),
        s.tracks(s.gathered()),
        no_end(s.word_buf),
        s.peeked is None ==> no_end(s.gathered()),
        char_pos == s.char_pos + total_covered(s.word_buf),
        s.take_into_word(col, char_pos) is Some,
        s.word_woven(a),
    ensures
        ({
            let (t, go_on) = s.take_into_word(col, char_pos)->0;
            &&& t.word_woven(b)
            &&& t.with_word(b) == s.with_word(a)
            &&& go_on ==> t.last_read(b)
        }),
{
    let looked = s.peek(col, char_pos)->0;
    if s.peeked is None {
        lemma_peek_tracks(s, col, char_pos);
        lemma_peek_weaves(s, col, char_pos, a);
    }
    let (t, go_on) = s.take_into_word(col, char_pos)->0;
    assert(looked.gathered() =~= t.gathered());
    lemma_same_stream(looked, t, t.word_read());
    if looked.peeked is Some {
        let cell = looked.peeked->0;
        let b = a.push(item(cell));
        lemma_woven_push(a, items(looked.word_buf), s.indicator_items(), item(cell));
        assert(items(t.word_buf) =~= items(looked.word_buf).push(item(cell)));
        assert(t.word_buf.drop_last() =~= looked.word_buf);
        assert(b.drop_last() =~= a);
        assert(t.with_word(b) =~= looked.with_word(a));
        b
    } else {
        a
    }
}

/// A word that is moved gets the wrap indicator, and is read as before.
proof fn lemma_wrap_weaves<L: LineAnnotation>(s: FormatterView<L>, a: Seq<Item>)
    requires
        s.cells_show(),
        s.tracks(s.gathered()),
        no_end(s.word_buf),
        s.wrap_word() is Some,
        s.word_woven(a),
    ensures
        ({
            let t = s.wrap_word()->0;
            &&& t.word_woven(a)
            &&& t.with_word(a) == s.with_word(a)
        }),
{
    lemma_wrap_tracks(s);
    let t = s.wrap_word()->0;
    let tab_width = s.fmt.tab_width as int;
    let indicator = s.indicator();
    let x = s.carried_indent() + total_width(indicator);
    let moved = moved_to(s.word_buf, x, tab_width);
    let source = GraphemeSource::VirtualText { highlight: s.fmt.wrap_indicator_highlight };
    let spelled = spelled_at(s.wrap_indicator, s.carried_indent(), tab_width, source);
    let block = s.indicator_items();
    lemma_spelled_items(s.wrap_indicator, s.carried_indent(), tab_width, source);
    assert(items(indicator) =~= items(spelled));
    lemma_moved_items(s.word_buf, x, tab_width);
    assert(items(t.word_buf) =~= items(indicator) + items(moved));
    lemma_woven_block(block);
    lemma_woven_add(Seq::empty(), block, a, items(s.word_buf), block);
    assert(Seq::<Item>::empty() + a =~= a);
    lemma_total_covered_add(s.word_buf, as_cells(s.peeked));
    lemma_total_covered_add(t.word_buf, as_cells(t.peeked));
    assert(items(as_cells(t.peeked)) =~= items(as_cells(s.peeked)));
    assert(total_covered(as_cells(t.peeked)) == total_covered(as_cells(s.peeked))) by {
        reveal_with_fuel(total_covered, 2);
    }
    assert(t.word_read() == s.word_read());
    lemma_same_stream(s, t, s.word_read());
}

/// One step in filling a word.
proof fn lemma_step_weaves<L: LineAnnotation>(s: FormatterView<L>, a: Seq<Item>) -> (b: Seq<Item>)
    requires
        filling(s),
        s.word_step() is Some,
        s.word_woven(a),
        s.last_read(a),
    ensures
        ({
            let (t, go_on) = s.word_step()->0;
            &&& t.word_woven(b)
            &&& t.with_word(b) == s.with_word(a)
            &&& go_on ==> t.last_read(b)
        }),
{
    let width = total_width(s.word_buf);
    let col = s.visual_pos.col + width;
    let pos = (s.char_pos + total_covered(s.word_buf)) as usize;
    let edge = s.fmt.viewport_width as int;
    let (t, go_on) = s.word_step()->0;
    lemma_no_end_parts(s);
    if col < edge {
        lemma_take_weaves(s, col, pos, a)
    } else {
        let at_edge = col == edge && s.fmt.soft_wrap_at_text_width;
        let looked = if at_edge || s.word_buf.len() == 0 {
            lemma_peek_tracks(s, col, pos);
            lemma_peek_weaves(s, col, pos, a);
            s.peek(col, pos)->0
        } else {
            s
        };
        if s.peeked is None {
            assert(s.gathered() =~= s.word_buf);
        }
        if at_edge && looked.line_end_peeked() {
            lemma_take_weaves(looked, col, pos, a)
        } else if width > s.fmt.max_wrap {
            if col > edge {
                let last = s.word_buf.last();
                let b = a.drop_last();
                assert(t.gathered() =~= s.gathered());
                lemma_same_stream(s, t, t.word_read());
                assert(items(as_cells(t.peeked)) =~= seq![item(last)]);
                assert(items(as_cells(s.peeked)) =~= Seq::<Item>::empty());
                assert(t.with_word(b) =~= s.with_word(a));
                b
            } else {
                a
            }
        } else {
            lemma_wrap_tracks(looked);
            lemma_wrap_weaves(looked, a);
            let w = looked.wrap_word()->0;
            if w.peeked is None {
                assert(w.gathered() =~= w.word_buf);
            }
            lemma_take_weaves(w, w.visual_pos.col + total_width(w.word_buf), pos, a)
        }
    }
}

/// Filling a word.
proof fn lemma_fill_weaves<L: LineAnnotation>(s: FormatterView<L>, a: Seq<Item>) -> (b: Seq<Item>)
    requires
        filling(s),
        s.fill_word() is Some,
        s.word_woven(a),
        s.last_read(a),
    ensures
        ({
            let t = s.fill_word()->0;
            &&& t.word_woven(b)
            &&& t.with_word(b) == s.with_word(a)
            &&& filled(t)
            &&& t.word_buf.len() == 0 ==> stuck(t)
            &&& s.same_place(t)
        }),
    decreases
            (if s.word_buf.len() < s.word_limit() {
                s.word_limit() - s.word_buf.len()
            } else {
                0
            }),
{
    lemma_step_tracks(s);
    let b = lemma_step_weaves(s, a);
    let (t, go_on) = s.word_step()->0;
    if go_on {
        lemma_word_grows(s);
        lemma_fill_weaves(t, b)
    } else {
        b
    }
}

impl<L: LineAnnotation> FormatterView<L> {
    /// Whether `a` was read for what was drawn and for the word at hand.
    pub closed spec fn has_woven(self, drawn: Seq<FormattedView>, a: Seq<Item>) -> bool {
        &&& self.in_tune(self.char_pos + total_covered(self.waiting()))
        &&& woven(
            a,
            given_items(drawn) + items(self.word_buf.skip(self.word_i)),
            self.indicator_items(),
        )
        &&& !self.fmt.soft_wrap ==> a == given_items(drawn)
    }

    /// All that was read and is to be read.
    pub closed spec fn in_all(self, a: Seq<Item>) -> Seq<Item> {
        a + items(as_cells(self.peeked)) + self.to_read(
            self.char_pos + total_covered(self.waiting()),
        )
    }
}

/// A word that is begun has nothing in it yet.
proof fn lemma_begin_weaves<L: LineAnnotation>(
    s: FormatterView<L>,
    drawn: Seq<FormattedView>,
    a: Seq<Item>,
) -> (begun: FormatterView<L>)
    requires
        s.in_step(),
        s.fmt.soft_wrap,
        s.word_i >= s.word_buf.len(),
        s.advance_to_next_word() is Some,
        s.has_woven(drawn, a),
    ensures
        begun.word_woven(Seq::empty()),
        begun.last_read(Seq::empty()),
        s.in_all(a) == a + begun.with_word(Seq::empty()),
        woven(a, given_items(drawn), s.indicator_items()),
        s.same_place(begun),
        begun.word_buf.len() == 0,
        s.exhausted && begun.peeked is None ==> s.advance_to_next_word() == Some(begun)
            && begun.with_word(Seq::empty()).len() == 0,
        !(s.exhausted && begun.peeked is None) ==> filling(begun) && s.advance_to_next_word()
            == begun.fill_word(),
{
    let begun = lemma_word_begins(s);
    let none = Seq::<Item>::empty();
    let empty = FormatterView { word_buf: Seq::empty(), ..s };
    let p = s.char_pos + total_covered(s.waiting());
    assert(empty.gathered() =~= s.waiting());
    assert(s.word_buf.skip(s.word_i) =~= Seq::<CellView>::empty());
    assert(items(s.word_buf.skip(s.word_i)) =~= none);
    assert(given_items(drawn) + none =~= given_items(drawn));
    lemma_same_stream(s, empty, p);
    assert(items(empty.word_buf) =~= none);
    assert(empty.word_woven(none));
    if s.exhausted {
        lemma_no_end_looked(empty);
        lemma_peek_weaves(empty, s.visual_pos.col as int, s.char_pos, none);
        if begun.peeked is None {
            assert(items(as_cells(begun.peeked)) =~= none);
        }
    }
    assert(s.in_all(a) =~= a + empty.with_word(none));
    begun
}

/// The word that is at hand was read behind what was drawn.
proof fn lemma_full_weaves<L: LineAnnotation>(
    full: FormatterView<L>,
    drawn: Seq<FormattedView>,
    a: Seq<Item>,
    b: Seq<Item>,
)
    requires
        full.fmt.soft_wrap,
        full.word_woven(b),
        woven(a, given_items(drawn), full.indicator_items()),
    ensures
        ({
            let t = FormatterView { word_i: 0, ..full };
            &&& t.has_woven(drawn, a + b)
            &&& t.in_all(a + b) == a + full.with_word(b)
        }),
{
    let t = FormatterView { word_i: 0, ..full };
    assert(t.waiting() =~= full.gathered());
    assert(t.word_buf.skip(0) =~= t.word_buf);
    lemma_same_stream(full, t, full.word_read());
    lemma_woven_add(a, given_items(drawn), b, items(full.word_buf), full.indicator_items());
    assert(t.in_all(a + b) =~= a + full.with_word(b));
}

/// Making the next word ready changes nothing in what is read.
proof fn lemma_ready_weaves<L: LineAnnotation>(
    s: FormatterView<L>,
    drawn: Seq<FormattedView>,
    a: Seq<Item>,
) -> (b: Seq<Item>)
    requires
        s.in_step(),
        s.fmt.soft_wrap,
        s.fetch() is Some,
        s.has_woven(drawn, a),
    ensures
        ({
            let t = made_ready(s);
            &&& t.has_woven(drawn, b)
            &&& t.in_all(b) == s.in_all(a)
            &&& t.word_i >= t.word_buf.len() ==> stuck(t) || t.in_all(b) == b
            &&& s.same_place(t)
        }),
{
    if s.word_i >= s.word_buf.len() {
        let begun = lemma_begin_weaves(s, drawn, a);
        let none = Seq::<Item>::empty();
        let b = if s.exhausted && begun.peeked is None {
            none
        } else {
            lemma_fill_weaves(begun, none)
        };
        let full = s.advance_to_next_word()->0;
        lemma_full_weaves(full, drawn, a, b);
        if s.exhausted && begun.peeked is None {
            assert(a + none =~= a);
            assert(a + begun.with_word(none) =~= a);
        }
        a + b
    } else {
        a
    }
}

/// Whether `b` was read for what was drawn, the next cell and the word behind it.
spec fn cell_woven<L: LineAnnotation>(
    t: FormatterView<L>,
    drawn: Seq<FormattedView>,
    cell: Option<CellView>,
    b: Seq<Item>,
    all: Seq<Item>,
) -> bool {
    let p = t.char_pos + total_covered(as_cells(cell) + t.waiting());
    &&& t.in_tune(p)
    &&& woven(
        b,
        given_items(drawn) + items(as_cells(cell)) + items(t.word_buf.skip(t.word_i)),
        t.indicator_items(),
    )
    &&& !t.fmt.soft_wrap ==> b == given_items(drawn) + items(as_cells(cell))
    &&& all == b + items(as_cells(t.peeked)) + t.to_read(p)
    &&& cell is None ==> t.fmt.soft_wrap && stuck(t) || all == b
}

/// The next cell under soft wrap.
proof fn lemma_fetch_wrapped_weaves<L: LineAnnotation>(
    s: FormatterView<L>,
    drawn: Seq<FormattedView>,
    a: Seq<Item>,
) -> (b: Seq<Item>)
    requires
        s.in_step(),
        s.fmt.soft_wrap,
        s.fetch() is Some,
        s.has_woven(drawn, a),
    ensures
        cell_woven((s.fetch()->0).0, drawn, (s.fetch()->0).1, b, s.in_all(a)),
{
    let (t, cell) = s.fetch()->0;
    let b = lemma_ready_weaves(s, drawn, a);
    let ready = made_ready(s);
    let p = ready.char_pos + total_covered(ready.waiting());
    lemma_same_stream(ready, t, p);
    assert(ready.waiting() =~= as_cells(cell) + t.waiting());
    let rest = items(t.word_buf.skip(t.word_i));
    assert(items(ready.word_buf.skip(ready.word_i)) =~= items(as_cells(cell)) + rest);
    assert(given_items(drawn) + items(as_cells(cell)) + rest =~= given_items(drawn) + (items(
        as_cells(cell),
    ) + rest));
    b
}

/// The next cell without soft wrap.
proof fn lemma_fetch_unwrapped_weaves<L: LineAnnotation>(
    s: FormatterView<L>,
    drawn: Seq<FormattedView>,
    a: Seq<Item>,
) -> (b: Seq<Item>)
    requires
        s.in_step(),
        !s.fmt.soft_wrap,
        s.fetch() is Some,
        s.has_woven(drawn, a),
    ensures
        cell_woven((s.fetch()->0).0, drawn, (s.fetch()->0).1, b, s.in_all(a)),
{
    lemma_fetch_tracks(s);
    let (t, cell) = s.fetch()->0;
    let none = Seq::<CellView>::empty();
    let b = a + items(as_cells(cell));
    assert(s.waiting() =~= none);
    assert(t.waiting() =~= none);
    lemma_advance_streams(s, none, s.visual_pos.col as int, s.char_pos);
    assert(items(t.word_buf.skip(t.word_i)) =~= Seq::<Item>::empty());
    assert(items(s.word_buf.skip(s.word_i)) =~= Seq::<Item>::empty());
    assert(items(as_cells(s.peeked)) =~= Seq::<Item>::empty());
    assert(items(as_cells(t.peeked)) =~= Seq::<Item>::empty());
    assert(given_items(drawn) + Seq::<Item>::empty() =~= given_items(drawn));
    assert(as_cells(cell) + t.waiting() =~= as_cells(cell));
    assert(b + Seq::<Item>::empty() =~= b);
    assert(s.in_all(a) =~= a + s.to_read(s.char_pos as int));
    match cell {
        Some(c) => {
            assert(total_covered(seq![c]) == c.source.covered()) by {
                reveal_with_fuel(total_covered, 2);
            }
            assert(items(as_cells(cell)) =~= seq![item(c)]);
            lemma_woven_push(a, given_items(drawn), s.indicator_items(), item(c));
            assert(a.push(item(c)) =~= b);
            assert(given_items(drawn).push(item(c)) =~= given_items(drawn) + seq![item(c)]);
            assert(a + s.to_read(s.char_pos as int) =~= b + t.to_read(
                s.char_pos + c.source.covered(),
            ));
        },
        None => {
            assert(items(as_cells(cell)) =~= Seq::<Item>::empty());
            assert(b =~= a);
            assert(s.in_all(a) =~= b);
            assert(s.in_all(a) =~= b + t.to_read(s.char_pos as int));
        },
    }
    b
}

/// A cell that is put on the screen is drawn.
proof fn lemma_place_weaves<L: LineAnnotation>(
    s: FormatterView<L>,
    drawn: Seq<FormattedView>,
    cell: CellView,
    b: Seq<Item>,
    all: Seq<Item>,
)
    requires
        s.tracks(seq![cell] + s.waiting()),
        s.place(cell) is Some,
        cell_woven(s, drawn, Some(cell), b, all),
    ensures
        ({
            let (t, g) = s.place(cell)->0;
            &&& t.has_woven(drawn.push(g), b)
            &&& t.in_all(b) == all
            &&& t.fmt == s.fmt
            &&& t.wrap_indicator == s.wrap_indicator
        }),
{
    lemma_place_tracks(s, cell);
    let (t, g) = s.place(cell)->0;
    let q = s.char_pos + total_covered(seq![cell] + s.waiting());
    lemma_total_covered_add(seq![cell], s.waiting());
    assert(total_covered(seq![cell]) == cell.source.covered()) by {
        reveal_with_fuel(total_covered, 2);
    }
    lemma_same_stream(s, t, q);
    let rest = items(t.word_buf.skip(t.word_i));
    assert(given_items(drawn.push(g)) =~= given_items(drawn) + items(as_cells(Some(cell))));
}

/// One step of the layout changes nothing in what is read.
proof fn lemma_next_weaves<L: LineAnnotation>(
    s: FormatterView<L>,
    drawn: Seq<FormattedView>,
    a: Seq<Item>,
) -> (b: Seq<Item>)
    requires
        s.in_step(),
        s.next() is Some,
        s.has_woven(drawn, a),
    ensures
        ({
            let (t, found) = s.next()->0;
            &&& t.has_woven(
                match found {
                    Some(g) => drawn.push(g),
                    None => drawn,
                },
                b,
            )
            &&& t.in_all(b) == s.in_all(a)
            &&& found is None ==> t.fmt.soft_wrap && stuck(t) || t.in_all(b) == b
            &&& t.fmt == s.fmt
            &&& t.wrap_indicator == s.wrap_indicator
        }),
{
    lemma_fetch_tracks(s);
    let (t, cell) = s.fetch()->0;
    let b = if s.fmt.soft_wrap {
        lemma_fetch_wrapped_weaves(s, drawn, a)
    } else {
        lemma_fetch_unwrapped_weaves(s, drawn, a)
    };
    if cell is Some {
        lemma_place_weaves(t, drawn, cell->0, b, s.in_all(a));
    } else {
        assert(as_cells(cell) + t.waiting() =~= t.waiting());
        assert(items(as_cells(cell)) =~= Seq::<Item>::empty());
        assert(given_items(drawn) + Seq::<Item>::empty() =~= given_items(drawn));
    }
    b
}

/// The steps of a layout change nothing in what is read.
proof fn lemma_run_weaves<L: LineAnnotation>(s: FormatterView<L>, n: nat) -> (b: Seq<Item>)
    requires
        s.in_step(),
        s.has_woven(Seq::empty(), Seq::empty()),
        s.run(n) is Some,
    ensures
        ({
            let (t, drawn) = s.run(n)->0;
            &&& t.in_step()
            &&& t.has_woven(drawn, b)
            &&& t.in_all(b) == s.in_all(Seq::empty())
            &&& t.fmt == s.fmt
            &&& t.wrap_indicator == s.wrap_indicator
        }),
    decreases n,
{
    law_layout_reads_the_document(s, n);
    if n > 0 {
        let a = lemma_run_weaves(s, (n - 1) as nat);
        let (t, drawn) = s.run((n - 1) as nat)->0;
        lemma_next_weaves(t, drawn, a)
    } else {
        Seq::empty()
    }
}

/// The law of what is drawn. A layout that has come to its end has given, in order, the whole
/// marker of each fold and each grapheme of the document that no fold hides, drawn as the
/// overlay of its first char if that has one; with the inline annotations of that char, each of
/// them whole, before it, or behind it if it ends a line; and last the blank behind the text and
/// its annotations. Nothing else was given, but for whole wrap indicators under soft wrap.
pub proof fn law_layout_gives_the_drawing<L: LineAnnotation>(
    text: Seq<char>,
    fmt: TextFormat,
    annotations: AnnotationsView<L>,
    start: usize,
    doc: Seq<Seq<char>>,
    wrap_indicator: Seq<Seq<char>>,
    fold_marker: Seq<Seq<char>>,
    n: nat,
)
    requires
        fmt.tab_width > 0,
        start <= text.len(),
        doc.flatten() == text.skip(start as int),
        well_segmented(doc),
        counted(doc, annotations.folds),
        fold_marker.len() > 0,
        ({
            let s = FormatterView::at_block(
                text,
                fmt,
                annotations,
                start,
                doc,
                wrap_indicator,
                fold_marker,
            );
            &&& s.drawing().sorted()
            &&& s.run(n) is Some
            &&& (s.run(n)->0).0.next() is Some
            &&& ((s.run(n)->0).0.next()->0).1 is None
            &&& !stuck(((s.run(n)->0).0.next()->0).0)
        }),
    ensures
        ({
            let s = FormatterView::at_block(
                text,
                fmt,
                annotations,
                start,
                doc,
                wrap_indicator,
                fold_marker,
            );
            let drawn = given_items((s.run(n)->0).1);
            let all = s.drawing().stream(doc, start as int);
            &&& !fmt.soft_wrap ==> drawn == all
            &&& woven(all, drawn, virtual_items(wrap_indicator, fmt.wrap_indicator_highlight))
        }),
{
    let s = FormatterView::at_block(
        text,
        fmt,
        annotations,
        start,
        doc,
        wrap_indicator,
        fold_marker,
    );
    let none = Seq::<Item>::empty();
    law_block_starts_in_step(text, fmt, annotations, start, doc, wrap_indicator, fold_marker);
    lemma_block_streams(text, fmt, annotations, start, doc, wrap_indicator, fold_marker);
    assert(s.waiting() =~= Seq::<CellView>::empty());
    assert(given_items(Seq::empty()) + items(s.word_buf.skip(s.word_i)) =~= none);
    assert(given_items(Seq::empty()) =~= none);
    assert(s.has_woven(Seq::empty(), none));
    assert(s.in_all(none) =~= s.drawing().stream(doc, start as int));
    let a = lemma_run_weaves(s, n);
    let (t, drawn) = s.run(n)->0;
    let b = lemma_next_weaves(t, drawn, a);
    let u = (t.next()->0).0;
    lemma_fetch_tracks(t);
    law_layout_reads_the_document(s, n);
    assert(items(u.word_buf.skip(u.word_i)) =~= none);
    assert(given_items(drawn) + none =~= given_items(drawn));
}

/// The law of what has been drawn. Without soft wrap, however many steps were made, what was
/// given is what is to be given, as far as it goes: nothing is left out, put in or given in
/// another order. So there are no more graphemes than that.
pub proof fn law_layout_begins_the_drawing<L: LineAnnotation>(
    text: Seq<char>,
    fmt: TextFormat,
    annotations: AnnotationsView<L>,
    start: usize,
    doc: Seq<Seq<char>>,
    wrap_indicator: Seq<Seq<char>>,
    fold_marker: Seq<Seq<char>>,
    n: nat,
)
    requires
        fmt.tab_width > 0,
        !fmt.soft_wrap,
        start <= text.len(),
        doc.flatten() == text.skip(start as int),
        well_segmented(doc),
        counted(doc, annotations.folds),
        fold_marker.len() > 0,
        ({
            let s = FormatterView::at_block(
                text,
                fmt,
                annotations,
                start,
                doc,
                wrap_indicator,
                fold_marker,
            );
            s.drawing().sorted() && s.run(n) is Some
        }),
    ensures
        ({
            let s = FormatterView::at_block(
                text,
                fmt,
                annotations,
                start,
                doc,
                wrap_indicator,
                fold_marker,
            );
            let drawn = given_items((s.run(n)->0).1);
            let all = s.drawing().stream(doc, start as int);
            drawn.len() <= all.len() && drawn == all.take(drawn.len() as int)
        }),
{
    let s = FormatterView::at_block(
        text,
        fmt,
        annotations,
        start,
        doc,
        wrap_indicator,
        fold_marker,
    );
    let none = Seq::<Item>::empty();
    law_block_starts_in_step(text, fmt, annotations, start, doc, wrap_indicator, fold_marker);
    lemma_block_streams(text, fmt, annotations, start, doc, wrap_indicator, fold_marker);
    assert(s.waiting() =~= Seq::<CellView>::empty());
    assert(given_items(Seq::empty()) + items(s.word_buf.skip(s.word_i)) =~= none);
    assert(given_items(Seq::empty()) =~= none);
    assert(s.has_woven(Seq::empty(), none));
    assert(s.in_all(none) =~= s.drawing().stream(doc, start as int));
    let a = lemma_run_weaves(s, n);
    let (t, drawn) = s.run(n)->0;
    assert(a == given_items(drawn));
    assert(t.in_all(a).take(a.len() as int) =~= a);
}

} // verus!
