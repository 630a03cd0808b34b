//! Where the rows of a whole layout start.

use crate::course::{lemma_fetch_goes_on, lemma_step_goes_its_course};
use crate::formatted::{CellView, FormattedView};
use crate::graphemes::GraphemeView;
use crate::layout::{lemma_advance_frame, total_width, FormatterView};
use crate::reading::{
    as_cells, counted, law_step_reads_the_document, lemma_fetch_tracks, made_ready,
};
use crate::rows::{is_set, law_word_is_set, lead_over, no_breaks, own_cells, Lead};
use crate::runs::lemma_block_is_quiet;
use crate::stream::{given_items, items, virtual_items, Item};
use crate::tabs::{lemma_advance_tab, lemma_word_tabs, tab_fits, tabs_fit};
use crate::text_annotations::{AnnotationsView, LineAnnotation};
use crate::text_format::TextFormat;
use crate::unicode::well_segmented;
use vstd::prelude::*;

verus! {

/// Whether grapheme `i` is the first on a row that goes on with the line of the row above.
pub open spec fn continues(drawn: Seq<FormattedView>, i: int) -> bool {
    &&& 0 < i < drawn.len()
    &&& drawn[i].visual_pos.row > drawn[i - 1].visual_pos.row
    &&& !(drawn[i - 1].raw is Newline)
}

/// The indentation of the line that the graphemes end with.
pub open spec fn lead_of(drawn: Seq<FormattedView>) -> Lead
    decreases drawn.len(),
{
    if drawn.len() == 0 {
        Lead { open: true, col: 0 }
    } else {
        let before = lead_of(drawn.drop_last());
        let g = drawn.last();
        (if continues(drawn, drawn.len() - 1) {
            before.on_next_row()
        } else {
            before
        }).after(g.raw, g.visual_pos.col as int)
    }
}

/// The columns that graphemes take side by side.
pub open spec fn span(graphemes: Seq<GraphemeView>) -> nat
    decreases graphemes.len(),
{
    if graphemes.len() == 0 {
        0
    } else {
        span(graphemes.drop_last()) + graphemes.last().width()
    }
}

/// The graphemes that were drawn, and those of the cells that wait.
pub open spec fn raws(drawn: Seq<FormattedView>, rest: Seq<CellView>) -> Seq<GraphemeView> {
    Seq::new(drawn.len(), |i: int| drawn[i].raw) + Seq::new(
        rest.len(),
        |i: int| rest[i].grapheme,
    )
}

/// Whether the `j` graphemes from place `from` on, which are part of a word, would fill a row to
/// the edge behind column `end`, and are no wider than a word that may be moved.
pub open spec fn would_reach(
    fmt: TextFormat,
    graphemes: Seq<GraphemeView>,
    from: int,
    j: int,
    end: int,
) -> bool {
    let moved = graphemes.subrange(from, from + j);
    &&& 0 <= j && from + j <= graphemes.len()
    &&& forall|k: int| from <= k < from + j ==> !(#[trigger] graphemes[k]).is_word_boundary()
    &&& end + span(moved) >= fmt.viewport_width
    &&& span(moved) <= fmt.max_wrap
}

/// What holds of a grapheme that starts a row which goes on with a line: the indentation, the
/// wrap indicator, and why the row above is broken.
pub open spec fn starts_row(
    fmt: TextFormat,
    indicator: Seq<Item>,
    drawn: Seq<FormattedView>,
    rest: Seq<CellView>,
    i: int,
) -> bool {
    let before = drawn[i - 1];
    let from = i + indicator.len();
    let all = given_items(drawn) + items(rest);
    &&& drawn[i].visual_pos.col == lead_of(drawn.take(i)).kept(fmt.max_indent_retain)
    &&& from <= all.len()
    &&& all.subrange(i, from) == indicator
    &&& exists|j: int| #[trigger]
        would_reach(
            fmt,
            raws(drawn, rest),
            from,
            j,
            before.visual_pos.col + before.raw.width(),
        )
}

/// Whether all tabs that were drawn reach a tab stop.
pub open spec fn drawn_tabs_fit(drawn: Seq<FormattedView>, tab_width: int) -> bool {
    forall|i: int|
        0 <= i < drawn.len() ==> tab_fits(
            (#[trigger] drawn[i]).raw,
            drawn[i].visual_pos.col as int,
            tab_width,
        )
}

impl<L: LineAnnotation> FormatterView<L> {
    /// Whether the state is right behind the last grapheme that was drawn.
    spec fn right_behind(self, drawn: Seq<FormattedView>) -> bool {
        if drawn.len() == 0 {
            self.visual_pos.col == 0
        } else {
            let last = drawn.last();
            if last.raw is Newline {
                self.visual_pos.col == 0
            } else {
                &&& self.visual_pos.row == last.visual_pos.row
                &&& self.visual_pos.col == last.visual_pos.col + last.raw.width()
            }
        }
    }

    /// What holds between two steps.
    spec fn in_rows(self, drawn: Seq<FormattedView>) -> bool {
        let rest = self.word_buf.skip(self.word_i);
        &&& self.in_step()
        &&& self.quiet()
        &&& self.has_room()
        &&& self.plain_words()
        &&& self.right_behind(drawn)
        &&& rest.len() > 0 ==> no_breaks(rest.drop_last())
        &&& self.knows(lead_over(lead_of(drawn), self.visual_pos.col as int, rest))
        &&& self.word_fits()
        &&& drawn_tabs_fit(drawn, self.fmt.tab_width as int)
        &&& forall|i: int| #[trigger]
            continues(drawn, i) ==> starts_row(self.fmt, self.indicator_items(), drawn, rest, i)
    }
}

proof fn lemma_span(cells: Seq<CellView>)
    ensures
        span(Seq::new(cells.len(), |i: int| cells[i].grapheme)) == total_width(cells),
    decreases cells.len(),
{
    let graphemes = Seq::new(cells.len(), |i: int| cells[i].grapheme);
    if cells.len() > 0 {
        let init = cells.drop_last();
        lemma_span(init);
        assert(graphemes.drop_last() =~= Seq::new(init.len(), |i: int| init[i].grapheme));
    }
}

/// The indentation behind one cell and those that follow.
proof fn lemma_lead_shift(lead: Lead, x: int, cell: CellView, rest: Seq<CellView>)
    ensures
        lead_over(lead, x, seq![cell] + rest) == lead_over(
            lead.after(cell.grapheme, x),
            x + cell.grapheme.width(),
            rest,
        ),
        total_width(seq![cell] + rest) == cell.grapheme.width() + total_width(rest),
    decreases rest.len(),
{
    let cells = seq![cell] + rest;
    if rest.len() == 0 {
        assert(cells =~= seq![cell]);
        assert(cells.drop_last() =~= Seq::<CellView>::empty());
        assert(total_width(cells.drop_last()) == 0);
        assert(lead_over(lead, x, cells.drop_last()) == lead);
    } else {
        lemma_lead_shift(lead, x, cell, rest.drop_last());
        assert(cells.drop_last() =~= seq![cell] + rest.drop_last());
    }
}

/// A grapheme that is drawn was waiting before.
proof fn lemma_starts_row_kept(
    fmt: TextFormat,
    indicator: Seq<Item>,
    drawn: Seq<FormattedView>,
    g: FormattedView,
    cell: CellView,
    rest: Seq<CellView>,
    i: int,
)
    requires
        g.raw == cell.grapheme,
        g.source == cell.source,
        continues(drawn, i),
        starts_row(fmt, indicator, drawn, seq![cell] + rest, i),
    ensures
        starts_row(fmt, indicator, drawn.push(g), rest, i),
{
    let cells = seq![cell] + rest;
    assert(given_items(drawn) + items(cells) =~= given_items(drawn.push(g)) + items(rest));
    assert(raws(drawn, cells) =~= raws(drawn.push(g), rest));
    assert(drawn.push(g).take(i) =~= drawn.take(i));
}

/// What holds where the row is broken before the cells that wait.
spec fn row_breaks(
    fmt: TextFormat,
    indicator: Seq<Item>,
    drawn: Seq<FormattedView>,
    rest: Seq<CellView>,
    col: int,
) -> bool {
    let n = indicator.len() as int;
    &&& col == lead_of(drawn).kept(fmt.max_indent_retain)
    &&& n <= rest.len()
    &&& items(rest.take(n)) == indicator
    &&& exists|j: int| #[trigger]
        would_reach(
            fmt,
            raws(drawn, rest),
            drawn.len() + n,
            j,
            drawn.last().visual_pos.col + drawn.last().raw.width(),
        )
}

/// The first grapheme behind a row that is broken starts the next one.
proof fn lemma_starts_row_new(
    fmt: TextFormat,
    indicator: Seq<Item>,
    drawn: Seq<FormattedView>,
    g: FormattedView,
    cell: CellView,
    rest: Seq<CellView>,
)
    requires
        g.raw == cell.grapheme,
        g.source == cell.source,
        drawn.len() > 0,
        row_breaks(fmt, indicator, drawn, seq![cell] + rest, g.visual_pos.col as int),
    ensures
        starts_row(fmt, indicator, drawn.push(g), rest, drawn.len() as int),
{
    let cells = seq![cell] + rest;
    let after = drawn.push(g);
    let i = drawn.len() as int;
    let n = indicator.len() as int;
    assert(raws(drawn, cells) =~= raws(after, rest));
    assert(after.take(i) =~= drawn);
    assert((given_items(after) + items(rest)).subrange(i, i + n) =~= items(cells.take(n)));
}

/// What holds when the next cell is at hand.
spec fn at_hand<L: LineAnnotation>(
    s: FormatterView<L>,
    drawn: Seq<FormattedView>,
    r: FormatterView<L>,
    broke: bool,
) -> bool {
    let rest = r.word_buf.skip(r.word_i);
    let lead = lead_of(drawn);
    &&& r.fmt == s.fmt
    &&& r.wrap_indicator == s.wrap_indicator
    &&& r.plain_words()
    &&& r.word_fits()
    &&& rest.len() > 0 ==> no_breaks(rest.drop_last())
    &&& r.knows(
        lead_over(
            if broke {
                lead.on_next_row()
            } else {
                lead
            },
            r.visual_pos.col as int,
            rest,
        ),
    )
    &&& if broke {
        &&& drawn.len() > 0
        &&& !(drawn.last().raw is Newline)
        &&& r.visual_pos.row > drawn.last().visual_pos.row
        &&& row_breaks(r.fmt, r.indicator_items(), drawn, rest, r.visual_pos.col as int)
    } else {
        r.visual_pos == s.visual_pos
    }
    &&& forall|i: int| #[trigger]
        continues(drawn, i) ==> starts_row(r.fmt, r.indicator_items(), drawn, rest, i)
}

/// A word that breaks the row would have reached the edge.
proof fn lemma_broken<L: LineAnnotation>(
    s: FormatterView<L>,
    drawn: Seq<FormattedView>,
    t: FormatterView<L>,
    j: int,
)
    requires
        s.right_behind(drawn),
        is_set(s, lead_of(drawn), t, Some(j)),
    ensures
        drawn.len() > 0,
        !(drawn.last().raw is Newline),
        ({
            let n = t.wrap_indicator.len() as int;
            &&& items(t.word_buf.take(n)) == t.indicator_items()
            &&& would_reach(
                t.fmt,
                raws(drawn, t.word_buf),
                drawn.len() + n,
                j,
                drawn.last().visual_pos.col + drawn.last().raw.width(),
            )
        }),
{
    let n = t.wrap_indicator.len() as int;
    let own = own_cells(t, Some(j));
    let all = raws(drawn, t.word_buf);
    let from = drawn.len() + n;
    let moved = Seq::new(own.take(j).len(), |i: int| own.take(j)[i].grapheme);
    lemma_span(own.take(j));
    assert(all.subrange(from, from + j) =~= moved);
    assert forall|k: int| from <= k < from + j implies !(
    #[trigger] all[k]).is_word_boundary() by {
        assert(all[k] == own.take(j)[k - from].grapheme);
    }
    assert(items(t.word_buf.take(n)) =~= t.indicator_items());
}

/// Making the next cell ready.
proof fn lemma_ready_rows<L: LineAnnotation>(
    s: FormatterView<L>,
    drawn: Seq<FormattedView>,
) -> (broke: bool)
    requires
        s.in_rows(drawn),
        s.fmt.soft_wrap,
        s.fetch() is Some,
        (s.fetch()->0).1 is Some,
    ensures
        at_hand(s, drawn, made_ready(s), broke),
{
    let r = made_ready(s);
    if s.word_i >= s.word_buf.len() {
        let none = Seq::<CellView>::empty();
        let t = s.advance_to_next_word()->0;
        assert(s.word_buf.skip(s.word_i) =~= none);
        assert(r.word_buf.skip(0) =~= t.word_buf);
        assert(s.knows(lead_of(drawn)));
        let broke = law_word_is_set(s, lead_of(drawn));
        lemma_word_tabs(s, lead_of(drawn));
        assert forall|i: int| #[trigger] continues(drawn, i) implies starts_row(
            r.fmt,
            r.indicator_items(),
            drawn,
            t.word_buf,
            i,
        ) by {
            lemma_starts_row_longer(s.fmt, s.indicator_items(), drawn, t.word_buf, i);
        }
        if broke is Some {
            lemma_broken(s, drawn, t, broke->0);
            assert(row_breaks(
                r.fmt,
                r.indicator_items(),
                drawn,
                t.word_buf,
                r.visual_pos.col as int,
            ));
        }
        broke is Some
    } else {
        false
    }
}

/// What was drawn stays as it is when the next word comes.
proof fn lemma_starts_row_longer(
    fmt: TextFormat,
    indicator: Seq<Item>,
    drawn: Seq<FormattedView>,
    rest: Seq<CellView>,
    i: int,
)
    requires
        continues(drawn, i),
        starts_row(fmt, indicator, drawn, Seq::empty(), i),
    ensures
        starts_row(fmt, indicator, drawn, rest, i),
{
    let none = Seq::<CellView>::empty();
    let from = i + indicator.len();
    let before = drawn[i - 1];
    let end = before.visual_pos.col + before.raw.width();
    assert((given_items(drawn) + items(rest)).subrange(i, from) =~= (given_items(drawn) + items(
        none,
    )).subrange(i, from));
    let all = raws(drawn, none);
    let j = choose|j: int| #[trigger] would_reach(fmt, all, from, j, end);
    assert(raws(drawn, rest).subrange(from, from + j) =~= all.subrange(from, from + j));
    assert forall|k: int| from <= k < from + j implies !(
    #[trigger] raws(drawn, rest)[k]).is_word_boundary() by {
        assert(all[k] == raws(drawn, rest)[k]);
    }
    assert(would_reach(fmt, raws(drawn, rest), from, j, end));
}

/// The first of cells that fit, and those behind it.
proof fn lemma_tabs_shift(cell: CellView, rest: Seq<CellView>, x: int, tab_width: int)
    requires
        tabs_fit(seq![cell] + rest, x, tab_width),
    ensures
        tab_fits(cell.grapheme, x, tab_width),
        tabs_fit(rest, x + cell.grapheme.width(), tab_width),
        total_width(seq![cell] + rest) == cell.grapheme.width() + total_width(rest),
{
    let cells = seq![cell] + rest;
    assert(cells[0] == cell);
    assert(total_width(cells.take(0)) == 0);
    lemma_lead_shift(Lead { open: true, col: 0 }, x, cell, rest);
    assert forall|i: int| 0 <= i < rest.len() implies tab_fits(
        (#[trigger] rest[i]).grapheme,
        x + cell.grapheme.width() + total_width(rest.take(i)),
        tab_width,
    ) by {
        assert(cells[i + 1] == rest[i]);
        assert(cells.take(i + 1) =~= seq![cell] + rest.take(i));
        lemma_lead_shift(Lead { open: true, col: 0 }, x, cell, rest.take(i));
    }
}

/// What a cell does that is put on the screen and is no annotated line end.
spec fn put<L: LineAnnotation>(
    r: FormatterView<L>,
    cell: CellView,
    t: FormatterView<L>,
    g: FormattedView,
) -> bool {
    &&& g.raw == cell.grapheme
    &&& g.source == cell.source
    &&& g.visual_pos == r.visual_pos
    &&& t.fmt == r.fmt
    &&& t.wrap_indicator == r.wrap_indicator
    &&& t.indent_level == r.indent_level
    &&& t.peeked == r.peeked
    &&& r.word_buf.skip(r.word_i) == seq![cell] + t.word_buf.skip(t.word_i)
    &&& r.plain_words() ==> t.plain_words()
    &&& if cell.grapheme is Newline {
        t.visual_pos.col == 0
    } else {
        &&& t.visual_pos.row == r.visual_pos.row
        &&& t.visual_pos.col == r.visual_pos.col + cell.grapheme.width()
    }
}

proof fn lemma_put<L: LineAnnotation>(
    r: FormatterView<L>,
    cell: CellView,
    fetched: FormatterView<L>,
)
    requires
        0 <= r.word_i < r.word_buf.len(),
        cell == r.word_buf[r.word_i],
        fetched == (FormatterView {
            word_buf: r.word_buf.update(r.word_i, CellView::blank()),
            word_i: r.word_i + 1,
            ..r
        }),
        !fetched.pending_eol,
        !cell.after_line_end,
        fetched.place(cell) is Some,
    ensures
        put(r, cell, (fetched.place(cell)->0).0, (fetched.place(cell)->0).1),
{
    let (t, g) = fetched.place(cell)->0;
    assert(r.word_buf.skip(r.word_i) =~= seq![cell] + t.word_buf.skip(t.word_i));
}

/// The tabs behind a cell that is put on the screen.
proof fn lemma_put_tabs<L: LineAnnotation>(
    r: FormatterView<L>,
    cell: CellView,
    t: FormatterView<L>,
    g: FormattedView,
)
    requires
        put(r, cell, t, g),
        r.word_fits(),
        no_breaks(r.word_buf.skip(r.word_i).drop_last()),
    ensures
        t.word_fits(),
        tab_fits(g.raw, g.visual_pos.col as int, t.fmt.tab_width as int),
{
    let cells = r.word_buf.skip(r.word_i);
    let rest = t.word_buf.skip(t.word_i);
    lemma_tabs_shift(cell, rest, r.visual_pos.col as int, r.fmt.tab_width as int);
    if rest.len() > 0 {
        assert(cells.drop_last()[0] == cell);
        assert(cells.last() == rest.last());
    } else {
        assert(cells.last() == cell);
        assert(total_width(rest) == 0);
    }
}

/// Putting the cell at hand on the screen.
proof fn lemma_place_rows<L: LineAnnotation>(
    s: FormatterView<L>,
    drawn: Seq<FormattedView>,
    r: FormatterView<L>,
    broke: bool,
    cell: CellView,
    fetched: FormatterView<L>,
)
    requires
        s.right_behind(drawn),
        at_hand(s, drawn, r, broke),
        r.has_room(),
        drawn_tabs_fit(drawn, r.fmt.tab_width as int),
        0 <= r.word_i < r.word_buf.len(),
        cell == r.word_buf[r.word_i],
        fetched == (FormatterView {
            word_buf: r.word_buf.update(r.word_i, CellView::blank()),
            word_i: r.word_i + 1,
            ..r
        }),
        !fetched.pending_eol,
        !cell.after_line_end,
        fetched.place(cell) is Some,
        ({
            let t = (fetched.place(cell)->0).0;
            t.in_step() && t.quiet()
        }),
    ensures
        ({
            let (t, g) = fetched.place(cell)->0;
            t.in_rows(drawn.push(g))
        }),
{
    let (t, g) = fetched.place(cell)->0;
    let lead = lead_of(drawn);
    let cells = r.word_buf.skip(r.word_i);
    let rest = t.word_buf.skip(t.word_i);
    let after = drawn.push(g);
    lemma_put(r, cell, fetched);
    lemma_put_tabs(r, cell, t, g);
    assert(after.drop_last() =~= drawn);
    let l = if broke {
        lead.on_next_row()
    } else {
        lead
    };
    lemma_lead_shift(l, r.visual_pos.col as int, cell, rest);
    assert(continues(after, drawn.len() as int) == broke);
    assert(lead_of(after) == l.after(g.raw, g.visual_pos.col as int));
    if rest.len() > 0 {
        assert(cells.drop_last()[0] == cell);
    }
    assert forall|i: int|
        rest.len() > 0 && 0 <= i < rest.drop_last().len() implies !((
    #[trigger] rest.drop_last()[i]).grapheme is Newline) by {
        assert(rest.drop_last()[i] == cells.drop_last()[i + 1]);
    }
    assert(t.has_room());
    assert(t.knows(lead_over(lead_of(after), t.visual_pos.col as int, rest)));
    assert(drawn_tabs_fit(after, t.fmt.tab_width as int));
    assert forall|i: int| #[trigger] continues(after, i) implies starts_row(
        t.fmt,
        t.indicator_items(),
        after,
        rest,
        i,
    ) by {
        let indicator = t.indicator_items();
        assert(indicator == r.indicator_items());
        if i < drawn.len() {
            assert(continues(drawn, i));
            lemma_starts_row_kept(t.fmt, indicator, drawn, g, cell, rest, i);
        } else {
            lemma_starts_row_new(t.fmt, indicator, drawn, g, cell, rest);
        }
    }
}

/// One step of the layout.
proof fn lemma_step_rows<L: LineAnnotation>(s: FormatterView<L>, drawn: Seq<FormattedView>)
    requires
        s.in_rows(drawn),
        s.fmt.soft_wrap,
        s.next() is Some,
        (s.next()->0).1 is Some,
    ensures
        ({
            let (t, found) = s.next()->0;
            &&& t.in_rows(drawn.push(found->0))
            &&& t.fmt == s.fmt
            &&& t.wrap_indicator == s.wrap_indicator
        }),
{
    let (fetched, cell) = s.fetch()->0;
    let r = made_ready(s);
    law_step_reads_the_document(s);
    lemma_step_goes_its_course(s);
    lemma_fetch_goes_on(s);
    lemma_fetch_tracks(s);
    let broke = lemma_ready_rows(s, drawn);
    let cells = as_cells(cell) + fetched.waiting();
    assert(cells[0] == cell->0);
    assert(r.has_room());
    lemma_place_rows(s, drawn, r, broke, cell->0, fetched);
}

/// The steps of a layout.
proof fn lemma_run_rows<L: LineAnnotation>(s: FormatterView<L>, n: nat)
    requires
        s.in_rows(Seq::empty()),
        s.fmt.soft_wrap,
        s.run(n) is Some,
        (s.run(n)->0).1.len() == n,
    ensures
        ({
            let (t, drawn) = s.run(n)->0;
            &&& t.in_rows(drawn)
            &&& t.fmt == s.fmt
            &&& t.wrap_indicator == s.wrap_indicator
        }),
    decreases n,
{
    if n > 0 {
        lemma_run_len(s, (n - 1) as nat);
        lemma_run_rows(s, (n - 1) as nat);
        let (t, drawn) = s.run((n - 1) as nat)->0;
        lemma_step_rows(t, drawn);
    }
}

/// No step gives more than one grapheme.
proof fn lemma_run_len<L: LineAnnotation>(s: FormatterView<L>, n: nat)
    requires
        s.run(n) is Some,
    ensures
        (s.run(n)->0).1.len() <= n,
    decreases n,
{
    if n > 0 {
        lemma_run_len(s, (n - 1) as nat);
    }
}

/// The law of rows. Let a line be too wide for the viewport, so that grapheme `i` starts another
/// row of it. That row starts at the column of the first grapheme of the line that is no
/// whitespace, if that is on the first row of the line and at most `max_indent_retain`, and at
/// column 0 otherwise. It starts with the whole wrap indicator. What follows is part of a word
/// that would have reached the edge on the row above, and is not too wide to be moved. It is
/// given as far as it has been drawn; the rest of it waits. There is room for a word that may
/// be moved, there are no inline annotations, nothing that is drawn is both whitespace and made
/// of the chars of words, and the wrap indicator is no line break.
pub proof fn law_rows_start_at_the_indentation<L: LineAnnotation>(
    text: Seq<char>,
    fmt: TextFormat,
    annotations: AnnotationsView<L>,
    start: usize,
    doc: Seq<Seq<char>>,
    wrap_indicator: Seq<Seq<char>>,
    fold_marker: Seq<Seq<char>>,
    n: nat,
    i: int,
)
    requires
        fmt.tab_width > 0,
        fmt.soft_wrap,
        start <= text.len(),
        doc.flatten() == text.skip(start as int),
        well_segmented(doc),
        fold_marker.len() > 0,
        counted(doc, annotations.folds),
        annotations.inline.len() == 0,
        ({
            let s = FormatterView::at_block(
                text,
                fmt,
                annotations,
                start,
                doc,
                wrap_indicator,
                fold_marker,
            );
            &&& s.plain_words()
            &&& s.has_room()
            &&& s.run(n) is Some
            &&& (s.run(n)->0).1.len() == n
            &&& continues((s.run(n)->0).1, i)
        }),
    ensures
        ({
            let s = FormatterView::at_block(
                text,
                fmt,
                annotations,
                start,
                doc,
                wrap_indicator,
                fold_marker,
            );
            let (t, drawn) = s.run(n)->0;
            starts_row(
                fmt,
                virtual_items(wrap_indicator, fmt.wrap_indicator_highlight),
                drawn,
                t.word_buf.skip(t.word_i),
                i,
            )
        }),
{
    let s = FormatterView::at_block(
        text,
        fmt,
        annotations,
        start,
        doc,
        wrap_indicator,
        fold_marker,
    );
    lemma_block_is_quiet(text, fmt, annotations, start, doc, wrap_indicator, fold_marker);
    assert(s.in_rows(Seq::empty()));
    lemma_run_rows(s, n);
}

/// The law of tabs under soft wrap. Every tab that is drawn ends at a multiple of the tab width,
/// a column at least and no more than the tab width behind its start, on whatever row it is.
/// There is room for a word that may be moved, there are no inline annotations, nothing that is
/// drawn is both whitespace and made of the chars of words, and the wrap indicator is no line
/// break.
pub proof fn law_wrapped_tabs_reach_the_stop<L: LineAnnotation>(
    text: Seq<char>,
    fmt: TextFormat,
    annotations: AnnotationsView<L>,
    start: usize,
    doc: Seq<Seq<char>>,
    wrap_indicator: Seq<Seq<char>>,
    fold_marker: Seq<Seq<char>>,
    n: nat,
)
    requires
        fmt.tab_width > 0,
        fmt.soft_wrap,
        start <= text.len(),
        doc.flatten() == text.skip(start as int),
        well_segmented(doc),
        fold_marker.len() > 0,
        counted(doc, annotations.folds),
        annotations.inline.len() == 0,
        ({
            let s = FormatterView::at_block(
                text,
                fmt,
                annotations,
                start,
                doc,
                wrap_indicator,
                fold_marker,
            );
            &&& s.plain_words()
            &&& s.has_room()
            &&& s.run(n) is Some
            &&& (s.run(n)->0).1.len() == n
        }),
    ensures
        ({
            let s = FormatterView::at_block(
                text,
                fmt,
                annotations,
                start,
                doc,
                wrap_indicator,
                fold_marker,
            );
            drawn_tabs_fit((s.run(n)->0).1, fmt.tab_width as int)
        }),
{
    let s = FormatterView::at_block(
        text,
        fmt,
        annotations,
        start,
        doc,
        wrap_indicator,
        fold_marker,
    );
    lemma_block_is_quiet(text, fmt, annotations, start, doc, wrap_indicator, fold_marker);
    assert(s.in_rows(Seq::empty()));
    lemma_run_rows(s, n);
}

/// The law of tabs without soft wrap. Every tab that is drawn ends at a multiple of the tab
/// width, a column at least and no more than the tab width behind its start. There are no
/// inline annotations: a tab behind those of a line break is measured from where they end.
pub proof fn law_tabs_reach_the_stop<L: LineAnnotation>(s: FormatterView<L>, n: nat)
    requires
        s.in_step(),
        s.quiet(),
        !s.fmt.soft_wrap,
        s.run(n) is Some,
    ensures
        ({
            let (t, drawn) = s.run(n)->0;
            &&& t.in_step()
            &&& t.quiet()
            &&& t.fmt == s.fmt
            &&& drawn_tabs_fit(drawn, s.fmt.tab_width as int)
        }),
    decreases n,
{
    if n > 0 {
        law_tabs_reach_the_stop(s, (n - 1) as nat);
        let (t, drawn) = s.run((n - 1) as nat)->0;
        law_step_reads_the_document(t);
        lemma_step_goes_its_course(t);
        lemma_fetch_tracks(t);
        lemma_fetch_goes_on(t);
        lemma_advance_tab(t, t.visual_pos.col as int, t.char_pos);
        lemma_advance_frame(t, t.visual_pos.col as int, t.char_pos);
    }
}

/// The law of the indentation that is kept. Let grapheme `a` be the first of a line, `k` the
/// first of it that is no whitespace, on the same row, and `i` the first of another row of that
/// line. The column of `i` is that of `k`, if that is at most `max_indent_retain`, and 0
/// otherwise.
pub proof fn law_kept_indentation(drawn: Seq<FormattedView>, a: int, k: int, i: int)
    requires
        0 <= a <= k < i <= drawn.len(),
        a == 0 || drawn[a - 1].raw is Newline,
        forall|m: int| a <= m < i ==> !((#[trigger] drawn[m]).raw is Newline),
        forall|m: int| a <= m < k ==> (#[trigger] drawn[m]).raw.is_whitespace(),
        !drawn[k].raw.is_whitespace(),
        forall|m: int|
            a <= m <= k ==> (#[trigger] drawn[m]).visual_pos.row == drawn[a].visual_pos.row,
    ensures
        lead_of(drawn.take(i)) == (Lead { open: false, col: drawn[k].visual_pos.col as int }),
    decreases i,
{
    let init = drawn.take(i - 1);
    assert(drawn.take(i).drop_last() =~= init);
    assert(!(drawn[i - 1].raw is Newline));
    if i - 1 > k {
        law_kept_indentation(drawn, a, k, i - 1);
    } else {
        lemma_open_lead(drawn, a, k);
        assert(drawn[k].visual_pos.row == drawn[a].visual_pos.row);
        if a < k {
            assert(drawn[k - 1].visual_pos.row == drawn[a].visual_pos.row);
        }
        assert(!continues(drawn.take(i), i - 1));
    }
}

/// Behind whitespace on the first row of a line the indentation is open.
proof fn lemma_open_lead(drawn: Seq<FormattedView>, a: int, k: int)
    requires
        0 <= a <= k < drawn.len(),
        a == 0 || drawn[a - 1].raw is Newline,
        forall|m: int| a <= m < k ==> !((#[trigger] drawn[m]).raw is Newline),
        forall|m: int| a <= m < k ==> (#[trigger] drawn[m]).raw.is_whitespace(),
        forall|m: int|
            a <= m < k ==> (#[trigger] drawn[m]).visual_pos.row == drawn[a].visual_pos.row,
    ensures
        lead_of(drawn.take(k)).open,
    decreases k,
{
    if k > a {
        lemma_open_lead(drawn, a, k - 1);
        assert(drawn.take(k).drop_last() =~= drawn.take(k - 1));
        assert(drawn[k - 1].raw.is_whitespace());
        assert(drawn[k - 1].visual_pos.row == drawn[a].visual_pos.row);
        if k - 1 > a {
            assert(drawn[k - 2].visual_pos.row == drawn[a].visual_pos.row);
        }
        assert(!continues(drawn.take(k), k - 1));
    } else if a > 0 {
        assert(drawn.take(a).last() == drawn[a - 1]);
    }
}

/// The law of wrapped lines. Let grapheme `a` of a layout under soft wrap be the first of a line,
/// `k` the first of that line that is no whitespace, on the row of `a`, and let `i` start
/// another row of that line. The column of `i` is that of `k` if that is at most
/// `max_indent_retain`, and 0 otherwise. Where there is nothing but whitespace before `i`, all of
/// it on the row of `a`, it is 0 (`k` is `i` there). Whatever the lines above look like makes no
/// difference.
pub proof fn law_wrapped_line_keeps_its_indentation<L: LineAnnotation>(
    text: Seq<char>,
    fmt: TextFormat,
    annotations: AnnotationsView<L>,
    start: usize,
    doc: Seq<Seq<char>>,
    wrap_indicator: Seq<Seq<char>>,
    fold_marker: Seq<Seq<char>>,
    n: nat,
    a: int,
    k: int,
    i: int,
)
    requires
        fmt.tab_width > 0,
        fmt.soft_wrap,
        start <= text.len(),
        doc.flatten() == text.skip(start as int),
        well_segmented(doc),
        fold_marker.len() > 0,
        counted(doc, annotations.folds),
        annotations.inline.len() == 0,
        ({
            let s = FormatterView::at_block(
                text,
                fmt,
                annotations,
                start,
                doc,
                wrap_indicator,
                fold_marker,
            );
            let drawn = (s.run(n)->0).1;
            &&& s.plain_words()
            &&& s.has_room()
            &&& s.run(n) is Some
            &&& drawn.len() == n
            &&& 0 <= a <= k <= i < n
            &&& a < i
            &&& a == 0 || drawn[a - 1].raw is Newline
            &&& forall|m: int| a <= m < i ==> !((#[trigger] drawn[m]).raw is Newline)
            &&& forall|m: int| a <= m < k ==> (#[trigger] drawn[m]).raw.is_whitespace()
            &&& k < i ==> !drawn[k].raw.is_whitespace()
            &&& forall|m: int|
                a <= m <= k && m < i ==> (#[trigger] drawn[m]).visual_pos.row
                    == drawn[a].visual_pos.row
            &&& drawn[i].visual_pos.row > drawn[i - 1].visual_pos.row
        }),
    ensures
        ({
            let s = FormatterView::at_block(
                text,
                fmt,
                annotations,
                start,
                doc,
                wrap_indicator,
                fold_marker,
            );
            let drawn = (s.run(n)->0).1;
            drawn[i].visual_pos.col == if k < i && drawn[k].visual_pos.col
                <= fmt.max_indent_retain {
                drawn[k].visual_pos.col
            } else {
                0
            }
        }),
{
    let s = FormatterView::at_block(
        text,
        fmt,
        annotations,
        start,
        doc,
        wrap_indicator,
        fold_marker,
    );
    let drawn = (s.run(n)->0).1;
    assert(!(drawn[i - 1].raw is Newline));
    law_rows_start_at_the_indentation(
        text,
        fmt,
        annotations,
        start,
        doc,
        wrap_indicator,
        fold_marker,
        n,
        i,
    );
    if k < i {
        law_kept_indentation(drawn, a, k, i);
    } else {
        lemma_open_lead(drawn, a, i);
    }
}

} // verus!
