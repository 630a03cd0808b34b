//! A step of the layout does not fail as long as the positions fit in a machine word.

use crate::course::{lemma_advance_quiet, lemma_quiet, lemma_step_goes_its_course};
use crate::formatted::{CellView, FormattedView};
use crate::graphemes::{columns, law_tab_reaches_the_stop, GraphemeView};
use crate::layout::{
    graphemes_within, lemma_advance_frame, lemma_graphemes_within, lemma_take_inline_frame,
    lemma_total_covered_add, lemma_total_width_add, lemma_word_grows, moved_to, total_covered,
    total_width, FormatterView,
};
use crate::motion::{lemma_indicator, lemma_moved_cells_show};
use crate::numbering::lemma_newlines_bounded;
use crate::position::Position;
use crate::reading::{
    as_cells, counted, filling, hidden_from, law_step_reads_the_document, lemma_fetch_tracks,
    lemma_first_reads, lemma_no_end_looked, lemma_no_end_parts, lemma_peek_tracks,
    lemma_step_tracks, lemma_wrap_tracks, made_ready, no_end,
};
use crate::rows::{
    law_word_is_set, lemma_own_width, lemma_peek_rows, lemma_step_rows, lemma_wrap_rows,
    reaches_text_width, rows_filling, rows_ready, solid, Lead,
};
use crate::runs::lemma_block_is_quiet;
use crate::stream::{lemma_run_end_finds, lemma_seek_finds};
use crate::text_annotations::{lemma_fold_starting, run_end, seek, AnnotationsView, LineAnnotation};
use crate::text_format::TextFormat;
use crate::unicode::well_segmented;
use crate::wrapping::{
    ends_line, law_block_starts_inside, law_soft_wrap_stays_inside, lemma_moved_width, no_tabs,
};
use vstd::prelude::*;

verus! {

/// Reading a cell does not fail.
proof fn lemma_advance_succeeds<L: LineAnnotation>(
    s: FormatterView<L>,
    cells: Seq<CellView>,
    col: int,
    char_pos: usize,
)
    requires
        s.tracks(cells),
    ensures
        s.advance(col, char_pos) is Some,
{
    let t = match s.eol_anchor {
        Some(anchor) => {
            lemma_take_inline_frame(s, anchor);
            FormatterView { eol_anchor: None, ..s.take_inline(anchor).0 }
        },
        None => s,
    };
    if t.marker is None && t.annotations.fold_at_start(char_pos) is Some {
        let fold = t.annotations.fold_at_start(char_pos)->0;
        let folds = s.annotations.folds;
        lemma_fold_starting(folds, 0, char_pos as int);
        let i = choose|i: int| 0 <= i < folds.len() && #[trigger] folds[i] == fold;
        let hidden = t.hidden(fold.end_char - char_pos);
        assert(t.doc.skip(0) =~= t.doc);
        assert(hidden == hidden_from(t.doc, 0, folds[i]));
        lemma_newlines_bounded(hidden);
    }
}

/// Whether line annotations that are in one of the states `calm` put no more than `below` rows
/// anywhere, and stay in these states.
pub open spec fn rows_bounded<L: LineAnnotation>(calm: spec_fn(L::V) -> bool, below: int) -> bool {
    &&& forall|state: L::V, char_idx: usize, at: Position, line: usize|
        calm(state) ==> #[trigger] L::rows_at(state, char_idx, at, line) <= below
    &&& forall|state: L::V, char_idx: usize, at: Position, line: usize|
        calm(state) ==> calm(#[trigger] L::after_rows(state, char_idx, at, line))
    &&& forall|state: L::V, g: FormattedView|
        calm(state) ==> calm(#[trigger] L::after_grapheme(state, g))
}

/// Putting a cell on the screen does not fail.
proof fn lemma_place_succeeds<L: LineAnnotation>(
    s: FormatterView<L>,
    cell: CellView,
    calm: spec_fn(L::V) -> bool,
    below: int,
)
    requires
        s.tracks(seq![cell] + s.waiting()),
        rows_bounded::<L>(calm, below),
        calm(s.annotations.lines),
        s.line_pos + s.text.len() + 2 <= usize::MAX,
        s.visual_pos.row + 2 * (1 + below) <= usize::MAX,
        s.visual_pos.col + cell.grapheme.width() <= usize::MAX,
    ensures
        s.place(cell) is Some,
{
    let cells = seq![cell] + s.waiting();
    let p = s.char_pos as int;
    lemma_reads_first(s, cell);
    let q = p + cell.source.covered();
    if cell.source is Fold {
        lemma_newlines_bounded(s.text.subrange(p, q));
    }
    assert(s.flush_line_end(cell) is Some);
    let f = s.flush_line_end(cell)->0;
    assert(f.pass(cell) is Some);
    let passed = f.pass(cell)->0;
    assert(passed.step_over(cell) is Some);
}

/// The first of the cells that wait says of its place what holds of it.
proof fn lemma_reads_first<L: LineAnnotation>(s: FormatterView<L>, cell: CellView)
    requires
        s.tracks(seq![cell] + s.waiting()),
    ensures
        s.page().reads(s.char_pos as int, cell.grapheme, cell.source),
{
    lemma_first_reads(s.page(), s.char_pos as int, cell, s.waiting());
}

/// The law of success without soft wrap. A step does not fail if the line, the columns of the
/// grapheme that is next, and the rows that the line annotations may put below two rows fit in a
/// machine word. What they may put there is bounded for the states `calm` that they get into.
pub proof fn law_step_succeeds<L: LineAnnotation>(
    s: FormatterView<L>,
    calm: spec_fn(L::V) -> bool,
    below: int,
)
    requires
        s.in_step(),
        !s.fmt.soft_wrap,
        !s.overflowed,
        rows_bounded::<L>(calm, below),
        calm(s.annotations.lines),
        s.line_pos + s.text.len() + 2 <= usize::MAX,
        s.visual_pos.row + 2 * (1 + below) <= usize::MAX,
        s.fetch() matches Some((_, Some(cell))) ==> s.visual_pos.col + cell.grapheme.width()
            <= usize::MAX,
    ensures
        s.next() is Some,
{
    let none = Seq::<CellView>::empty();
    assert(s.waiting() =~= none);
    lemma_advance_succeeds(s, none, s.visual_pos.col as int, s.char_pos);
    lemma_fetch_tracks(s);
    let (t, cell) = s.fetch()->0;
    lemma_advance_frame(s, s.visual_pos.col as int, s.char_pos);
    if cell is Some {
        lemma_place_succeeds(t, cell->0, calm, below);
    }
}

/// Whether no grapheme that is or will be drawn takes more than `wide` columns, nor a tab.
pub open spec fn narrow<L: LineAnnotation>(s: FormatterView<L>, wide: int) -> bool {
    &&& 1 <= s.fmt.tab_width <= wide
    &&& forall|i: int| 0 <= i < s.doc.len() ==> columns(#[trigger] s.doc[i]) <= wide
    &&& forall|i: int|
        0 <= i < s.fold_marker.len() ==> columns(#[trigger] s.fold_marker[i]) <= wide
    &&& forall|i: int|
        0 <= i < s.annotations.overlays.len() ==> columns(
            (#[trigger] s.annotations.overlays[i]).grapheme,
        ) <= wide
    &&& s.marker is Some ==> forall|i: int|
        0 <= i < s.marker->0.graphemes.len() ==> columns(#[trigger] s.marker->0.graphemes[i])
            <= wide
    &&& s.peeked is Some ==> s.peeked->0.grapheme.width() <= wide
}

proof fn lemma_spelled_narrow(g: Seq<char>, x: int, tab_width: int, wide: int)
    requires
        x >= 0,
        1 <= tab_width <= wide,
        columns(g) <= wide,
    ensures
        GraphemeView::spelled(g, x, tab_width).width() <= wide,
{
    law_tab_reaches_the_stop(x, tab_width);
}

proof fn lemma_marker_narrow<L: LineAnnotation>(s: FormatterView<L>, col: int, wide: int)
    requires
        narrow(s, wide),
        s.peeked is None,
        s.marker is Some,
        col >= 0,
    ensures
        ({
            let (t, cell) = s.take_marker(col);
            narrow(FormatterView { peeked: cell, ..t }, wide)
        }),
{
    let graphemes = s.marker->0.graphemes;
    if graphemes.len() > 0 {
        lemma_spelled_narrow(graphemes[0], col, s.fmt.tab_width as int, wide);
        let rest = graphemes.drop_first();
        assert forall|i: int| 0 <= i < rest.len() implies columns(#[trigger] rest[i]) <= wide by {
            assert(rest[i] == graphemes[i + 1]);
        }
    }
}

proof fn lemma_text_narrow<L: LineAnnotation>(
    s: FormatterView<L>,
    col: int,
    char_pos: usize,
    wide: int,
)
    requires
        narrow(s, wide),
        s.quiet_with(Seq::empty()),
        s.peeked is None,
        s.annotations.next_overlay >= 0,
        col >= 0,
    ensures
        ({
            let (t, cell) = s.advance_in_text(col, char_pos);
            narrow(FormatterView { peeked: cell, ..t }, wide)
        }),
{
    lemma_quiet(s, Seq::empty(), char_pos);
    lemma_take_inline_frame(s, char_pos);
    let (t, cell) = s.advance_in_text(col, char_pos);
    let u = s.take_inline(char_pos).0;
    if s.doc.len() > 0 {
        let positions = u.annotations.overlay_positions();
        let from = u.annotations.next_overlay;
        let i = seek(positions, from, char_pos as int);
        let j = run_end(positions, i, char_pos as int);
        lemma_seek_finds(positions, from, char_pos as int);
        lemma_run_end_finds(positions, i, char_pos as int);
        lemma_spelled_narrow(s.doc[0], col, s.fmt.tab_width as int, wide);
        if j > i {
            let overlay = s.annotations.overlays[j - 1];
            lemma_spelled_narrow(overlay.grapheme, col, s.fmt.tab_width as int, wide);
        }
        assert forall|k: int| 0 <= k < t.doc.len() implies columns(#[trigger] t.doc[k]) <= wide by {
            assert(t.doc[k] == s.doc[k + 1]);
        }
    } else {
        assert(seq![' '][0] == ' ');
    }
}

/// What is read is no wider.
proof fn lemma_advance_narrow<L: LineAnnotation>(
    s: FormatterView<L>,
    col: int,
    char_pos: usize,
    wide: int,
)
    requires
        narrow(s, wide),
        s.quiet_with(Seq::empty()),
        s.peeked is None,
        s.annotations.next_overlay >= 0,
        s.marker is Some ==> s.marker->0.graphemes.len() > 0,
        s.fold_marker.len() > 0,
        col >= 0,
        s.advance(col, char_pos) is Some,
    ensures
        ({
            let (t, cell) = s.advance(col, char_pos)->0;
            narrow(FormatterView { peeked: cell, ..t }, wide)
        }),
{
    if s.marker is Some {
        lemma_marker_narrow(s, col, wide);
    } else {
        match s.annotations.fold_at_start(char_pos) {
            Some(fold) => {
                let begun = s.begin_fold(char_pos, fold)->0;
                let n = graphemes_within(s.doc, fold.end_char - char_pos) as int;
                lemma_graphemes_within(s.doc, fold.end_char - char_pos);
                assert forall|i: int| 0 <= i < begun.doc.len() implies columns(
                    #[trigger] begun.doc[i],
                ) <= wide by {
                    assert(begun.doc[i] == s.doc[i + n]);
                }
                lemma_marker_narrow(begun, col, wide);
            },
            None => lemma_text_narrow(s, col, char_pos, wide),
        }
    }
}

/// Whether there are no inline annotations, and neither what is behind the word nor any of its
/// cells is wider than `wide`.
spec fn word_narrow<L: LineAnnotation>(s: FormatterView<L>, wide: int) -> bool {
    &&& s.quiet_with(Seq::empty())
    &&& narrow(s, wide)
    &&& forall|i: int|
        0 <= i < s.word_buf.len() ==> (#[trigger] s.word_buf[i]).grapheme.width() <= wide
}

/// A look at the next cell does not fail.
proof fn lemma_peek_succeeds<L: LineAnnotation>(
    t: FormatterView<L>,
    col: int,
    char_pos: usize,
    wide: int,
)
    requires
        t.tracks(t.gathered()),
        t.plain_words(),
        word_narrow(t, wide),
        col >= 0,
    ensures
        t.peek(col, char_pos) is Some,
        word_narrow(t.peek(col, char_pos)->0, wide),
{
    if t.peeked is None {
        lemma_advance_succeeds(t, t.gathered(), col, char_pos);
        lemma_advance_frame(t, col, char_pos);
        lemma_advance_narrow(t, col, char_pos, wide);
        lemma_advance_quiet(t, Seq::empty(), col, char_pos);
    }
}

/// Taking a cell into the word does not fail.
proof fn lemma_take_succeeds<L: LineAnnotation>(
    t: FormatterView<L>,
    col: int,
    char_pos: usize,
    wide: int,
)
    requires
        t.cells_show(),
        t.tracks(t.gathered()),
        t.plain_words(),
        t.peeked is None ==> no_end(t.gathered()),
        char_pos == t.char_pos + total_covered(t.word_buf),
        word_narrow(t, wide),
        col >= 0,
        total_width(t.word_buf) + wide <= usize::MAX,
        t.text.len() <= usize::MAX,
    ensures
        t.take_into_word(col, char_pos) is Some,
        word_narrow((t.take_into_word(col, char_pos)->0).0, wide),
{
    lemma_peek_succeeds(t, col, char_pos, wide);
    if t.peeked is None {
        lemma_peek_tracks(t, col, char_pos);
    }
    let looked = t.peek(col, char_pos)->0;
    if looked.peeked is Some {
        let cell = looked.peeked->0;
        let word = looked.word_buf.push(cell);
        assert(looked.word_buf == t.word_buf);
        assert(word.drop_last() =~= looked.word_buf);
        assert(word =~= looked.gathered());
        assert(looked.char_pos + total_covered(looked.gathered()) <= looked.text.len());
    }
}

/// Moving a word to the next row does not fail.
proof fn lemma_wrap_succeeds<L: LineAnnotation>(
    t: FormatterView<L>,
    wide: int,
    calm: spec_fn(L::V) -> bool,
    below: int,
)
    requires
        t.cells_show(),
        t.has_room(),
        solid(t.word_buf),
        word_narrow(t, wide),
        rows_bounded::<L>(calm, below),
        calm(t.annotations.lines),
        t.visual_pos.row + 1 + below <= usize::MAX,
        total_width(t.word_buf) <= t.fmt.max_wrap,
        t.fmt.viewport_width <= wide,
    ensures
        t.wrap_word() is Some,
        word_narrow(t.wrap_word()->0, wide),
        total_width(t.wrap_word()->0.word_buf) < t.fmt.viewport_width,
{
    let tab_width = t.fmt.tab_width as int;
    let indent = t.carried_indent();
    let indicator = t.indicator();
    let x = indent + total_width(indicator);
    let moved = moved_to(t.word_buf, x, tab_width);
    let word = t.wrapped_word();
    lemma_indicator(t);
    lemma_moved_cells_show(t.word_buf, x, tab_width);
    assert(no_tabs(t.word_buf)) by {
        assert forall|i: int| 0 <= i < t.word_buf.len() implies !((
        #[trigger] t.word_buf[i]).grapheme is Tab) by {
            assert(!t.word_buf[i].grapheme.is_word_boundary());
        }
    }
    lemma_moved_width(t.word_buf, x, tab_width);
    lemma_total_width_add(indicator, moved);
    assert(0 <= indent <= t.fmt.max_indent_retain);
    assert(indent + total_width(word) < t.fmt.viewport_width);
    assert(t.wrap_word() is Some);
    let w = t.wrap_word()->0;
    assert forall|i: int| 0 <= i < w.word_buf.len() implies (
    #[trigger] w.word_buf[i]).grapheme.width() <= wide by {
        if i < indicator.len() {
            lemma_part_width(indicator, i);
            assert(w.word_buf[i] == indicator[i]);
        } else {
            assert(w.word_buf[i] == moved[i - indicator.len()]);
            assert(t.word_buf[i - indicator.len()].grapheme.width() <= wide);
        }
    }
    if t.peeked is Some {
        law_tab_reaches_the_stop(indent + total_width(word), tab_width);
    }
}

/// A cell is no wider than the cells are.
proof fn lemma_part_width(cells: Seq<CellView>, i: int)
    requires
        0 <= i < cells.len(),
    ensures
        cells[i].grapheme.width() <= total_width(cells),
    decreases cells.len(),
{
    if i < cells.len() - 1 {
        lemma_part_width(cells.drop_last(), i);
    }
}

/// Moving a word to the next row, and the next cell behind it, does not fail.
proof fn lemma_wrap_step_succeeds<L: LineAnnotation>(
    s: FormatterView<L>,
    lead: Lead,
    t: FormatterView<L>,
    pos: usize,
    wide: int,
    calm: spec_fn(L::V) -> bool,
    below: int,
)
    requires
        t.cells_show(),
        t.tracks(t.gathered()),
        no_end(t.word_buf),
        rows_ready(s, lead, t, None),
        t.visual_pos.col + total_width(t.word_buf) >= t.fmt.viewport_width,
        total_width(t.word_buf) <= t.fmt.max_wrap,
        reaches_text_width(s, t.word_buf) ==> match t.peeked {
            Some(cell) => !ends_line(cell),
            None => t.exhausted,
        },
        pos == t.char_pos + total_covered(t.word_buf),
        word_narrow(t, wide),
        t.fmt.viewport_width <= wide,
        t.text.len() <= usize::MAX,
        8 * wide <= usize::MAX,
        rows_bounded::<L>(calm, below),
        calm(s.annotations.lines),
        s.visual_pos.row + 1 + below <= usize::MAX,
    ensures
        t.wrap_word() is Some,
        ({
            let w = t.wrap_word()->0;
            let taken = w.take_into_word(w.visual_pos.col + total_width(w.word_buf), pos);
            taken is Some && word_narrow((taken->0).0, wide)
        }),
{
    lemma_wrap_succeeds(t, wide, calm, below);
    lemma_wrap_tracks(t);
    lemma_wrap_rows(s, lead, t);
    let w = t.wrap_word()->0;
    if w.peeked is None {
        assert(w.gathered() =~= w.word_buf);
    }
    lemma_take_succeeds(w, w.visual_pos.col + total_width(w.word_buf), pos, wide);
}

/// One step in filling a word does not fail.
proof fn lemma_word_step_succeeds<L: LineAnnotation>(
    s: FormatterView<L>,
    lead: Lead,
    t: FormatterView<L>,
    broke: Option<int>,
    wide: int,
    calm: spec_fn(L::V) -> bool,
    below: int,
)
    requires
        filling(t),
        rows_filling(s, lead, t, broke),
        word_narrow(t, wide),
        t.fmt.viewport_width <= wide,
        t.text.len() <= usize::MAX,
        t.visual_pos.col <= 2 * wide,
        8 * wide <= usize::MAX,
        rows_bounded::<L>(calm, below),
        calm(s.annotations.lines),
        s.visual_pos.row + 1 + below <= usize::MAX,
    ensures
        t.word_step() is Some,
        word_narrow((t.word_step()->0).0, wide),
{
    let width = total_width(t.word_buf);
    let col = t.visual_pos.col + width;
    let pos = (t.char_pos + total_covered(t.word_buf)) as usize;
    let edge = t.fmt.viewport_width as int;
    lemma_no_end_parts(t);
    lemma_total_covered_add(t.word_buf, as_cells(t.peeked));
    if t.word_buf.len() > 0 {
        assert(t.word_buf[t.word_buf.len() - 1].grapheme.width() <= wide);
    }
    assert(width <= 2 * wide);
    if t.peeked is None {
        assert(t.gathered() =~= t.word_buf);
    }
    if col < edge {
        lemma_take_succeeds(t, col, pos, wide);
    } else {
        let at_edge = col == edge && t.fmt.soft_wrap_at_text_width;
        let looked = if at_edge || t.word_buf.len() == 0 {
            lemma_peek_succeeds(t, col, pos, wide);
            lemma_peek_tracks(t, col, pos);
            lemma_peek_rows(s, lead, t, broke, col, pos);
            t.peek(col, pos)->0
        } else {
            t
        };
        if at_edge && looked.line_end_peeked() {
            lemma_take_succeeds(looked, col, pos, wide);
        } else if width > t.fmt.max_wrap {
            if col > edge {
                let rest = t.word_buf.drop_last();
                assert forall|i: int| 0 <= i < rest.len() implies (
                #[trigger] rest[i]).grapheme.width() <= wide by {
                    assert(rest[i] == t.word_buf[i]);
                }
            }
        } else {
            if broke is Some {
                lemma_own_width(t, broke);
            }
            assert(broke is None);
            lemma_wrap_step_succeeds(s, lead, looked, pos, wide, calm, below);
        }
    }
}

/// Filling a word does not fail.
proof fn lemma_fill_succeeds<L: LineAnnotation>(
    s: FormatterView<L>,
    lead: Lead,
    t: FormatterView<L>,
    broke: Option<int>,
    wide: int,
    calm: spec_fn(L::V) -> bool,
    below: int,
)
    requires
        filling(t),
        rows_filling(s, lead, t, broke),
        word_narrow(t, wide),
        t.fmt.viewport_width <= wide,
        t.text.len() <= usize::MAX,
        t.visual_pos.col <= 2 * wide,
        8 * wide <= usize::MAX,
        rows_bounded::<L>(calm, below),
        calm(s.annotations.lines),
        s.visual_pos.row + 1 + below <= usize::MAX,
        s.visual_pos.col <= 2 * wide,
    ensures
        t.fill_word() is Some,
        word_narrow(t.fill_word()->0, wide),
    decreases
            (if t.word_buf.len() < t.word_limit() {
                t.word_limit() - t.word_buf.len()
            } else {
                0
            }),
{
    lemma_word_step_succeeds(s, lead, t, broke, wide, calm, below);
    lemma_step_tracks(t);
    let after = lemma_step_rows(s, lead, t, broke);
    let (u, go_on) = t.word_step()->0;
    if go_on {
        lemma_word_grows(t);
        assert(u.visual_pos.col <= 2 * wide);
        lemma_fill_succeeds(s, lead, u, after, wide, calm, below);
    }
}

/// The indentation that a state knows.
spec fn known<L: LineAnnotation>(s: FormatterView<L>) -> Lead {
    match s.indent_level {
        None => Lead { open: true, col: 0 },
        Some(indent) => Lead { open: false, col: indent as int },
    }
}

/// What is asked of a state so that the next word can be made ready.
pub open spec fn can_go_on<L: LineAnnotation>(s: FormatterView<L>, wide: int) -> bool {
    &&& s.in_step()
    &&& s.fmt.soft_wrap
    &&& s.quiet()
    &&& s.plain_words()
    &&& s.has_room()
    &&& s.word_inside()
    &&& narrow(s, wide)
    &&& forall|i: int|
        0 <= i < s.word_buf.len() ==> (#[trigger] s.word_buf[i]).grapheme.width() <= wide
    &&& s.indent_level matches Some(indent) ==> indent <= u16::MAX
    &&& s.fmt.viewport_width <= wide
    &&& s.visual_pos.col <= 2 * wide
}

/// Making the next word ready does not fail.
proof fn lemma_word_succeeds<L: LineAnnotation>(
    s: FormatterView<L>,
    wide: int,
    calm: spec_fn(L::V) -> bool,
    below: int,
)
    requires
        can_go_on(s, wide),
        s.word_i >= s.word_buf.len(),
        s.text.len() <= usize::MAX,
        8 * wide <= usize::MAX,
        rows_bounded::<L>(calm, below),
        calm(s.annotations.lines),
        s.visual_pos.row + 1 + below <= usize::MAX,
    ensures
        s.advance_to_next_word() is Some,
        word_narrow(s.advance_to_next_word()->0, wide),
{
    let empty = FormatterView { word_buf: Seq::empty(), ..s };
    let lead = known(s);
    let x = s.visual_pos.col as int;
    assert(empty.gathered() =~= s.waiting());
    assert(total_width(empty.word_buf) == 0);
    assert(total_covered(empty.word_buf) == 0);
    assert(empty.has_room());
    assert(rows_ready(s, lead, empty, None));
    lemma_no_end_looked(empty);
    let begun = if s.exhausted {
        lemma_peek_succeeds(empty, x, s.char_pos, wide);
        lemma_peek_tracks(empty, x, s.char_pos);
        lemma_peek_rows(s, lead, empty, None, x, s.char_pos);
        empty.peek(x, s.char_pos)->0
    } else {
        empty
    };
    lemma_no_end_looked(begun);
    if !(s.exhausted && begun.peeked is None) {
        assert(filling(begun));
        lemma_fill_succeeds(s, lead, begun, None, wide, calm, below);
    }
}

/// The law of the start. What is asked of a state so that the layout can go on under soft wrap
/// holds at the start of a block, if it holds of the text and of what is drawn besides it.
pub proof fn law_block_can_go_on<L: LineAnnotation>(
    text: Seq<char>,
    fmt: TextFormat,
    annotations: AnnotationsView<L>,
    start: usize,
    doc: Seq<Seq<char>>,
    wrap_indicator: Seq<Seq<char>>,
    fold_marker: Seq<Seq<char>>,
    wide: int,
)
    requires
        fmt.tab_width > 0,
        fmt.soft_wrap,
        fmt.viewport_width <= wide,
        start <= text.len(),
        doc.flatten() == text.skip(start as int),
        well_segmented(doc),
        fold_marker.len() > 0,
        counted(doc, annotations.folds),
        annotations.inline.len() == 0,
        ({
            let s = FormatterView::at_block(
                text,
                fmt,
                annotations,
                start,
                doc,
                wrap_indicator,
                fold_marker,
            );
            s.plain_words() && s.has_room() && narrow(s, wide)
        }),
    ensures
        can_go_on(
            FormatterView::at_block(
                text,
                fmt,
                annotations,
                start,
                doc,
                wrap_indicator,
                fold_marker,
            ),
            wide,
        ),
{
    lemma_block_is_quiet(text, fmt, annotations, start, doc, wrap_indicator, fold_marker);
    law_block_starts_inside(text, fmt, annotations, start, doc, wrap_indicator, fold_marker);
}

/// The law of success under soft wrap. A step does not fail if neither the columns of a grapheme
/// nor the lines nor the rows that the line annotations may put below three rows are too many
/// for a machine word. What is asked of the state holds of the next one, but for the number of its row
/// and its line. There is room for a word that may be moved, there are no inline annotations,
/// nothing that is drawn is both whitespace and made of the chars of words, and the wrap
/// indicator is no line break.
pub proof fn law_wrapped_step_succeeds<L: LineAnnotation>(
    s: FormatterView<L>,
    wide: int,
    calm: spec_fn(L::V) -> bool,
    below: int,
)
    requires
        can_go_on(s, wide),
        !s.overflowed,
        8 * wide <= usize::MAX,
        rows_bounded::<L>(calm, below),
        calm(s.annotations.lines),
        0 <= below,
        s.line_pos + s.text.len() + 2 <= usize::MAX,
        s.visual_pos.row + 3 * (1 + below) <= usize::MAX,
    ensures
        s.next() is Some,
        (s.next()->0).1 is Some ==> {
            let t = (s.next()->0).0;
            &&& can_go_on(t, wide)
            &&& !t.overflowed
            &&& t.text == s.text
            &&& t.visual_pos.row <= s.visual_pos.row + 3 * (1 + below)
            &&& calm(t.annotations.lines)
        },
{
    if s.word_i >= s.word_buf.len() {
        lemma_word_succeeds(s, wide, calm, below);
    }
    assert(s.fetch() is Some);
    let (fetched, cell) = s.fetch()->0;
    if cell is Some {
        lemma_fetch_tracks(s);
        lemma_ready_goes_on(s, wide, calm, below);
        let r = made_ready(s);
        assert(cell->0 == r.word_buf[r.word_i]);
        lemma_place_succeeds(fetched, cell->0, calm, below);
        assert(s.next() is Some);
        law_step_reads_the_document(s);
        lemma_step_goes_its_course(s);
        law_soft_wrap_stays_inside(s);
        lemma_placed_goes_on(r, fetched, cell->0, wide, calm, below);
    }
}

/// What putting a cell on the screen keeps.
proof fn lemma_placed_goes_on<L: LineAnnotation>(
    r: FormatterView<L>,
    fetched: FormatterView<L>,
    cell: CellView,
    wide: int,
    calm: spec_fn(L::V) -> bool,
    below: int,
)
    requires
        rows_bounded::<L>(calm, below),
        calm(r.annotations.lines),
        0 <= below,
        r.plain_words(),
        word_narrow(r, wide),
        0 <= r.word_i < r.word_buf.len(),
        cell == r.word_buf[r.word_i],
        fetched == (FormatterView {
            word_buf: r.word_buf.update(r.word_i, CellView::blank()),
            word_i: r.word_i + 1,
            ..r
        }),
        fetched.place(cell) is Some,
    ensures
        ({
            let (t, g) = fetched.place(cell)->0;
            &&& t.plain_words()
            &&& word_narrow(t, wide)
            &&& t.indent_level == r.indent_level
            &&& t.overflowed == r.overflowed
            &&& t.text == r.text
            &&& t.visual_pos.col <= g.visual_pos.col + wide
            &&& t.visual_pos.row <= r.visual_pos.row + 2 * (1 + below)
            &&& calm(t.annotations.lines)
        }),
{
    let (t, g) = fetched.place(cell)->0;
    assert forall|i: int| 0 <= i < t.word_buf.len() implies (
    #[trigger] t.word_buf[i]).grapheme.width() <= wide by {
        if i != r.word_i {
            assert(t.word_buf[i] == r.word_buf[i]);
        } else {
            assert(seq![' '][0] == ' ');
        }
    }
}

/// What a word that was made ready keeps.
proof fn lemma_ready_goes_on<L: LineAnnotation>(
    s: FormatterView<L>,
    wide: int,
    calm: spec_fn(L::V) -> bool,
    below: int,
)
    requires
        rows_bounded::<L>(calm, below),
        calm(s.annotations.lines),
        0 <= below,
        can_go_on(s, wide),
        s.fetch() is Some,
        (s.fetch()->0).1 is Some,
        s.word_i >= s.word_buf.len() ==> word_narrow(s.advance_to_next_word()->0, wide),
    ensures
        ({
            let r = made_ready(s);
            &&& r.plain_words()
            &&& narrow(r, wide)
            &&& forall|i: int|
                0 <= i < r.word_buf.len() ==> (#[trigger] r.word_buf[i]).grapheme.width() <= wide
            &&& r.indent_level matches Some(indent) ==> indent <= u16::MAX
            &&& r.visual_pos.col <= 2 * wide
            &&& r.visual_pos.row <= s.visual_pos.row + 1 + below
            &&& calm(r.annotations.lines)
        }),
{
    if s.word_i >= s.word_buf.len() {
        let lead = known(s);
        let broke = law_word_is_set(s, lead);
    }
}

} // verus!
