use doc_formatter::anchored_rows::{Anchor, AnchoredRows};
use doc_formatter::doc_formatter::{DocumentFormatter, LayoutOverflow};
use doc_formatter::fold::{Fold, Folds};
use doc_formatter::formatted::{FormattedGrapheme, GraphemeSource};
use doc_formatter::graphemes::Grapheme;
use doc_formatter::highlight::Highlight;
use doc_formatter::text_annotations::{InlineAnnotation, Overlay, TextAnnotations};
use doc_formatter::text_format::TextFormat;
use ropey::Rope;

#[derive(Default)]
struct Extras {
    inline: Vec<(usize, &'static str)>,
    overlays: Vec<(usize, &'static str)>,
    folds: Vec<(usize, usize)>,
    rows: Vec<(usize, usize)>,
}

fn annotations(extras: Extras) -> TextAnnotations<AnchoredRows> {
    let mut folds = Folds::default();
    for (start, end) in extras.folds {
        folds.insert(Fold::new(start, end));
    }
    TextAnnotations::new(
        extras
            .inline
            .into_iter()
            .map(|(char_idx, text)| InlineAnnotation {
                char_idx,
                text: text.to_string(),
                highlight: Some(Highlight(7)),
            })
            .collect(),
        extras
            .overlays
            .into_iter()
            .map(|(char_idx, grapheme)| Overlay { char_idx, grapheme: grapheme.to_string() })
            .collect(),
        folds,
        AnchoredRows::new(
            extras.rows.into_iter().map(|(char_idx, rows)| Anchor { char_idx, rows }).collect(),
        ),
    )
}

fn shown(raw: &Grapheme) -> String {
    match raw {
        Grapheme::Newline => "\n".to_string(),
        Grapheme::Tab { width } => format!("tab{}", width),
        Grapheme::Other { g } => g.clone(),
    }
}

fn source(source: GraphemeSource) -> String {
    match source {
        GraphemeSource::Document { codepoints } => format!("d{}", codepoints),
        GraphemeSource::VirtualText { .. } => "v".to_string(),
        GraphemeSource::Fold { codepoints, lines, .. } => format!("f{}:{}", codepoints, lines),
    }
}

type Drawn = (String, String, (usize, usize), usize, usize);

fn drawn(g: &FormattedGrapheme) -> Drawn {
    (
        shown(&g.raw),
        source(g.source),
        (g.visual_pos.row, g.visual_pos.col),
        g.line_idx,
        g.char_idx,
    )
}

fn is(shown: &str, source: &str, pos: (usize, usize), line: usize, char_idx: usize) -> Drawn {
    (shown.to_string(), source.to_string(), pos, line, char_idx)
}

fn layout_from(text: &str, fmt: &TextFormat, extras: Extras, char_idx: usize) -> Vec<Drawn> {
    let rope = Rope::from_str(text);
    let mut formatter =
        DocumentFormatter::new_at_prev_checkpoint(rope.slice(..), fmt, annotations(extras), char_idx);
    let mut all = Vec::new();
    while let Ok(Some(g)) = formatter.next() {
        all.push(drawn(&g));
    }
    all
}

fn layout(text: &str, extras: Extras) -> Vec<Drawn> {
    layout_from(text, &TextFormat::default(), extras, 0)
}

fn wrapping() -> TextFormat {
    TextFormat {
        soft_wrap: true,
        tab_width: 2,
        wrap_indicator: ".".to_string(),
        ..TextFormat::default()
    }
}

/// The screen: rows apart by line feeds, the columns before a row drawn as dots, line breaks
/// and tabs as blanks.
fn screen(text: &str, fmt: &TextFormat, extras: Extras) -> String {
    let rope = Rope::from_str(text);
    let mut formatter =
        DocumentFormatter::new_at_prev_checkpoint(rope.slice(..), fmt, annotations(extras), 0);
    let mut res = String::new();
    let mut row = 0;
    while let Ok(Some(g)) = formatter.next() {
        if g.visual_pos.row != row {
            while row < g.visual_pos.row {
                row += 1;
                res.push('\n');
            }
            res.push_str(&".".repeat(g.visual_pos.col));
        }
        match &g.raw {
            Grapheme::Newline => res.push(' '),
            Grapheme::Tab { width } => res.push_str(&" ".repeat(*width)),
            Grapheme::Other { g } => res.push_str(g),
        }
    }
    res
}

#[test]
fn plain_text() {
    assert_eq!(
        layout("ab\nc", Extras::default()),
        vec![
            is("a", "d1", (0, 0), 0, 0),
            is("b", "d1", (0, 1), 0, 1),
            is("\n", "d1", (0, 2), 0, 2),
            is("c", "d1", (1, 0), 1, 3),
            is(" ", "d0", (1, 1), 1, 4),
        ],
    );
}

#[test]
fn empty_text_has_a_blank() {
    assert_eq!(layout("", Extras::default()), vec![is(" ", "d0", (0, 0), 0, 0)]);
}

#[test]
fn positions_are_at_the_end_of_the_last_grapheme() {
    let rope = Rope::from_str("\u{597d}\nb");
    let fmt = TextFormat::default();
    let mut formatter = DocumentFormatter::new_at_prev_checkpoint(
        rope.slice(..),
        &fmt,
        annotations(Extras::default()),
        0,
    );
    let mut ends = Vec::new();
    loop {
        let pos = formatter.next_visual_pos();
        ends.push((formatter.next_char_pos(), pos.row, pos.col));
        if !matches!(formatter.next(), Ok(Some(_))) {
            break;
        }
    }
    assert_eq!(ends, vec![(0, 0, 0), (1, 0, 2), (2, 1, 0), (3, 1, 1), (3, 1, 2)]);
    assert!(matches!(formatter.next(), Ok(None)));
    assert_eq!(formatter.next_char_pos(), 3);
}

#[test]
fn tabs_reach_to_the_next_stop() {
    assert_eq!(
        layout("a\tb", Extras::default()),
        vec![
            is("a", "d1", (0, 0), 0, 0),
            is("tab3", "d1", (0, 1), 0, 1),
            is("b", "d1", (0, 4), 0, 2),
            is(" ", "d0", (0, 5), 0, 3),
        ],
    );
}

#[test]
fn graphemes_of_several_chars() {
    assert_eq!(
        layout("e\u{301}\u{597d}\r\nx", Extras::default()),
        vec![
            is("e\u{301}", "d2", (0, 0), 0, 0),
            is("\u{597d}", "d1", (0, 1), 0, 2),
            is("\n", "d2", (0, 3), 0, 3),
            is("x", "d1", (1, 0), 1, 5),
            is(" ", "d0", (1, 1), 1, 6),
        ],
    );
}

#[test]
fn starts_at_the_line_of_the_char() {
    let first = |char_idx| {
        layout_from("ab\ncd\nef", &TextFormat::default(), Extras::default(), char_idx)[0].clone()
    };
    assert_eq!(first(2), is("a", "d1", (0, 0), 0, 0));
    assert_eq!(first(3), is("c", "d1", (0, 0), 1, 3));
    assert_eq!(first(5), is("c", "d1", (0, 0), 1, 3));
    assert_eq!(first(8), is("e", "d1", (0, 0), 2, 6));
    assert_eq!(first(1000), is("e", "d1", (0, 0), 2, 6));
}

#[test]
fn starts_at_the_header_of_a_fold() {
    let from = |char_idx| {
        layout_from(
            "ab\ncd\nef\ngh",
            &TextFormat::default(),
            Extras { folds: vec![(2, 8)], ..Extras::default() },
            char_idx,
        )
    };
    let whole = vec![
        is("a", "d1", (0, 0), 0, 0),
        is("b", "d1", (0, 1), 0, 1),
        is("\u{22ef}", "f6:2", (0, 2), 0, 2),
        is("\n", "d1", (0, 3), 2, 8),
        is("g", "d1", (1, 0), 3, 9),
        is("h", "d1", (1, 1), 3, 10),
        is(" ", "d0", (1, 2), 3, 11),
    ];
    assert_eq!(from(0), whole);
    assert_eq!(from(4), whole);
    assert_eq!(from(7), whole);
    assert_eq!(from(9), vec![
        is("g", "d1", (0, 0), 3, 9),
        is("h", "d1", (0, 1), 3, 10),
        is(" ", "d0", (0, 2), 3, 11),
    ]);
}

#[test]
fn does_not_start_inside_of_folds_that_touch() {
    let first = |folds, char_idx| {
        layout_from(
            "a\nb\nc\nd\ne",
            &TextFormat::default(),
            Extras { folds, ..Extras::default() },
            char_idx,
        )[0]
        .clone()
    };
    assert_eq!(first(vec![(1, 5), (5, 7)], 6), is("a", "d1", (0, 0), 0, 0));
    assert_eq!(first(vec![(3, 5), (5, 7)], 6), is("b", "d1", (0, 0), 1, 2));
    assert_eq!(first(vec![(2, 5), (5, 7)], 6), is("\u{22ef}", "f3:1", (0, 0), 1, 2));
    assert_eq!(first(vec![(1, 5), (5, 7)], 8), is("e", "d1", (0, 0), 4, 8));
}

#[test]
fn long_fold_markers_have_several_cells() {
    let fmt = TextFormat {
        fold_marker: " .. ".to_string(),
        fold_marker_highlight: Some(Highlight(1)),
        ..TextFormat::default()
    };
    assert_eq!(
        layout_from("a\nb\nc", &fmt, Extras { folds: vec![(1, 3)], ..Extras::default() }, 0),
        vec![
            is("a", "d1", (0, 0), 0, 0),
            is(" ", "v", (0, 1), 0, 1),
            is(".", "v", (0, 2), 0, 1),
            is(".", "v", (0, 3), 0, 1),
            is(" ", "f2:1", (0, 4), 0, 1),
            is("\n", "d1", (0, 5), 1, 3),
            is("c", "d1", (1, 0), 2, 4),
            is(" ", "d0", (1, 1), 2, 5),
        ],
    );
}

#[test]
fn folds_hide_whole_graphemes() {
    assert_eq!(
        layout("a\r\nb\r\nc", Extras { folds: vec![(1, 5)], ..Extras::default() }),
        vec![
            is("a", "d1", (0, 0), 0, 0),
            is("\u{22ef}", "f5:2", (0, 1), 0, 1),
            is("c", "d1", (0, 2), 2, 6),
            is(" ", "d0", (0, 3), 2, 7),
        ],
    );
}

#[test]
fn a_fold_may_reach_past_the_text() {
    assert_eq!(
        layout("ab\nc", Extras { folds: vec![(2, 100)], ..Extras::default() }),
        vec![
            is("a", "d1", (0, 0), 0, 0),
            is("b", "d1", (0, 1), 0, 1),
            is("\u{22ef}", "f2:1", (0, 2), 0, 2),
            is(" ", "d0", (0, 3), 1, 4),
        ],
    );
}

#[test]
fn hidden_chars_are_not_drawn() {
    let folds = vec![(1, 4), (4, 6), (9, 12)];
    let extras = Extras { folds: folds.clone(), ..Extras::default() };
    for (_, source, _, _, char_idx) in layout("a\nb\nc\nd\ne\nf\ng\n", extras) {
        let hidden = folds.iter().any(|f| f.0 <= char_idx && char_idx < f.1);
        assert_eq!(hidden, source.starts_with('f'));
    }
}

#[test]
fn annotations_come_before_their_char() {
    assert_eq!(
        layout("ab", Extras { inline: vec![(1, "X\u{597d}"), (1, "Y")], ..Extras::default() }),
        vec![
            is("a", "d1", (0, 0), 0, 0),
            is("X", "v", (0, 1), 0, 1),
            is("\u{597d}", "v", (0, 2), 0, 1),
            is("Y", "v", (0, 4), 0, 1),
            is("b", "d1", (0, 5), 0, 1),
            is(" ", "d0", (0, 6), 0, 2),
        ],
    );
}

#[test]
fn annotations_of_a_line_end_come_behind_it() {
    assert_eq!(
        layout("a\nb", Extras { inline: vec![(1, "XY")], ..Extras::default() }),
        vec![
            is("a", "d1", (0, 0), 0, 0),
            is("\n", "d1", (0, 1), 0, 1),
            is("X", "v", (0, 2), 0, 2),
            is("Y", "v", (0, 3), 0, 2),
            is("b", "d1", (1, 0), 1, 2),
            is(" ", "d0", (1, 1), 1, 3),
        ],
    );
}

#[test]
fn annotations_of_a_crlf_come_behind_it() {
    assert_eq!(
        layout("a\r\nb", Extras { inline: vec![(1, "X")], ..Extras::default() }),
        vec![
            is("a", "d1", (0, 0), 0, 0),
            is("\n", "d2", (0, 1), 0, 1),
            is("X", "v", (0, 2), 0, 3),
            is("b", "d1", (1, 0), 1, 3),
            is(" ", "d0", (1, 1), 1, 4),
        ],
    );
}

#[test]
fn annotations_of_the_end_come_behind_it() {
    assert_eq!(
        layout("a", Extras { inline: vec![(1, "X")], ..Extras::default() }),
        vec![
            is("a", "d1", (0, 0), 0, 0),
            is(" ", "d0", (0, 1), 0, 1),
            is("X", "v", (0, 2), 0, 1),
        ],
    );
}

#[test]
fn two_annotated_line_ends_have_a_row_each() {
    assert_eq!(
        layout("a\n\nb", Extras { inline: vec![(1, "x"), (2, "y")], ..Extras::default() }),
        vec![
            is("a", "d1", (0, 0), 0, 0),
            is("\n", "d1", (0, 1), 0, 1),
            is("x", "v", (0, 2), 0, 2),
            is("\n", "d1", (1, 0), 1, 2),
            is("y", "v", (1, 1), 1, 3),
            is("b", "d1", (2, 0), 2, 3),
            is(" ", "d0", (2, 1), 2, 4),
        ],
    );
}

#[test]
fn an_annotated_end_follows_an_annotated_line_end() {
    assert_eq!(
        layout("a\n", Extras { inline: vec![(1, "x"), (2, "y")], ..Extras::default() }),
        vec![
            is("a", "d1", (0, 0), 0, 0),
            is("\n", "d1", (0, 1), 0, 1),
            is("x", "v", (0, 2), 0, 2),
            is(" ", "d0", (1, 0), 1, 2),
            is("y", "v", (1, 1), 1, 2),
        ],
    );
}

#[test]
fn annotations_carry_their_highlight() {
    let rope = Rope::from_str("a");
    let fmt = TextFormat::default();
    let mut formatter = DocumentFormatter::new_at_prev_checkpoint(
        rope.slice(..),
        &fmt,
        annotations(Extras { inline: vec![(0, "X")], ..Extras::default() }),
        0,
    );
    match formatter.next() {
        Ok(Some(g)) => assert!(matches!(
            g.source,
            GraphemeSource::VirtualText { highlight: Some(Highlight(7)) }
        )),
        _ => panic!("no annotation"),
    }
}

#[test]
fn overlays_replace_what_is_drawn() {
    assert_eq!(
        layout(
            "abc",
            Extras { overlays: vec![(1, "x"), (1, "\u{597d}"), (7, "z")], ..Extras::default() },
        ),
        vec![
            is("a", "d1", (0, 0), 0, 0),
            is("\u{597d}", "d1", (0, 1), 0, 1),
            is("c", "d1", (0, 3), 0, 2),
            is(" ", "d0", (0, 4), 0, 3),
        ],
    );
}

#[test]
fn overlays_keep_the_chars() {
    let places = |extras| -> Vec<(String, usize)> {
        layout("ab\ncd", extras).into_iter().map(|g| (g.1, g.4)).collect()
    };
    assert_eq!(
        places(Extras::default()),
        places(Extras { overlays: vec![(0, "\u{597d}"), (4, "-")], ..Extras::default() }),
    );
}

#[test]
fn rows_below_a_line() {
    assert_eq!(
        layout(
            "ab\nc\nd",
            Extras { rows: vec![(0, 1), (1, 2), (5, 4)], ..Extras::default() },
        ),
        vec![
            is("a", "d1", (0, 0), 0, 0),
            is("b", "d1", (0, 1), 0, 1),
            is("\n", "d1", (0, 2), 0, 2),
            is("c", "d1", (4, 0), 1, 3),
            is("\n", "d1", (4, 1), 1, 4),
            is("d", "d1", (5, 0), 2, 5),
            is(" ", "d0", (5, 1), 2, 6),
        ],
    );
}

#[test]
fn the_next_position_is_behind_the_grapheme() {
    let rope = Rope::from_str("a\u{597d}\nb\nc");
    let fmt = TextFormat::default();
    let mut formatter = DocumentFormatter::new_at_prev_checkpoint(
        rope.slice(..),
        &fmt,
        annotations(Extras {
            inline: vec![(4, "X")],
            rows: vec![(1, 3)],
            ..Extras::default()
        }),
        0,
    );
    let mut behind = Vec::new();
    while let Ok(Some(g)) = formatter.next() {
        let pos = formatter.next_visual_pos();
        behind.push((shown(&g.raw), (pos.row, pos.col)));
    }
    let expected = vec![
        ("a", (0, 1)),
        ("\u{597d}", (0, 3)),
        ("\n", (4, 0)),
        ("b", (4, 1)),
        ("\n", (4, 2)),
        ("X", (4, 3)),
        ("c", (5, 1)),
        (" ", (5, 2)),
    ];
    let expected: Vec<(String, (usize, usize))> =
        expected.into_iter().map(|(g, pos)| (g.to_string(), pos)).collect();
    assert_eq!(behind, expected);
}

#[test]
fn rows_below_a_deferred_line() {
    assert_eq!(
        layout(
            "a\nb",
            Extras { inline: vec![(1, "X")], rows: vec![(0, 2)], ..Extras::default() },
        )[3],
        is("b", "d1", (3, 0), 1, 2),
    );
}

#[test]
fn rows_below_a_wrapped_line() {
    assert_eq!(
        screen("foo foo foo foo foo", &wrapping(), Extras { rows: vec![(4, 1)], ..Extras::default() }),
        "foo foo foo foo \n\n.foo ",
    );
}

#[test]
fn a_row_that_does_not_fit_ends_the_layout() {
    let rope = Rope::from_str("a\nb");
    let fmt = TextFormat::default();
    let mut formatter = DocumentFormatter::new_at_prev_checkpoint(
        rope.slice(..),
        &fmt,
        annotations(Extras { rows: vec![(0, usize::MAX)], ..Extras::default() }),
        0,
    );
    assert!(matches!(formatter.next(), Ok(Some(_))));
    assert!(matches!(formatter.next(), Err(LayoutOverflow)));
    assert!(matches!(formatter.next(), Err(LayoutOverflow)));
}

#[test]
fn soft_wrap_moves_words() {
    assert_eq!(
        screen(&"foo ".repeat(10), &wrapping(), Extras::default()),
        "foo foo foo foo \n.foo foo foo foo \n.foo foo  ",
    );
    assert_eq!(
        screen(&"fooo ".repeat(10), &wrapping(), Extras::default()),
        "fooo fooo fooo \n.fooo fooo fooo \n.fooo fooo fooo \n.fooo  ",
    );
}

#[test]
fn soft_wrap_leaves_what_fits() {
    assert_eq!(
        screen("\t\txxxx1xxxx2xx\n", &wrapping(), Extras::default()),
        "    xxxx1xxxx2xx \n ",
    );
}

#[test]
fn soft_wrap_keeps_the_indentation() {
    assert_eq!(
        screen("\t\tfoo1 foo2 foo3 foo4 foo5 foo6\n", &wrapping(), Extras::default()),
        "    foo1 foo2 \n.....foo3 foo4 \n.....foo5 foo6 \n ",
    );
    assert_eq!(
        screen("\t\t\tfoo1 foo2 foo3 foo4 foo5 foo6\n", &wrapping(), Extras::default()),
        "      foo1 foo2 \n.foo3 foo4 foo5 \n.foo6 \n ",
    );
}

#[test]
fn soft_wrap_cuts_long_words() {
    assert_eq!(
        screen(
            "xxxx1xxxx2xxxx3xxxx4xxxx5xxxx6xxxx7xxxx8xxxx9xxx\n",
            &wrapping(),
            Extras::default(),
        ),
        "xxxx1xxxx2xxxx3xx\n.xx4xxxx5xxxx6xxx\n.x7xxxx8xxxx9xxx \n ",
    );
}

#[test]
fn soft_wrap_moves_a_wide_grapheme() {
    assert_eq!(
        screen("xxxx1xxxx2xxxx3x\u{597d}y", &wrapping(), Extras::default()),
        "xxxx1xxxx2xxxx3x\n.\u{597d}y ",
    );
}

#[test]
fn soft_wrap_keeps_line_ends_inside() {
    assert_eq!(
        screen("xxxx1xxxx2xxxx3xx\n", &wrapping(), Extras::default()),
        "xxxx1xxxx2xxxx3xx\n. \n ",
    );
    let at_text_width = TextFormat { soft_wrap_at_text_width: true, ..wrapping() };
    assert_eq!(
        screen("xxxx1xxxx2xxxx3xx\n", &at_text_width, Extras::default()),
        "xxxx1xxxx2xxxx3xx \n ",
    );
    assert_eq!(
        screen("xxxx1xxxx2xxxx3xx", &at_text_width, Extras::default()),
        "xxxx1xxxx2xxxx3xx ",
    );
    assert_eq!(
        screen("xxxx1xxxx2xxxx3xxx", &at_text_width, Extras::default()),
        "xxxx1xxxx2xxxx3xx\n.x ",
    );
}

#[test]
fn soft_wrap_stays_inside_the_viewport() {
    let fmt = wrapping();
    let text = "fn main() {\n\tlet answer = forty_two(\u{597d}, \u{597d}\u{597d});\n}\n".repeat(3);
    for g in layout_from(&text, &fmt, Extras { inline: vec![(12, ": i32")], ..Extras::default() }, 0)
    {
        assert!(g.2 .1 < fmt.viewport_width as usize);
    }
}

#[test]
fn soft_wrap_reads_the_whole_text() {
    let text = "some \u{597d} words\tand_a_rather_long_identifier\r\n  more\n";
    let mut pos = 0;
    for (_, source, _, line, char_idx) in layout_from(text, &wrapping(), Extras::default(), 0) {
        assert_eq!(char_idx, pos);
        if let Some(codepoints) = source.strip_prefix('d') {
            let before: String = text.chars().take(pos).collect();
            assert_eq!(line, before.matches('\n').count());
            pos += codepoints.parse::<usize>().unwrap();
        }
    }
    assert_eq!(pos, text.chars().count());
}

#[test]
fn soft_wrap_draws_annotations_of_the_end() {
    let fmt = TextFormat { soft_wrap: true, ..TextFormat::default() };
    assert_eq!(
        layout_from("a", &fmt, Extras { inline: vec![(1, "x")], ..Extras::default() }, 0),
        vec![
            is("a", "d1", (0, 0), 0, 0),
            is(" ", "d0", (0, 1), 0, 1),
            is("x", "v", (0, 2), 0, 1),
        ],
    );
}

#[test]
fn soft_wrap_wraps_annotations_of_the_end() {
    let extras = || Extras {
        inline: vec![(2, "foo foo foo foo foo "), (2, "xxxx1xxxx2xxxx3xxxx4")],
        ..Extras::default()
    };
    assert_eq!(
        screen("ab", &wrapping(), extras()),
        "ab foo foo foo \n.foo foo xxxx1xxx\n.x2xxxx3xxxx4",
    );
    let texts = |fmt: TextFormat| -> String {
        layout_from("ab", &fmt, extras(), 0)
            .into_iter()
            .filter(|g| g.0 != ".")
            .map(|g| g.0)
            .collect()
    };
    assert_eq!(texts(wrapping()), texts(TextFormat { soft_wrap: false, ..wrapping() }));
}

#[test]
fn soft_wrap_owes_the_row_until_wrapped_annotations_are_drawn() {
    let extras = || Extras { inline: vec![(1, "foo foo foo foo foo")], ..Extras::default() };
    assert_eq!(screen("a\nb", &wrapping(), extras()), "a foo foo foo \n...foo foo\nb ");
    let drawn = layout_from("a\nb", &wrapping(), extras(), 0);
    assert!(drawn.iter().filter(|g| g.1 == "v").all(|g| g.3 == 0));
    assert_eq!(drawn[drawn.len() - 2], is("b", "d1", (2, 0), 1, 2));
    assert_eq!(drawn[drawn.len() - 1], is(" ", "d0", (2, 1), 1, 3));
}

#[test]
fn soft_wrap_leaves_the_position_at_the_end() {
    let rope = Rope::from_str("xxxx1xxxx2xxxx3x");
    let fmt = wrapping();
    let mut formatter = DocumentFormatter::new_at_prev_checkpoint(
        rope.slice(..),
        &fmt,
        annotations(Extras { inline: vec![(16, "")], ..Extras::default() }),
        0,
    );
    while let Ok(Some(_)) = formatter.next() {}
    assert!(matches!(formatter.next(), Ok(None)));
    let pos = formatter.next_visual_pos();
    assert_eq!((pos.row, pos.col), (0, 17));
}

#[test]
fn soft_wrap_gives_the_same_document() {
    let text = "fn main() {\n\tlet answer = forty_two_and_a_bit(1, 2);\n}\n";
    let account = |soft_wrap| -> Vec<(usize, usize, String)> {
        let fmt = TextFormat { soft_wrap, ..TextFormat::default() };
        layout_from(text, &fmt, Extras { folds: vec![(11, 20)], ..Extras::default() }, 0)
            .into_iter()
            .filter(|g| g.1 != "v")
            .map(|g| (g.4, g.3, g.1))
            .collect()
    };
    assert_eq!(account(true), account(false));
    let plain = layout_from(text, &TextFormat::default(), Extras::default(), 0);
    assert!(plain.iter().all(|g| g.1.starts_with('d')));
}

#[test]
fn lines_are_counted_with_folds() {
    let text = "a\nb\nsome words that are wrapped somewhere\r\nd\ne\n";
    let newlines = |n: usize| text.chars().take(n).filter(|&c| c == '\n').count();
    for soft_wrap in [false, true] {
        let fmt = TextFormat { soft_wrap, fold_marker: "..".to_string(), ..wrapping() };
        for folds in [vec![], vec![(1, 3), (41, 43)], vec![(0, 4), (42, 44)], vec![(20, 90)]] {
            let drawn = layout_from(text, &fmt, Extras { folds, ..Extras::default() }, 0);
            assert!(drawn.iter().all(|g| g.3 == newlines(g.4)));
        }
    }
}

#[test]
fn ascii_graphemes_have_one_char() {
    let text: String = (0..128u8).map(|c| c as char).filter(|&c| c != '\r').collect();
    let drawn = layout(&format!("{}\r\n\rx", text), Extras::default());
    let sources: Vec<&str> = drawn.iter().map(|g| g.1.as_str()).collect();
    assert_eq!(sources[..127], vec!["d1"; 127]);
    assert_eq!(sources[127..], vec!["d2", "d1", "d1", "d0"]);
}

#[test]
fn ascii_soft_wrap_stays_inside_the_default_viewport() {
    let fmt = TextFormat { soft_wrap: true, ..TextFormat::default() };
    let text = "\tlet xs = (a, bb, ccc);\n\n0123456789abcdefg\n        x = y_y_y_y_y_y_y_y_y\n";
    let drawn = layout_from(text, &fmt, Extras::default(), 0);
    assert!(drawn.iter().all(|g| g.2 .1 < 17));
    assert!(drawn.iter().any(|g| g.1 == "v"));
}

#[test]
fn each_fold_has_one_marker() {
    let text = "a\nb\nc\nd\ne\nf\ng";
    let folds = vec![(1, 3), (3, 6), (8, 9), (11, 40)];
    let drawn = layout(text, Extras { folds: folds.clone(), ..Extras::default() });
    for &(start, end) in &folds {
        let markers: Vec<&Drawn> =
            drawn.iter().filter(|g| g.1.starts_with('f') && g.4 == start).collect();
        assert_eq!(markers.len(), 1);
        let chars = end.min(text.len()) - start;
        assert!(markers[0].1.starts_with(&format!("f{}:", chars)));
    }
    for (i, c) in text.chars().enumerate() {
        let hidden = folds.iter().any(|f| f.0 <= i && i < f.1);
        let given = drawn.iter().any(|g| g.1 == "d1" && g.4 == i && g.0 == c.to_string());
        assert_eq!(given, !hidden);
    }
}

#[test]
fn a_grapheme_that_fits_nowhere_ends_the_layout() {
    let fmt = TextFormat { max_wrap: 1, viewport_width: 3, ..wrapping() };
    let rope = Rope::from_str("ab\u{597d}c");
    let mut formatter = DocumentFormatter::new_at_prev_checkpoint(
        rope.slice(..),
        &fmt,
        annotations(Extras::default()),
        0,
    );
    assert!(matches!(formatter.next(), Ok(Some(_))));
    assert!(matches!(formatter.next(), Ok(Some(_))));
    assert!(matches!(formatter.next(), Ok(None)));
    assert!(matches!(formatter.next(), Ok(None)));
    assert_eq!(formatter.next_char_pos(), 2);
}

#[test]
fn the_end_is_given_once() {
    for soft_wrap in [false, true] {
        let fmt = TextFormat { soft_wrap, ..wrapping() };
        let ends = layout_from("ab c\n", &fmt, Extras::default(), 0)
            .into_iter()
            .filter(|g| g.1 == "d0")
            .count();
        assert_eq!(ends, 1);
    }
}

#[test]
fn a_block_with_given_graphemes() {
    let rope = Rope::from_str("abc\n");
    let fmt = TextFormat::default();
    let mut formatter = DocumentFormatter::new_at_block(
        rope.slice(..),
        &fmt,
        annotations(Extras::default()),
        1,
        vec!["bc".to_string(), "\n".to_string()],
        vec![],
        vec!["+".to_string()],
    );
    let mut all = Vec::new();
    while let Ok(Some(g)) = formatter.next() {
        all.push(drawn(&g));
    }
    assert_eq!(
        all,
        vec![
            is("bc", "d2", (0, 0), 0, 1),
            is("\n", "d1", (0, 1), 0, 3),
            is(" ", "d0", (1, 0), 1, 4),
        ],
    );
}

#[test]
fn an_annotation_with_given_graphemes() {
    let rope = Rope::from_str("a");
    let fmt = TextFormat::default();
    let mut formatter = DocumentFormatter::new_at_prev_checkpoint(
        rope.slice(..),
        &fmt,
        annotations(Extras::default()),
        0,
    );
    formatter.begin_inline_annotation(vec!["xy".to_string(), "z".to_string()], None);
    let mut all = Vec::new();
    while let Ok(Some(g)) = formatter.next() {
        all.push(drawn(&g));
    }
    assert_eq!(
        all,
        vec![
            is("xy", "v", (0, 0), 0, 0),
            is("z", "v", (0, 1), 0, 0),
            is("a", "d1", (0, 2), 0, 0),
            is(" ", "d0", (0, 3), 0, 1),
        ],
    );
}
