use doc_formatter::chars::{all_whitespace, all_word, char_is_whitespace, char_is_word, count_chars};
use doc_formatter::formatted::{FormattedGrapheme, GraphemeSource, GraphemeWithSource};
use doc_formatter::graphemes::{grapheme_width, tab_width_at, visible_width, Grapheme};
use doc_formatter::highlight::Highlight;
use doc_formatter::position::Position;
use doc_formatter::text_format::TextFormat;

#[test]
fn tab_reaches_to_the_next_stop() {
    assert_eq!(tab_width_at(0, 4), 4);
    assert_eq!(tab_width_at(1, 4), 3);
    assert_eq!(tab_width_at(3, 4), 1);
    assert_eq!(tab_width_at(4, 4), 4);
    assert_eq!(tab_width_at(9, 8), 7);
}

#[test]
fn width_of_graphemes() {
    assert_eq!(grapheme_width("a"), 1);
    assert_eq!(grapheme_width("e\u{301}"), 1);
    assert_eq!(grapheme_width("\u{597d}"), 2);
    assert_eq!(grapheme_width("\u{22ef}"), 1);
    assert_eq!(grapheme_width("\u{200b}"), 1);
    assert_eq!(grapheme_width(""), 1);
}

#[test]
fn nothing_is_invisible() {
    assert_eq!(visible_width(0), 1);
    assert_eq!(visible_width(1), 1);
    assert_eq!(visible_width(7), 7);
}

#[test]
fn kinds_of_graphemes() {
    assert!(Grapheme::new("\n".to_string(), 0, 4).is_newline());
    assert!(Grapheme::new("\r\n".to_string(), 0, 4).is_newline());
    assert!(!Grapheme::new("\r".to_string(), 0, 4).is_newline());
    assert!(matches!(Grapheme::new("\t".to_string(), 6, 4), Grapheme::Tab { width: 2 }));
    assert!(matches!(Grapheme::new("x".to_string(), 6, 4), Grapheme::Other { .. }));
    assert_eq!(Grapheme::new("\n".to_string(), 0, 4).width(), 1);
    assert_eq!(Grapheme::new("\u{597d}".to_string(), 0, 4).width(), 2);
}

#[test]
fn only_tabs_change_when_moved() {
    let mut tab = Grapheme::new("\t".to_string(), 0, 4);
    assert_eq!(tab.width(), 4);
    tab.change_position(7, 4);
    assert_eq!(tab.width(), 1);
    let mut letter = Grapheme::new("x".to_string(), 0, 4);
    letter.change_position(7, 4);
    assert!(matches!(letter, Grapheme::Other { g } if g == "x"));
}

#[test]
fn whitespace_and_words() {
    let grapheme = |g: &str| Grapheme::new(g.to_string(), 0, 4);
    assert!(grapheme(" ").is_whitespace());
    assert!(grapheme("\t").is_whitespace());
    assert!(grapheme("\n").is_whitespace());
    assert!(grapheme("\u{3000}").is_whitespace());
    assert!(!grapheme("x").is_whitespace());
    assert!(!grapheme("x").is_word_boundary());
    assert!(!grapheme("_").is_word_boundary());
    assert!(!grapheme("\u{e9}").is_word_boundary());
    assert!(grapheme("-").is_word_boundary());
    assert!(grapheme(" ").is_word_boundary());
    assert!(grapheme("\t").is_word_boundary());
    assert!(grapheme("\n").is_word_boundary());
}

#[test]
fn chars_of_words() {
    assert!(char_is_word('a') && char_is_word('Z') && char_is_word('7') && char_is_word('_'));
    assert!(!char_is_word('-') && !char_is_word(' ') && !char_is_word('\u{b7}'));
    assert!(char_is_word('\u{597d}'));
    assert!(char_is_whitespace(' ') && char_is_whitespace('\u{a0}') && !char_is_whitespace('x'));
    assert!(all_word("a_1") && !all_word("a-1"));
    assert!(all_whitespace(" \t") && !all_whitespace(" x"));
    assert_eq!(count_chars("a\n\u{597d}\n"), (4, 2));
}

#[test]
fn sources() {
    let document = GraphemeSource::Document { codepoints: 2 };
    let end = GraphemeSource::Document { codepoints: 0 };
    let text = GraphemeSource::VirtualText { highlight: Some(Highlight(3)) };
    let fold = GraphemeSource::Fold { highlight: None, codepoints: 9, lines: 2 };
    assert_eq!(
        [document, end, text, fold].map(|s| (s.is_virtual(), s.is_eof(), s.doc_chars())),
        [(false, false, 2), (false, true, 0), (true, false, 0), (true, false, 9)],
    );
}

#[test]
fn formatted_grapheme_passes_questions_on() {
    let grapheme = FormattedGrapheme {
        raw: Grapheme::new("\u{597d}".to_string(), 0, 4),
        source: GraphemeSource::Document { codepoints: 1 },
        visual_pos: Position { row: 1, col: 2 },
        line_idx: 3,
        char_idx: 4,
    };
    let copy = grapheme.clone();
    assert!(!copy.is_virtual());
    assert_eq!(copy.doc_chars(), 1);
    assert_eq!(copy.width(), 2);
    assert!(!copy.is_whitespace());
    assert!(!copy.is_word_boundary());
    assert_eq!((copy.line_idx, copy.char_idx), (3, 4));
    assert_eq!((copy.visual_pos.row, copy.visual_pos.col), (1, 2));
}

#[test]
fn placeholder_is_the_end_of_the_text() {
    let blank = GraphemeWithSource::placeholder();
    assert!(blank.is_eof() && blank.is_whitespace() && blank.is_word_boundary());
    assert!(!blank.is_newline() && !blank.after_line_end);
    assert_eq!((blank.width(), blank.doc_chars()), (1, 0));
    let cell = GraphemeWithSource::new(
        "\t".to_string(),
        5,
        4,
        GraphemeSource::Document { codepoints: 1 },
    );
    assert_eq!((cell.width(), cell.doc_chars(), cell.is_eof()), (3, 1, false));
}

#[test]
fn default_format() {
    let fmt = TextFormat::default();
    assert!(!fmt.soft_wrap && !fmt.soft_wrap_at_text_width);
    assert_eq!((fmt.tab_width, fmt.max_wrap, fmt.max_indent_retain), (4, 3, 4));
    assert_eq!((fmt.wrap_indicator.as_str(), fmt.viewport_width), (" ", 17));
    assert_eq!(fmt.fold_marker, "\u{22ef}");
    assert!(fmt.wrap_indicator_highlight.is_none() && fmt.fold_marker_highlight.is_none());
    let copy = fmt.clone();
    assert_eq!(copy.fold_marker, fmt.fold_marker);
}
