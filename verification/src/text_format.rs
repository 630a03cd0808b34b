//! How text is to be laid out.

use crate::highlight::Highlight;
use vstd::prelude::*;

verus! {

/// The settings of the layout.
#[derive(Debug)]
pub struct TextFormat {
    /// Whether lines that are too long are wrapped.
    pub soft_wrap: bool,
    /// The distance of the tab stops.
    pub tab_width: u16,
    /// A word up to this wide moves to the next visual line as a whole; a wider one
    /// is cut at the edge.
    pub max_wrap: u16,
    /// A wrapped line keeps the indentation up to this many columns.
    pub max_indent_retain: u16,
    /// Drawn at the start of a wrapped line.
    pub wrap_indicator: String,
    pub wrap_indicator_highlight: Option<Highlight>,
    pub viewport_width: u16,
    /// Whether the viewport is as wide as the text is meant to be: the end of a line
    /// may then stand behind the edge.
    pub soft_wrap_at_text_width: bool,
    /// Drawn on a fold header where the hidden lines were.
    pub fold_marker: String,
    pub fold_marker_highlight: Option<Highlight>,
}

impl Clone for TextFormat {
    fn clone(&self) -> (copy: TextFormat)
        ensures
            copy.soft_wrap == self.soft_wrap,
            copy.tab_width == self.tab_width,
            copy.max_wrap == self.max_wrap,
            copy.max_indent_retain == self.max_indent_retain,
            copy.wrap_indicator@ == self.wrap_indicator@,
            copy.wrap_indicator_highlight == self.wrap_indicator_highlight,
            copy.viewport_width == self.viewport_width,
            copy.soft_wrap_at_text_width == self.soft_wrap_at_text_width,
            copy.fold_marker@ == self.fold_marker@,
            copy.fold_marker_highlight == self.fold_marker_highlight,
    {
        TextFormat {
            soft_wrap: self.soft_wrap,
            tab_width: self.tab_width,
            max_wrap: self.max_wrap,
            max_indent_retain: self.max_indent_retain,
            wrap_indicator: self.wrap_indicator.clone(),
            wrap_indicator_highlight: self.wrap_indicator_highlight,
            viewport_width: self.viewport_width,
            soft_wrap_at_text_width: self.soft_wrap_at_text_width,
            fold_marker: self.fold_marker.clone(),
            fold_marker_highlight: self.fold_marker_highlight,
        }
    }
}

impl Default for TextFormat {
    fn default() -> (format: TextFormat)
        ensures
            !format.soft_wrap,
            format.tab_width == 4,
            format.max_wrap == 3,
            format.max_indent_retain == 4,
            format.wrap_indicator@ == seq![' '],
            format.wrap_indicator_highlight is None,
            format.viewport_width == 17,
            !format.soft_wrap_at_text_width,
            format.fold_marker@ == seq!['\u{22EF}'],
            format.fold_marker_highlight is None,
    {
        let wrap_indicator = " ".to_string();
        let fold_marker = "\u{22EF}".to_string();
        proof {
            reveal_strlit(" ");
            reveal_strlit("\u{22EF}");
            assert(wrap_indicator@ =~= seq![' ']);
            assert(fold_marker@ =~= seq!['\u{22EF}']);
        }
        TextFormat {
            soft_wrap: false,
            tab_width: 4,
            max_wrap: 3,
            max_indent_retain: 4,
            wrap_indicator,
            wrap_indicator_highlight: None,
            viewport_width: 17,
            soft_wrap_at_text_width: false,
            fold_marker,
            fold_marker_highlight: None,
        }
    }
}

} // verus!
