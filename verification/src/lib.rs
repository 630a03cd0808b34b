//! Layout of document text on a screen: folds, soft wrapping and virtual text.

pub mod anchored_rows;
pub mod chars;
pub mod course;
pub mod doc_formatter;
pub mod drawn_text;
pub mod fold;
pub mod formatted;
pub mod graphemes;
pub mod hiding;
pub mod highlight;
pub mod layout;
pub mod line_ends;
pub mod markers;
pub mod motion;
pub mod numbering;
pub mod placing;
pub mod position;
pub mod reading;
pub mod rope;
pub mod row_starts;
pub mod rows;
pub mod runs;
pub mod stream;
pub mod success;
pub mod tabs;
pub mod text_annotations;
pub mod text_format;
pub mod unadorned;
pub mod unicode;
pub mod weaving;
pub mod wrapping;
