# doc_formatter

Layout of document text on a screen, verified with Verus: the graphemes of a text and where
they go, with soft wrapping, inline annotations, overlays, virtual rows and folds.

- `src/doc_formatter.rs` walks over the text. Its contracts speak of `src/layout.rs`, which
  says what a step of the layout does as functions of its state.
- `src/fold.rs` keeps the folds of a document.
- `src/text_annotations.rs` holds what is drawn besides the text; `src/anchored_rows.rs` is
  one way to put whole rows below a line.
- `src/graphemes.rs`, `src/chars.rs` and `src/formatted.rs` are about single graphemes.
- `src/rope.rs` and `src/unicode.rs` state what is relied on of `ropey`,
  `unicode-segmentation`, `unicode-width` and the standard library.
- The laws of the layout are proved in `src/motion.rs` (how a step moves), `src/reading.rs`
  (what is drawn is the document), `src/numbering.rs` (line numbers), `src/hiding.rs` (folds
  and checkpoints), `src/markers.rs` (fold markers), `src/line_ends.rs` (annotations, overlays
  and the position behind a grapheme), `src/wrapping.rs` (soft wrap), `src/course.rs` and
  `src/runs.rs` (whole layouts) and `src/unadorned.rs` (layouts of bare text); those of the
  folds in `src/fold.rs`.
- `app/` offers the layout as a standard iterator.
