# hjkl_buffer

Text-buffer primitives with vim-shaped semantics, verified with Verus.

- `src/position.rs`: `Position` (row, char column), its row-major order and
  the char-index to byte-offset conversion.
- `src/span.rs`: `Span`, a styled half-open byte range.
- `src/motion.rs`: `is_keyword_char`, classification against a vim
  `iskeyword` spec (`@`, `N-M`, `N`, literal chars).
- `src/wrap.rs`: `wrap_segments`, greedy char and word soft-wrap in display
  columns.
- `src/search.rs`: search matches of a regex on a row, as char columns.
- `src/render.rs`: what one screen row paints (text cells and their style
  layers, tabs, conceals, the past-the-end cursor), the gutter, signs and
  fold markers.
- `src/frame.rs`: the walk over the document that turns a viewport into
  screen rows (closed folds, wrap segments) and paint operations.
- `src/text.rs`, `src/unicode.rs`: UTF-8 offsets, `White_Space`, and the
  calls into std (`char::is_alphabetic`) and `unicode-width`.
- `app/lib.rs`: the ratatui widget that applies the paint operations to a
  terminal buffer, composing ratatui styles from the layers.
