# rust-md-editor

A split-pane Markdown editor: the source on the left, an incremental
preview on the right. The logic is a Verus library with proved contracts;
the window around it is ordinary Rust.

## Layout

- `src/` — the verified library
  - `text.rs` — whitespace, trimming, line splitting
  - `blocks.rs` — splitting a document into preview blocks; open code fences
  - `markdown.rs` — rendering one block from the CommonMark parser's events
  - `table.rs` — padded, framed tables
  - `highlight.rs` — inline colouring of source lines; syntect for code
  - `hashing.rs` — content ids of blocks (SHA-256, hex)
  - `preview.rs` — the incremental preview cache
  - `buffer.rs` — the editing buffer and its cursor
  - `editor.rs` — find, replace-all, title, counts
  - `session.rs` — the state of an open document
- `tests/` — tests of the library
- `app/` — the egui window: file dialogs, fonts, drawing
