# webmd

A Markdown renderer (CommonMark core, GFM tables, strikethrough and task
lists, plus the `#grad[from, to](text)` and `#font[family](text)` inline
extensions), written in Verus.

- `src/ast.rs` — the document tree and its mathematical model.
- `src/text.rs` — character-sequence helpers (trimming, splitting, joining).
- `src/block_parser.rs` — `parse_blocks`: lines to blocks.
- `src/inline_parser.rs` — `parse_inlines`: text to inline nodes.
- `src/html_renderer.rs` — `render_html`, escaping and heading slugs.
- `src/webmd.rs` — `WebMD::render`, which expands the extensions and hands the
  text to `pulldown-cmark`.
- `src/laws.rs` — properties of the parser and renderer as a whole.
- `app/lib.rs` — the `wasm-bindgen` bindings for the browser.

Each parser and renderer function is proved equal to a spec function over
`Seq<char>`; the laws are stated over those spec functions.
