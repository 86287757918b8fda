# lol_html

The verified core of a streaming HTML rewriter with a CSS-selector based API, written
in Verus: selector matching over the stack of open elements, the rewritable units
(tokens, elements, their mutations and serialization, text decoding and encoding),
and the dispatch of content handlers. The executable code carries `requires`/`ensures`
contracts, and Verus proves them. The HTML tokenizer, the transform stream that feeds
it and the memory limiter are not part of this crate.

## Layout

- `src/selectors_vm/` — selectors: the supported subset (`parser.rs`), the tree of
  selectors that share prefixes (`ast.rs`), its compilation to a program of
  instructions (`compiler.rs`, `program.rs`), attribute matching
  (`attribute_matcher.rs`), the stack of open elements with its child counters
  (`stack.rs`) and the virtual
  machine that matches elements as start and end tags arrive (`mod.rs`).
- `src/rewritable_units/` — tokens and their serialization (`token.rs`), the token
  capturer (`capturer.rs`), mutations (`mutations.rs`), name and text validation
  (`element.rs`, `tokens.rs`), the streaming output sink and text encoder
  (`text_encoder.rs`) with the proof that chunked UTF-8 is written whole
  (`utf8_chunks.rs`), elements and their end tags (`element.rs`), the document end and
  bail-out point (`document_end.rs`), and capture flags.
- `src/token/capture.rs` — a capture of tokens at kinds fixed when it is made, which
  goes on capturing start and end tags, built on the token capturer.
- `src/rewriter/` — handler bookkeeping (`handlers_dispatcher.rs`), the builder,
  encodings and `<meta>` charset detection.
- `src/tag_name.rs`, `src/html.rs`, `src/base.rs` — tag name hashes, local names,
  namespaces, and the calls into `encoding_rs`.
- `app/` — what stays outside the verified library: reading selectors with the
  `selectors` crate, error types with `Display`, and handing output to a callback.
- `tests/` — tests of the library.
