# sem

Semantic code search for Rust sources. `sem index` cuts every `.rs` file into
chunks along its syntax tree (functions, types, items inside `mod`, `trait` and
`impl` blocks, with large items split into parts that repeat their signature),
embeds each chunk with a local Ollama model and stores it in SQLite;
`sem search` ranks the stored chunks by cosine similarity to the query.

## Layout

- `src/` — the verified library (Verus):
  - `text.rs` — UTF-8 lengths, line splitting and whitespace, as specified by
    `str::lines`, `trim_start` and `trim_end`;
  - `syntax.rs` — the tree-sitter parse, flattened to a preorder list of nodes;
  - `chunker.rs` — chunking: wrapping items in their containers, splitting large
    items at blank lines, walking the syntax tree;
  - `store.rs` — embeddings as little-endian blobs;
  - `search.rs` — ranking by score and the text of the results;
  - `ollama.rs` — batching of embedding requests, as a state machine;
  - `config.rs`, `index.rs` — defaults and the index step.
- `app/` — the command line program: argument parsing, files, SQLite, HTTP,
  floating-point scoring.
- `tests/` — tests of the library.
