# leanmd

A small Markdown front end, verified with Verus.

- `src/` is the library. The lexer (`tokenizer`, `block_parser`,
  `inline_parser`, `utils`, `lines`, `text`) turns Markdown text into a flat
  stream of `Token`s; the parser (`parser`, `node_parser`, `ast`) folds the
  stream into a tree of `Node`s. `block` holds a line-at-a-time block lexer.
  Every function has a contract over spec functions that say what the tokens
  and nodes of a text are.
- `nesting` and `roundtrip` hold the laws about the whole pipeline: the lexer
  produces only well-nested token streams, and writing the parsed tree back
  out as tokens gives exactly the lexer's tokens.
- `app/` converts the tree to JSON with `serde_json` and exports the two
  conversion functions to JavaScript with `wasm-bindgen`.
