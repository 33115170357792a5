# jqf_codec_json

The JSON family's byte-level logic, verified with Verus: scanning and UTF-8 checking, the escape table, number and string
lexing, the resumable encoder, the edit splices, deferred-span counting and walking, and the JSONC, JSON5 and NDJSON
dialects.

## Layout

- `src/` — the library. Every function states in its contract what it returns; the `*_laws` modules hold what relates
  several functions: what is written is read back, what is rendered is counted, a grown container holds its old members and
  the new ones, and a shrunk one all but the one removed.
  - `byte_scan`, `json_escape`, `lex`, `number`, `text` — bytes, literals and string bodies.
  - `value`, `options`, `render`, `encode_text`, `encode`, `factory` — values, and what an encoder writes for them.
  - `edit_support`, `edit` — source-preserving splices.
  - `shape` — the shape of JSON text, on which the scans agree.
  - `lazy`, `count_filter`, `element_batch` — reading a deferred span without building it.
  - `error`, `grammar`, `json5`, `jsonc`, `ndjson` — diagnostics, grammars and the dialects.
- `app/` — the codec framework's traits over the library. It needs the crates of the framework itself.
- `tests/` — the library from outside.

## Reading a contract

`render::render_item` is what an encoder must write for a value. The encoder in `encode` is resumable: its contract says
that staged bytes and what is still to come always add up to that rendering, whatever work it is granted.
Text is taken by its UTF-8 bytes throughout.
