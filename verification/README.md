# ajson

Read values out of JSON text with a small path language (`name.first`,
`children.#`, `friends.#(age>45)#.last`, `{name.first,age}`), without
building a tree: the text is scanned as far as the path asks for.

The functions of the library are verified with Verus against contracts
written over mathematical models of their inputs (byte sequences, path
models, element models). Three small functions that call the standard
library and the `regex` crate (`text.rs`, `wild.rs`) are trusted: their
contracts state what those libraries document, without proof.

## Layout

- `src/lib.rs`: `get` and `parse`, and the laws of lookups as a whole.
- `src/path/`: the path language: parsing a step (`parser.rs`), array
  queries (`query.rs`), selector groups (`sub_selector.rs`), a builder.
- `src/parser.rs`: looking a path up in JSON text.
- `src/array_steps.rs`: how first-match and all-matches queries, counts
  and indexes relate to the values of an array.
- `src/dotted.rs`: a dotted path looks its keys up one inside the other.
- `src/getter.rs`: the stream getter, which walks JSON text byte by byte
  with a reader as far as a path asks (`Getter`, `gjson_get`,
  `gjson_parse`), and its laws.
- `src/gjson_path.rs`: the paths of the stream getter, read step by step.
- `src/gjson.rs`: the queries of the stream getter and their matching.
- `src/element.rs`, `src/value.rs`, `src/number.rs`: what a lookup finds.
- `src/decimal.rs`: exact ordering of decimal numbers for queries.
- `src/unescape.rs`, `src/util.rs`, `src/wild.rs`, `src/text.rs`: string
  escapes, trimming, wildcard keys (through the `regex` crate) and UTF-8.
- `src/reader.rs`, `src/ref_reader.rs`, `src/utf8_reader.rs`: byte cursors
  and readers.
- `src/path_v2.rs`: paths split into nodes and merged into a tree.
- `app/lib.rs`: what stays outside the verified library: floating-point
  readings and comparisons, text formatting, a C entry point and a
  visitor loop.
- `tests/`: examples from the documentation and checks of the laws.
