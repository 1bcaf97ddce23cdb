# e4x_read_only

A compact, immutable XML document store with E4X-style queries, a reader for binary row sets,
and export of rows to spreadsheets and comma-separated values, written in Verus.

## What it holds

- **Documents.** A source is parsed once into arenas of fixed-size records and interned strings.
  An element whose only child is a text takes the text as its value; queries and serialization
  see the text as a child all the same. Handles to nodes answer E4X queries.
- **Row sets.** A binary stream of rows, plain or deflated, in pieces of any size, becomes the
  document of the envelope that it stands for.
- **Sorting.** Rows are sorted by keys read from them: texts, numbers or texts in lower case, in
  either direction, keeping the order of equal rows.
- **Export.** Rows become a workbook, or comma-separated values, at once or in chunks that the
  caller drives.

## Layout

`src/` is the verified library. The model of a document is in `doc.rs`, of a document in the
making in `builder.rs` and `tree.rs`, of queries in `queries.rs` and `serialize.rs`, of row sets
in `resp_wire.rs` and `resp_model.rs`, and of an export in `export.rs`. That what is written
parses as it was is in `rewrite.rs`, over the events whose text `markup.rs` has. What the library takes
from outside is in `xml_reader.rs` (events of a source), `inflate.rs`, `deflate.rs`, and in small
wrappers of `text.rs`, `node.rs` and `sort_keyed.rs`.

`tests/` runs the library on concrete values. `app/` is ordinary Rust around it: script values,
numbers with a fraction, and objects of a garbage-collected heap.
