# docstore

Compressed, row-oriented storage for documents, and the parts of a search index that work directly
with it, verified with Verus.

- `src/store`: blocks of documents, the field-id remap behind each block, writing, stacking and
  reading stores, and a cache of decompressed blocks. `src/store/laws.rs` states what holds of
  stores that were written, stacked and read.
- `src/index`, `src/schema.rs`: indexes in a directory, their description, additive changes of the
  schema, writers and readers.
- `src/aggregation`, `src/collector`: the number of distinct values of a field, exact within each
  segment, collected over whole segments or over ranges of documents.
- `app`: files, threads, serialisation and floating point numbers around the library.
- `tests`: the library as its users see it.

The functions marked `external_body` call `lru`, `rustc-hash`, `lz4_flex` and the standard library.
Their contracts are believed, everything else in `src` is proved.
