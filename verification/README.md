# cloudsearch

A search engine for logs, events and other JSON documents, with the common part of the
Elasticsearch interface.

- `src/` is the engine. Its functions are verified with Verus against the contracts in their
  headers, but for the small ones that call other crates or the standard library, whose contracts are
  believed: mappings, the query language in its JSON and its query string form, matching and scoring,
  sorting and pages, highlights, aggregations, columns of values, the write-ahead view of an index,
  refresh, flush, merge, recovery, retention and named snapshots.
- `src/index/properties.rs`, `src/index/durability.rs`, `src/semantics.rs`, `src/grammar.rs` and the
  public proof functions of the other modules state what holds over several operations.
- `app/` puts the engine to work: files, the write-ahead log, the HTTP interface, and whatever is
  floating point.
- `tests/` runs the engine on values.

An index is an `index::IndexHandle`. A document is admitted (`admit_document`), its expiry is noted
(`note_expiry`), its record is appended to the log, and it is written (`index_document`). Searches see
it after `refresh`. A search first finds its matches (`find`), whose scores rank them, and then answers
with the page that was asked for (`search`).

A flush writes every document to a segment, those that wait for a refresh too. The segments before it
stay listed as long as no document that they hold is gone; otherwise the new one takes their place. So
an index that is opened again has what its last flush and the log behind it came to.

A few functions call other crates. Each such call stands in a small function of its own, marked
`external_body`, whose doc comment says what is claimed of the other crate.
