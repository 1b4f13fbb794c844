# EidosDB

A vector database: collections of embeddings searched by an exact flat index
or an HNSW graph, with schemaless payloads, payload filters, a BM25 lexical
channel fused with the dense one by reciprocal rank fusion, and a wire format
for a client/server split.

## Layout

- `src/` is the library, written in Verus and verified. It holds the logic:
  identifiers and dimensions, the payload model and filter evaluation, the
  wire conversions and their round trips, the lexical index's bookkeeping,
  the HNSW graph with its snapshot and restore, the HNSW searches and
  insertion, the flat index, the ranking of scored results, the server's
  admission and streaming rules, the command line's JSON payload and filter
  arguments, and the benchmark measures.
  Scores are `f32`/`f64` values computed outside the library; the library
  receives them as raw bits and compares them exactly as the floating-point
  types do (`total_cmp` for ranking, `>` where the algorithms compare).
- `tests/` exercises the library.
- `app/` is the program around it: embeddings and metric scoring, BM25 and
  fusion arithmetic, the collection that binds the indexes, metadata files,
  the command-line surface, and the `eidosdb-bench` binary.
