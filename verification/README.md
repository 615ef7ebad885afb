# mdkb

A knowledge base over a repository. The library finds code that is written
twice, types the receivers of method calls, and holds the rules around the
stores, the server and the telemetry. Every function of it is verified with
Verus: the contracts are stated over mathematical models of the data, and the
properties that span several functions stand beside them as proof functions.

* `src/code/duplication`: body texts and cache keys, structural fingerprints,
  clusters by complete linkage, the semantic pass over what the clusters leave
  open, and what the cache holds of a body.
* `src/code/parsing`: syntax trees, a parser that caches the last one, and the
  type of the expression a Rust method call was made on.
* `src/code/indexing`: what the index stores of a receiver.
* `src/audit.rs`: the duplication audit as a sequence of steps.
* `src/store`, `src/mcp`, `src/metrics`, `src/cli`, `src/eval`: namespaces,
  access to the server, keyed query hashes, scheduling priority, evaluation
  fixtures.
* `src/text.rs`, `src/sorting.rs`: text and sorting for the rest.

`app/` performs what the library asks for: files, databases, models, signals,
sockets, and arithmetic on floating-point numbers.

What the library takes on trust of other crates and of the standard library
stands in the few functions marked `external_body` and the
`assume_specification` items; the comment above each says what is claimed.

Vectors and scores are bit patterns of single-precision numbers in the library.
