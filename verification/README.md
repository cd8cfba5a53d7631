# amasario

Provenance graphs and evidence for Soroban contracts, with the behaviour of each
function stated as a Verus contract and proved.

- `src/graph` — typed graphs of entities and relationships: construction, integrity
  rules, canonical ordering, breadth-first traversal in both directions, shortest and
  simple routes, strongly connected components and one representative cycle each, and
  the published graph document.
- `src/evidence` — evidence records and their registry, the confidence a set of records
  supports and the verification status of a claim, and the builders for each evidence
  class.
- `src/export` — the export formats, and the GraphML and DOT renderers with their
  escaping.
- `src/order.rs`, `src/text.rs`, `src/digest.rs` — the orders listings are sorted by,
  text helpers, and the SHA-256 digest (computed by the `sha2` crate).
- `app/` — serde copies of the published documents, and the JSON and YAML writers and
  reader.

The tests under `tests/` exercise the library on concrete graphs and records.
