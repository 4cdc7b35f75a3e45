# provenance

A verified library for keeping requirements, decisions and the rules derived
from them traceable to their sources, written in Verus.

- `src/scanner` reads provenance annotations and rule bindings out of source
  files (Rust, Python, JavaScript, TypeScript, Java and Go),
  tracking string and comment context line by line, and checks them against
  the known rules.
- `src/ste100` checks descriptive text against ASD-STE100 Simplified
  Technical English: sentence and paragraph length, protected quotations,
  contracted verbs and dictionary vocabulary, and reads dictionary rows.
- `src/store` holds the graph-state logic: graph references and their
  checks, projections of a scope's graph, three-way merges of record shards,
  the store's directory layout, publication recovery decisions, and the
  queries over a scope's graph (gaps, coverage health, impact, staleness,
  traceability).
- `src/text.rs` has the character and UTF-8 helpers the rest builds on.

Every function in `src/` carries a contract that Verus proves; the public
`law_*` proof functions state properties that span several calls. `app/`
holds the thin layer around the library that does file-system walking and
JSON conversion, and `tests/` exercises the library on concrete inputs.

The storage layer is not part of this crate: there is no SQLite cache (the
migrations are only planned and checked, not run), no listing of a store's
records from disk, no advisory locks and no atomic JSONL writes. The
queries take a scope's records, edges and the current time as arguments,
so whatever loads them from storage hands them over as plain values.
