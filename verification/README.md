# ibrief

A morning briefing that learns from its reader. Feeds are fetched, deduplicated,
ranked by learned weights, summarised by a language model, curated with a cap per
source and per story, and joined by a counterpoint and a wildcard. Feedback moves the weights,
sources are pruned with care for breadth, and prompts are tried in the shadow
before they are used.

- `src/` is the library, verified with Verus. Every decision stands there with its
  contract; public proof functions state what holds across functions.
- `app/` runs it: arguments, database, network, processes, and arithmetic on
  doubles.
- `tests/` exercises the library from outside.

Doubles never enter the library as such. A double is held as its place in the
order of all doubles (`score::Score`), so that comparisons are exact; sums,
products, cosines and random draws are made in `app/numbers.rs`.

The library calls `serde_json` (lists of texts), `chrono` (RFC 3339 instants) and
`feed-rs` (RSS and Atom) behind small trusted functions in `store` and `ingest`,
and a few functions of the standard library in `text`. Their contracts are
believed, not proved. Bytes on which the feed parser could panic are recognised
first (`markup`), and their source is passed over.

Calibrating against a subscription uses the command named by
`IBRIEF_CALIBRATION_COMMAND`.
