# syncer_rs

JSON reconciliation and causal ordering for offline sync, written in Verus.

- `src/` is the verified library. `merge.rs` states the merge as spec
  functions and proves the executable merge against them; `reconcile.rs`
  reads two JSON texts (through `serde_json`), merges them and writes the
  canonical compact text; `compact.rs`, `reader.rs` and `numtext.rs` are the
  compact writer, its reader and the canonical number rendering; `values.rs`
  holds equality, identity, timestamp and JSON-pointer rules; `schema.rs`
  validates options given as JSON; `causal.rs`, `functional.rs` and
  `optimistic.rs` hold version vectors, causal envelopes and optimistic
  writes. The calls into `serde_json` are in `serde_support.rs`.
- `app/` holds the C ABI, the WebAssembly exports, merges that report to an
  injected observation sink, and the serde forms of the library's types.
- `tests/` exercises the library from outside.
