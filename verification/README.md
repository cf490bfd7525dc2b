# gc3c

A three colour (white, grey, black) incremental garbage collector, verified
with Verus.

- `src/model.rs` — the mathematical model: colours, handles, the abstract
  state of the colour bookkeeping and of the heap, and the relations that
  marking, sweeping and the automatic collection establish.
- `src/collector.rs` — `InGcEnv` (colour lists and roots), the `Mark` trait,
  `GcEnv` (the collector and its heap) and the handle methods.
- `src/gc.rs` — the operations as free functions on a collector.
- `src/laws.rs` — properties that span operations.
- `src/seq_lemmas.rs` — sequence facts used by the proofs.
- `app/lib.rs` — a collector per thread behind free functions.
- `tests/` — scenarios run against the compiled library.
