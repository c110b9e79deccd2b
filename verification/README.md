# obdd_engine

A step-by-step engine that turns a propositional formula (`~a & b -> c`)
into an ordered binary decision diagram, keeping every intermediate snapshot
so that the construction can be replayed forwards and backwards. The library
is written in Verus and proved against its contracts.

Layout of `src/`:

- `formula.rs`: the syntax tree, its mathematical model `Prop`, evaluation
  under an assignment, and the printed form.
- `lexer.rs`: the tokenizer, specified by a function `scan` on characters.
- `parser.rs`: the Pratt parser, specified by `parse_spec`.
- `rewrite.rs`: substitution and simplification as functions on `Prop`, and
  the proofs that they keep the meaning of a formula.
- `model.rs`: the snapshots of the engine and the one-step transition.
- `engine.rs`: the executable engine, each step proved to be the transition.
- `wellformed.rs`: the invariant of every snapshot and its preservation.
- `laws.rs`, `termination.rs`, `canonical.rs`: what the engine promises as a
  whole: the diagram denotes the input, is reduced, ordered (by the first
  place of each name in the ordering) and canonical, the
  history is a replayable trace, operators group by precedence and to the
  left, and the construction finishes.

`app/` holds the WebAssembly interface (`wasm_bindgen` exports and the
serialisable snapshot).
