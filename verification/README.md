# folkengine

A folksonomy domain kernel, verified with Verus: a poly-hierarchical tag
vocabulary, `(tagger, item, tag)` bindings, and per-actor selections over
them. No I/O, no clock, no files; items are opaque ids.

## Layout

- `src/lib.rs` — the public surface.
- `src/ids.rs`, `src/action.rs`, `src/event.rs`, `src/error.rs` — identities,
  intents, events and refusals, each with a value view.
- `src/label.rs` — the one label rule: trim, single-space, Unicode lowercase.
- `src/text.rs`, `src/sorted.rs` — character order and sorted sequences.
- `src/state.rs` — the state and its shape (`wf`).
  - `state/apply.rs` — `apply`: what each action emits or why it is refused.
  - `state/fold.rs` — `fold`: replaying events; the splitting laws.
  - `state/graph.rs` — ancestors, descendants, cycles.
  - `state/query.rs` — projections, `query`, `facets`; reads see only what
    the actor may see.
  - `state/load.rs` — `from_parts` and `validate`.
  - `state/valid.rs` — the kernel's invariants; an accepted action never
    gives a state with defects from one without.
- `tests/` — the behaviour pinned on concrete values.
- `app/lib.rs` — serde and `Display` on plain copies of the public types.
