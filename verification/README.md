# lapce_collab

Character-wise collaborative editing for the Lapce editor, verified with Verus.

Every character of a shared file carries a *position identifier*: a sequence of
levels, each a digit and the user who created it. Replicas keep their characters in
the order of these identifiers, so changes can arrive in any order.

## Layout

- `src/crdt.rs` — identifiers, characters and the total order on positions.
- `src/position.rs` — generating a position between two others (through
  `rust_decimal`), with `src/decimal.rs` as the plain model of that crate's decimals
  and `src/digits.rs` for digit text and numeral parsing.
- `src/between.rs` — the proof that a generated position lies between its neighbours;
  `src/limits.rs` — when generating a position runs, for positions of digit levels,
  and how position decimals are ordered.
- `src/keys.rs`, `src/collab.rs` — the initial replica of a file, and the changes
  that other users send.
- `src/document.rs` — sorting a replica, its text, and the convergence of replicas.
- `src/session.rs` — the editor's side: a typed character placed between neighbours.
- `src/panel.rs` — what the collaboration panel exchanges with the server.
- `app/` — WebSocket and HTTP plumbing, files and clipboard; all decisions are made by
  the library.
