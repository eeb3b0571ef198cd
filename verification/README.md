# signal_tree

The selection, search and grouping logic of a signal tree panel for
measurement files, verified with Verus.

- `src/` is the verified library: the panel state (`state.rs`), grouping of
  channels by data group and channel group (`grouping.rs`), what the tree
  shows after a search (`tree.rs`), string helpers (`text.rs`), the
  regular-expression calls into the `regex` crate (`search.rs`), and the
  properties that span operations (`laws.rs`).
- `app/` draws the panel with egui, reads channels from a measurement file,
  and holds the serde form of the state.
- `tests/` runs the library on concrete channel lists.
