# cartographer

A graph library with treewidth solvers (QuickBB branch-and-bound and
Tamaki's PID-BT), graph generators, ZX-diagram rewrites, a Graph3 text
format and OpenQASM export, written in Verus: every function in `src/`
carries a contract that Verus proves.

- `src/graph.rs` — the colored multigraph (`Graph`) over petgraph with
  logical vertex deletion, and its model `GraphModel`.
- `src/algorithm/` — QuickBB (`bb`, `bb_tw`), PID-BT (`pidd_tw`), the
  min-fill and minor-min-width bounds, and the elimination game
  (`elimination.rs`) that `bb`'s orderings are measured by.
- `src/generator/` — named and small graphs, random models driven by a
  seeded `StdRng`, random graph-like ZX diagrams.
- `src/operation/` — spider fusion, H-parity normalization, unfusing, K3
  rewrites, the Hadamard-triangle reduction, line graphs.
- `src/io/` — Graph3 reading and rendering; `round_trip.rs` proves that
  reading a rendering gives back the graph's alive part, and
  `render_fixpoint.rs` that rendering what was read gives the same text.
- `src/q_circuit/` — random circuits, their ZX graphs and OpenQASM text.
- `src/petgraph_ext.rs`, `src/bitset.rs`, `src/rng.rs`, `src/text.rs` —
  the trusted wrappers around petgraph, fixedbitset, rand and `str`.
- `app/` — the command-line driver, file I/O, and the random models that
  draw floating-point numbers.
- `tests/` — scenario tests run against the compiled library.
