# microshogi

Rules engine and tablebase tools for Micro Shogi, a 4x5 drop-shogi variant,
written in Verus: the library's functions carry contracts that Verus proves,
and its few calls into std sit behind small trusted wrappers.

## Layout

- `src/rules.rs` — positions, move generation, making moves, perft.
- `src/notation.rs` — the position notation (`S/k---/p---/----/---P/---K/-`).
- `src/packing.rs` — packing a position into a `u128` key, the colour-swapping
  rotation and the left-right mirror, canonical keys.
- `src/retro.rs` — the calibration-ladder setups, reachable-key enumeration, the
  Jacobi retrograde solver, its consistency audit and a forward cross-check.
- `src/dense_kpg.rs` — dense ranking of the King + Pawn + Gold slice, predecessor
  generation by un-moves, and the queue-based retrograde solve over ranks.
- `src/table.rs` — the dumped-table file format and the statistics of a scan.
- `src/report.rs` — text fields of run reports.
- `app/` — the command-line drivers (`perft`, `solve`, `solve_dense_kpg`,
  `table_stats`): argument handling, files, timing and floating-point figures.

Among the proved properties: packing and notation round-trip, ranks and KPG
positions correspond one to one, mirrored and colour-swapped positions have as many
moves, mirrored ones the same canonical key, rank and perft counts, a solved table lists its keys in breadth-first order and passes its audit,
the forward cross-check counts exactly the keys where a forward search disagrees, and the
predecessors generated for a canonical rank are the ranks of its parents, all of
them and nothing else.
