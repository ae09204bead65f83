# Connect Four

Several approaches to strongly solving Connect Four, with a variety of
board representations and search algorithms, verified with Verus.

- `src/basic`: tokens, columns, rows, cells and directions.
- `src/board`: the mathematical model of a board (`model.rs`), the value of
  a position under perfect play, and the board representations (`BitBoard`,
  `BitCols`, `SymmBoard`, `ArrayBoard`, `Moves`), each proved to follow the
  model. `threats.rs` and `win_bits.rs` hold the facts the fast bitboard
  queries rest on; `text.rs` the text picture of a board.
- `src/solver_utils`: the transposition cache, the move sorter, positions
  that track their move count, and solver managers.
- `src/solvers`: the solvers, from plain negamax to `MinimaxQuick`; each is
  proved to return the value of the position.
- `src/player.rs`, `src/bench.rs`: reading moves, choosing the computer's
  move, and reading test set lines.
- `app/`: the command line program (playing against the solver, benching
  the solvers on test sets with a time limit).
