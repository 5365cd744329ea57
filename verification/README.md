# sudoku-core

A Sudoku library whose logic is proved with Verus: board representation,
placement rules, a backtracking solver, a validator, a puzzle generator, and
the state machine of the browser game. `app/` holds the web server (Axum) and
the browser front end (Yew), which only move data in and out of the library.

## Layout

- `src/board.rs` — the 9×9 board, difficulties and their names.
- `src/rules.rs` — the rules as specifications (units, consistency, fillings,
  solutions) and the placement check.
- `src/solver.rs` — the most-constrained-cell backtracking solver.
- `src/validator.rs` — the conflict finder behind the "Check" button.
- `src/generator.rs` — random grid filling and cell removal (uses `rand`).
- `src/clock.rs` — the `mm:ss` clock text.
- `src/game.rs` — the browser game's state transitions and cell styles.
- `src/api.rs` — what the puzzle and solve endpoints compute.
- `app/` — HTTP handlers, JSON shapes and the Yew components.
