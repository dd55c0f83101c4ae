# Tower of Hanoi

A Tower of Hanoi game: the game logic is a library verified with Verus, and
`app/` is the Bevy front end around it.

## Layout

- `src/peg.rs` — pegs, moves, move errors.
- `src/model.rs` — the mathematical model: a position assigns each disk to a
  peg; the pegs' contents, legality, the outcome of a move, and playing a
  sequence of moves.
- `src/game.rs` — `HanoiGame`, whose every operation is specified over the model
  and keeps the game legal.
- `src/solver.rs` — the classic solution (`solve`) and the plan from any legal
  position (`solve_from_current`), with proofs that both play through and solve.
- `src/optimality.rs` — the proofs that no sequence solves a fresh game of `n`
  disks in fewer than `2^n - 1` moves, and that the plan from any legal
  position is a shortest solution.
- `src/controls.rs` — the decisions of the interactive game: what the keys and
  the mouse of one frame ask for, disk-count setting, peg selection, automatic
  solving step by step, status line.
- `tests/` — the test suite.
- `app/` — the Bevy application (window, reading input, cursor geometry,
  drawing). `bevy` in `Cargo.toml` is for `app/`; the library uses no outside
  crate.
