# Rate My Sudoku

Rates the difficulty of a Sudoku by solving it as a human would: strategies are applied
from the easiest to the hardest, and every candidate or cell that a strategy settles is
counted for it. The library is written in Verus; every function states what it does in
its contract, and the proofs are checked.

## Layout

- `src/board.rs`: the grid, its candidates, computing candidates, backtracking.
- `src/codec.rs`, `src/json.rs`: the board string, the binary and compressed formats, JSON.
- `src/lastdigit.rs` … `src/skyscraper.rs`: the strategies, each with the exact set of
  candidates it removes.
- `src/steps.rs`, `src/solver.rs`: applying and undoing a step, finding the next step,
  solving as a human would.
- `src/sudoku.rs`, `src/resolve.rs`, `src/pointing.rs`: a simpler solver that works on the
  candidates directly and counts what each strategy removes.
- `src/solutions.rs`, `src/generator.rs`: all completions of a board, uniqueness, and
  generating puzzles.
- `src/stepper.rs`: stepping through a solution one action at a time.
- `src/sound.rs`, `src/elimination.rs`, `src/basic_sound.rs`: why solving as a human would
  gives the solution. Each strategy only removes candidates that no completion of the
  board needs (Locked Pair excepted, see `safe_strategy`), so a run that
  fills the board has found the board's only solution.
- `src/tally.rs`: the rating of a solve counts exactly the candidates removed and the cells
  filled.
- `app/`: the command line (`rate`, and `gen` as the first argument for the generator).
