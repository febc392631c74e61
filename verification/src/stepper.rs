//! Stepping through a solution one action at a time, as a viewer of the puzzle does it:
//! compute the candidates, find the next step and show it, then apply it.

use vstd::prelude::*;

use crate::board::{all_notes_empty, all_zero_rating, in_box, in_col, in_grid, in_row, valid_completion, Grid, Sudoku};
use crate::codec::{board_digits, board_text, compact_char, digits_of, is_digit, is_digit_char, printable, push_char, restored};
use crate::solver::{counted, first_step, is_next_step, step_defined, step_fits};
use crate::steps::{applied, can_apply, undone};
use crate::{empty_view, Strategy, StrategyResult, Unit, EMPTY};

verus! {

/// What the next action of the viewer is.
#[derive(Debug, Clone, Copy, PartialEq, Eq, Structural)]
pub enum State {
    CalculateNotes,
    TryingStrategy,
    ApplyingStrategy,
}

/// The puzzle being viewed, the board text kept in the settings, the step found last and
/// the next action.
#[derive(Debug)]
pub struct SudokuApp {
    pub sudoku_string: String,
    pub sudoku: Sudoku,
    pub strategy_result: StrategyResult,
    pub state: State,
}

/// `t` is `s` with the candidates computed as `calc_candidates` computes them.
pub open spec fn noted(s: Sudoku, t: Sudoku) -> bool {
    &&& t.board == s.board
    &&& t.original_board == s.original_board
    &&& t.rating == s.rating
    &&& t.undo_stack == s.undo_stack
    &&& forall|r: int, c: int| in_grid(r, c) && s.board[r][c] != EMPTY ==> t.candidates[r][c] == s.candidates[r][c]
    &&& forall|r: int, c: int, n: int|
        in_grid(r, c) && s.board[r][c] == EMPTY ==> t.cand(r, c, n) == (1 <= n <= 9 && !in_row(s.board, r, n) && !in_col(
            s.board,
            c,
            n,
        ) && !in_box(s.board, r, c, n))
}

/// The next action can be taken: the strategies tried can look at the grid and the rating
/// has room, or the step kept can be applied.
pub open spec fn can_proceed(a: SudokuApp) -> bool {
    &&& a.state == State::TryingStrategy ==> step_defined(a.sudoku) && step_fits(a.sudoku)
    &&& a.state == State::ApplyingStrategy ==> can_apply(a.sudoku, a.strategy_result)
}

/// `b` is `a` after its next action.
pub open spec fn proceeded(a: SudokuApp, b: SudokuApp) -> bool {
    &&& b.sudoku_string == a.sudoku_string
    &&& a.state == State::CalculateNotes ==> {
        &&& noted(a.sudoku, b.sudoku)
        &&& b.strategy_result == a.strategy_result
        &&& b.state == State::TryingStrategy
    }
    &&& a.state == State::TryingStrategy ==> {
        &&& is_next_step(a.sudoku, b.strategy_result)
        &&& first_step(a.sudoku) is Some ==> counted(a.sudoku, b.sudoku, b.strategy_result)
        &&& first_step(a.sudoku) is None ==> b.sudoku == a.sudoku
        &&& b.state == State::ApplyingStrategy
    }
    &&& a.state == State::ApplyingStrategy ==> {
        &&& applied(a.sudoku, b.sudoku, a.strategy_result)
        &&& b.strategy_result.strategy == Strategy::NoStrategy
        &&& b.strategy_result.removals@ == empty_view()
        &&& b.state == State::TryingStrategy
    }
}

/// What the viewer of the puzzle does.
pub enum Event {
    /// Text pasted from the clipboard.
    Paste(String),
    /// The board is copied to the clipboard.
    Copy,
    /// The next action, by the right arrow key or the forward button.
    Forward,
    /// Back to the board as it was read, to compute its candidates again.
    Rewind,
    /// Undo the last step.
    Back,
    /// Fill the board by backtracking.
    Finish,
}

/// What the status line shows.
#[derive(Debug, Clone, Copy, PartialEq, Eq, Structural)]
pub enum Status {
    /// The step kept, found by the strategy, in a house of that kind if it names one.
    Found { strategy: Strategy, unit: Option<Unit> },
    /// No step is kept and the board is full.
    Solved,
    /// No step is kept and the board has an empty cell.
    Ready,
}

/// The digits of the text, in order.
pub open spec fn ascii_digits(s: Seq<char>) -> Seq<char>
    decreases s.len(),
{
    if s.len() == 0 {
        Seq::empty()
    } else {
        ascii_digits(s.drop_last()) + if is_digit_char(s.last()) {
            seq![s.last()]
        } else {
            Seq::<char>::empty()
        }
    }
}

/// A text of digits is its own board text, and each character gives a digit.
proof fn lemma_all_digits(t: Seq<char>)
    requires
        forall|i: int| 0 <= i < t.len() ==> #[trigger] is_digit_char(t[i]),
    ensures
        board_digits(t) == digits_of(t),
        digits_of(t).len() == t.len(),
    decreases t.len(),
{
    if t.contains(' ') {
        let k = choose|k: int| 0 <= k < t.len() && t[k] == ' ';
        assert(is_digit_char(t[k]));
    }
    if t.contains('\n') {
        let k = choose|k: int| 0 <= k < t.len() && t[k] == '\n';
        assert(is_digit_char(t[k]));
    }
    let m = t.map_values(|c: char| compact_char(c));
    assert(m =~= t) by {
        assert forall|i: int| 0 <= i < t.len() implies #[trigger] m[i] == t[i] by {
            assert(is_digit_char(t[i]));
        }
    }
    if t.len() > 0 {
        lemma_all_digits(t.drop_last());
        assert(is_digit_char(t[t.len() - 1]));
    }
}

/// The digits of a text are digits.
proof fn lemma_ascii_digits(s: Seq<char>)
    ensures
        forall|i: int| 0 <= i < ascii_digits(s).len() ==> #[trigger] is_digit_char(ascii_digits(s)[i]),
    decreases s.len(),
{
    if s.len() > 0 {
        lemma_ascii_digits(s.drop_last());
        let prev = ascii_digits(s.drop_last());
        assert forall|i: int| 0 <= i < ascii_digits(s).len() implies #[trigger] is_digit_char(ascii_digits(s)[i]) by {
            if i < prev.len() {
                assert(ascii_digits(s)[i] == prev[i]);
            }
        }
    }
}

impl SudokuApp {
    /// An empty puzzle, with nothing found yet; the first action computes the candidates.
    pub fn new() -> (app: SudokuApp)
        ensures
            app.sudoku_string@ == Seq::<char>::empty(),
            crate::board::all_cells_zero(app.sudoku.board),
            crate::board::all_cells_zero(app.sudoku.original_board),
            crate::board::all_notes_empty(app.sudoku.candidates),
            crate::board::all_zero_rating(app.sudoku.rating),
            app.sudoku.undo_stack@.len() == 0,
            app.strategy_result.strategy == Strategy::NoStrategy,
            app.strategy_result.removals@ == empty_view(),
            app.strategy_result.removals.wf(),
            app.state == State::CalculateNotes,
    {
        SudokuApp {
            sudoku_string: String::new(),
            sudoku: Sudoku::new(),
            strategy_result: StrategyResult::empty(),
            state: State::CalculateNotes,
        }
    }

    /// Take the next action: compute the candidates; or find the next step and keep it to
    /// be shown; or apply the step kept and forget it. Then the next action is finding a
    /// step again.
    pub fn proceed(&mut self)
        requires
            can_proceed(*old(self)),
        ensures
            proceeded(*old(self), *final(self)),
    {
        match self.state {
            State::CalculateNotes => {
                self.sudoku.calc_candidates();
                self.state = State::TryingStrategy;
            },
            State::TryingStrategy => {
                let ghost before = self.sudoku;
                self.strategy_result = self.sudoku.next_step();
                proof {
                    if first_step(before) is None {
                        assert(self.sudoku.rating =~= before.rating);
                    }
                }
                self.state = State::ApplyingStrategy;
            },
            State::ApplyingStrategy => {
                let _resolution = self.sudoku.apply(&self.strategy_result);
                self.strategy_result.clear();
                self.state = State::TryingStrategy;
            },
        }
    }
}

impl SudokuApp {
    /// Handle what the viewer does; returns whether the view must be drawn again. A
    /// paste with 81 digits reads them as the board and keeps them as the board text;
    /// any other paste is ignored. Copying leaves the puzzle as it is, the clipboard
    /// being the caller's.
    pub fn update(&mut self, event: Event) -> (repaint: bool)
        requires
            event is Forward ==> can_proceed(*old(self)),
            event is Rewind ==> printable(old(self).sudoku.original_board),
        ensures
            match event {
                Event::Paste(text) => {
                    let d = ascii_digits(text@);
                    &&& repaint == (d.len() == 81)
                    &&& d.len() != 81 ==> *final(self) == *old(self)
                    &&& d.len() == 81 ==> {
                        &&& final(self).sudoku_string@ == d
                        &&& forall|r: int, c: int|
                            in_grid(r, c) ==> final(self).sudoku.board[r][c] == digits_of(d)[9 * r + c]
                                && final(self).sudoku.original_board[r][c] == digits_of(d)[9 * r + c]
                        &&& all_notes_empty(final(self).sudoku.candidates)
                        &&& all_zero_rating(final(self).sudoku.rating)
                        &&& final(self).sudoku.undo_stack == old(self).sudoku.undo_stack
                        &&& final(self).strategy_result == old(self).strategy_result
                        &&& final(self).state == old(self).state
                    }
                },
                Event::Copy => repaint && *final(self) == *old(self),
                Event::Forward => repaint && proceeded(*old(self), *final(self)),
                Event::Rewind => {
                    &&& repaint
                    &&& restored(old(self).sudoku, final(self).sudoku)
                    &&& final(self).sudoku_string == old(self).sudoku_string
                    &&& final(self).strategy_result.strategy == Strategy::NoStrategy
                    &&& final(self).strategy_result.removals@ == empty_view()
                    &&& final(self).state == State::CalculateNotes
                },
                Event::Back => {
                    &&& repaint
                    &&& undone(old(self).sudoku, final(self).sudoku)
                    &&& final(self).sudoku_string == old(self).sudoku_string
                    &&& final(self).strategy_result == old(self).strategy_result
                    &&& final(self).state == old(self).state
                },
                Event::Finish => {
                    &&& repaint
                    &&& (exists|full: Grid| valid_completion(old(self).sudoku.board, full)) ==> valid_completion(
                        old(self).sudoku.board,
                        final(self).sudoku.board,
                    )
                    &&& !(exists|full: Grid| valid_completion(old(self).sudoku.board, full)) ==> final(self).sudoku.board
                        == old(self).sudoku.board
                    &&& final(self).sudoku.candidates == old(self).sudoku.candidates
                    &&& final(self).sudoku.original_board == old(self).sudoku.original_board
                    &&& final(self).sudoku.rating == old(self).sudoku.rating
                    &&& final(self).sudoku.undo_stack == old(self).sudoku.undo_stack
                    &&& final(self).sudoku_string == old(self).sudoku_string
                    &&& final(self).strategy_result.strategy == Strategy::NoStrategy
                    &&& final(self).strategy_result.removals@ == empty_view()
                    &&& final(self).state == old(self).state
                },
            },
    {
        match event {
            Event::Paste(text) => {
                let mut digits = String::new();
                let mut n: usize = 0;
                for ch in it: text.as_str().chars()
                    invariant
                        it.seq() == text@,
                        digits@ == ascii_digits(it.seq().take(it.index() as int)),
                        n == if digits@.len() < 82 { digits@.len() as int } else { 82 },
                {
                    proof {
                        let i = it.index() as int;
                        assert(it.seq().take(i + 1).drop_last() =~= it.seq().take(i));
                        assert(it.seq().take(i + 1).last() == ch);
                    }
                    if is_digit(ch) {
                        push_char(&mut digits, ch);
                        if n < 82 {
                            n = n + 1;
                        }
                    }
                }
                proof {
                    assert(text@.take(text@.len() as int) =~= text@);
                }
                if n != 81 {
                    return false;
                }
                proof {
                    lemma_ascii_digits(text@);
                    lemma_all_digits(digits@);
                }
                let _ = self.sudoku.set_board_string(digits.as_str());
                self.sudoku_string = digits;
                true
            },
            Event::Copy => true,
            Event::Forward => {
                self.proceed();
                true
            },
            Event::Rewind => {
                self.sudoku.restore();
                self.state = State::CalculateNotes;
                self.strategy_result.clear();
                true
            },
            Event::Back => {
                let _ = self.sudoku.prev_step();
                true
            },
            Event::Finish => {
                self.strategy_result.clear();
                let _ = self.sudoku.solve_by_backtracking();
                true
            },
        }
    }

    /// What the status line shows: the step kept, else whether the board is solved.
    pub fn status(&self) -> (st: Status)
        ensures
            st == if self.strategy_result.strategy != Strategy::NoStrategy {
                Status::Found { strategy: self.strategy_result.strategy, unit: self.strategy_result.removals.unit }
            } else if forall|r: int, c: int| in_grid(r, c) ==> self.sudoku.board[r][c] != EMPTY {
                Status::Solved
            } else {
                Status::Ready
            },
    {
        if self.strategy_result.strategy != Strategy::NoStrategy {
            Status::Found { strategy: self.strategy_result.strategy, unit: self.strategy_result.removals.unit }
        } else if self.sudoku.is_solved() {
            Status::Solved
        } else {
            Status::Ready
        }
    }
}

impl Default for SudokuApp {
    fn default() -> (app: SudokuApp)
        ensures
            app.state == State::CalculateNotes,
            app.strategy_result.strategy == Strategy::NoStrategy,
            crate::board::all_cells_zero(app.sudoku.board),
    {
        SudokuApp::new()
    }
}

} // verus!
