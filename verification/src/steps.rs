//! Applying a step, going back, and the laws that tie them together.

use vstd::prelude::*;

use crate::board::{grid_set, in_grid, Sudoku};
use crate::digits::{in_mask, lemma_ext, mask_remove};
use crate::{strategy_index, Candidate, Resolution, Strategy, StrategyResult};

verus! {

/// The step removes the candidate `n` of the cell `(r, c)`.
pub open spec fn removes(sr: StrategyResult, r: int, c: int, n: int) -> bool {
    sr.removals.candidates_about_to_be_removed@.contains(Candidate { row: r as usize, col: c as usize, num: n as u8 })
}

/// The step can be applied: every candidate it removes is a candidate of a cell of the
/// grid, the cell it fills lies in the grid, and the rating has room to count it.
pub open spec fn can_apply(s: Sudoku, sr: StrategyResult) -> bool {
    &&& sr.removals.wf()
    &&& forall|x: Candidate|
        #[trigger] sr.removals.candidates_about_to_be_removed@.contains(x) ==> x.row < 9 && x.col < 9 && s.cand(
            x.row as int,
            x.col as int,
            x.num as int,
        )
    &&& sr.removals.sets_cell matches Some(cell) ==> cell.row < 9 && cell.col < 9 && s.rated(sr.strategy)
        < usize::MAX
}

/// `snap` holds the board, the candidates and the rating of `s`, and no undo stack.
pub open spec fn is_snapshot(snap: Sudoku, s: Sudoku) -> bool {
    &&& snap.board == s.board
    &&& snap.original_board == s.original_board
    &&& snap.candidates == s.candidates
    &&& snap.rating == s.rating
    &&& snap.undo_stack@.len() == 0
}

/// What applying the step `sr` to `s` gives `t`: the state before is pushed on the undo
/// stack, the removed candidates are gone and no other, the cell is filled, and the
/// strategy is counted once for a filled cell.
pub open spec fn applied(s: Sudoku, t: Sudoku, sr: StrategyResult) -> bool {
    &&& t.undo_stack@.len() == s.undo_stack@.len() + 1
    &&& t.undo_stack@.drop_last() == s.undo_stack@
    &&& is_snapshot(t.undo_stack@.last(), s)
    &&& t.original_board == s.original_board
    &&& forall|r: int, c: int, n: int| in_grid(r, c) ==> #[trigger] t.cand(r, c, n) == (s.cand(r, c, n) && !removes(sr, r, c, n))
    &&& match sr.removals.sets_cell {
        Some(cell) => {
            &&& grid_set(s.board, t.board, cell.row as int, cell.col as int, cell.num)
            &&& t.rated(sr.strategy) == s.rated(sr.strategy) + 1
            &&& forall|i: int| 0 <= i < 12 && i != strategy_index(sr.strategy) ==> t.rating[i] == s.rating[i]
        },
        None => t.board == s.board && t.rating == s.rating,
    }
}

/// What `undo` does to `s`, giving `t`.
pub open spec fn undone(s: Sudoku, t: Sudoku) -> bool {
    &&& s.undo_stack@.len() == 0 ==> {
        &&& t.board == s.board
        &&& t.candidates == s.candidates
        &&& t.rating == s.rating
        &&& t.original_board == s.original_board
        &&& t.undo_stack@ == s.undo_stack@
    }
    &&& s.undo_stack@.len() > 0 ==> {
        let top = s.undo_stack@.last();
        &&& t.board == top.board
        &&& t.candidates == top.candidates
        &&& t.rating == top.rating
        &&& t.original_board == s.original_board
        &&& t.undo_stack@ == s.undo_stack@.drop_last()
    }
}

impl Sudoku {
    /// Go back to the state before the last applied step, if there is one.
    pub fn undo(&mut self)
        ensures
            undone(*old(self), *final(self)),
    {
        if let Some(state) = self.undo_stack.pop() {
            self.board = state.board;
            self.candidates = state.candidates;
            self.rating = state.rating;
        }
    }

    /// Apply a step: remember the current state for `undo`, remove the step's candidates,
    /// fill its cell and count the strategy once for the filled cell.
    pub fn apply(&mut self, strategy_result: &StrategyResult) -> (res: Resolution)
        requires
            can_apply(*old(self), *strategy_result),
        ensures
            applied(*old(self), *final(self), *strategy_result),
            res.nums_removed == strategy_result.removals.candidates_about_to_be_removed@.len(),
            res.nums_removed == strategy_result.removals@.removed.len(),
            res.strategy == strategy_result.strategy,
    {
        let snap = self.snapshot();
        self.undo_stack.push(snap);
        let removals = &strategy_result.removals.candidates_about_to_be_removed;
        let result = Resolution { nums_removed: removals.len(), strategy: strategy_result.strategy };
        proof {
            removals@.unique_seq_to_set();
        }
        let ghost start = self.candidates;
        let ghost pushed = self.undo_stack@;
        proof {
            assert(pushed.drop_last() =~= old(self).undo_stack@);
        }
        let mut i: usize = 0;
        while i < removals.len()
            invariant
                i <= removals@.len(),
                removals == &strategy_result.removals.candidates_about_to_be_removed,
                can_apply(*old(self), *strategy_result),
                start == old(self).candidates,
                self.board == old(self).board,
                self.original_board == old(self).original_board,
                self.rating == old(self).rating,
                self.undo_stack@ == pushed,
                forall|r: int, c: int, n: int|
                    in_grid(r, c) ==> #[trigger] in_mask(self.candidates[r][c], n) == (in_mask(start[r][c], n)
                        && !removals@.take(i as int).contains(Candidate { row: r as usize, col: c as usize, num: n as u8 })),
            decreases removals@.len() - i,
        {
            let note = removals[i];
            assert(removals@.contains(note));
            let ghost before = self.candidates;
            self.candidates[note.row][note.col] = mask_remove(self.candidates[note.row][note.col], note.num);
            proof {
                crate::lemma_take_next(removals@, i as int);
                assert forall|r: int, c: int, n: int| in_grid(r, c) implies #[trigger] in_mask(self.candidates[r][c], n)
                    == (in_mask(start[r][c], n) && !removals@.take(i + 1).contains(Candidate { row: r as usize, col: c as usize, num: n as u8 })) by {
                    let x = Candidate { row: r as usize, col: c as usize, num: n as u8 };
                    if r == note.row && c == note.col {
                        assert(in_mask(before[r][c], n) == (in_mask(start[r][c], n) && !removals@.take(i as int).contains(x)));
                        if 0 <= n < 16 {
                            assert((x == note) == (n == note.num));
                        } else {
                            assert(!in_mask(start[r][c], n));
                        }
                    } else {
                        assert(self.candidates[r][c] == before[r][c]);
                        assert(x != note);
                    }
                }
            }
            i = i + 1;
        }
        proof {
            assert(removals@.take(removals@.len() as int) =~= removals@);
        }
        if let Some(cell) = &strategy_result.removals.sets_cell {
            self.board[cell.row][cell.col] = cell.num;
            let k = strategy_result.strategy.index();
            self.rating[k] = self.rating[k] + 1;
            proof {
                assert(grid_set(old(self).board, self.board, cell.row as int, cell.col as int, cell.num));
            }
        }
        proof {
            assert forall|r: int, c: int, n: int| in_grid(r, c) implies #[trigger] self.cand(r, c, n) == (old(self).cand(r, c, n) && !removes(*strategy_result, r, c, n)) by {
                assert(in_mask(self.candidates[r][c], n) == (in_mask(start[r][c], n) && !removals@.take(removals@.len() as int).contains(Candidate { row: r as usize, col: c as usize, num: n as u8 })));
            }
        }
        result
    }

    /// Undo the last step.
    pub fn prev_step(&mut self) -> (res: Resolution)
        ensures
            undone(*old(self), *final(self)),
            res.nums_removed == 0,
            res.strategy == Strategy::NoStrategy,
    {
        self.undo();
        Resolution { nums_removed: 0, strategy: Strategy::NoStrategy }
    }
}

/// Undoing right after a step gives back the board, the candidates, the rating and the
/// undo stack from before the step.
pub proof fn lemma_undo_after_apply(s0: Sudoku, s1: Sudoku, s2: Sudoku, sr: StrategyResult)
    requires
        applied(s0, s1, sr),
        undone(s1, s2),
    ensures
        s2.board == s0.board,
        s2.candidates == s0.candidates,
        s2.rating == s0.rating,
        s2.original_board == s0.original_board,
        s2.undo_stack@ == s0.undo_stack@,
{
}

/// A step takes away exactly the candidates it lists: each of them was a candidate and
/// is one no more, and every other candidate stays.
pub proof fn lemma_apply_removes(s0: Sudoku, s1: Sudoku, sr: StrategyResult)
    requires
        can_apply(s0, sr),
        applied(s0, s1, sr),
    ensures
        forall|x: Candidate|
            #[trigger] sr.removals.candidates_about_to_be_removed@.contains(x) ==> s0.cand(x.row as int, x.col as int, x.num as int)
                && !s1.cand(x.row as int, x.col as int, x.num as int),
        forall|r: int, c: int, n: int| in_grid(r, c) && s0.cand(r, c, n) && !removes(sr, r, c, n) ==> #[trigger] s1.cand(r, c, n),
{
    assert forall|x: Candidate| #[trigger] sr.removals.candidates_about_to_be_removed@.contains(x) implies s0.cand(x.row as int, x.col as int, x.num as int)
        && !s1.cand(x.row as int, x.col as int, x.num as int) by {
        assert(s0.cand(x.row as int, x.col as int, x.num as int));
        assert(x.num < 16);
        assert(x == Candidate { row: x.row as int as usize, col: x.col as int as usize, num: x.num as int as u8 });
        assert(removes(sr, x.row as int, x.col as int, x.num as int));
    }
}

} // verus!
