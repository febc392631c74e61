//! Every completion of a board, found by backtracking, and whether a board has exactly one.

use vstd::prelude::*;

use crate::board::{
    empty_cells, grid_set, in_box, in_col, in_grid, in_row, lemma_empty_below_set, peers, placeable, same_box,
    valid_completion, completes_cell, Grid, Sudoku,
};
use crate::EMPTY;

verus! {

/// A completion of the board with `num` in the empty cell `(row, col)` completes the board.
pub proof fn lemma_completion_of_placed(base: Grid, placed: Grid, row: int, col: int, num: u8, full: Grid)
    requires
        in_grid(row, col),
        placeable(base, row, col, num as int),
        grid_set(base, placed, row, col, num),
        1 <= num <= 9,
        valid_completion(placed, full),
    ensures
        valid_completion(base, full),
        full[row][col] == num,
{
    assert(completes_cell(placed, full, row, col));
    assert forall|r: int, c: int| in_grid(r, c) implies #[trigger] completes_cell(base, full, r, c) by {
        assert(completes_cell(placed, full, r, c));
        if r == row && c == col {
            assert forall|r2: int, c2: int| in_grid(r2, c2) && peers(r, c, r2, c2) implies full[r2][c2] != full[r][c] by {
                assert(completes_cell(placed, full, r2, c2));
                if placed[r2][c2] == EMPTY {
                    assert(peers(r2, c2, r, c));
                } else {
                    assert(base[r2][c2] == placed[r2][c2]);
                    if base[r2][c2] == num {
                        if r2 == r {
                            assert(in_row(base, r, num as int));
                        } else if c2 == c {
                            assert(in_col(base, c, num as int));
                        } else {
                            assert(in_box(base, r, c, num as int));
                        }
                    }
                }
            }
        }
    }
}

/// A completion of the board with `num` in the empty cell `(row, col)` completes the board
/// with `num` placed there.
pub proof fn lemma_completion_to_placed(base: Grid, placed: Grid, row: int, col: int, num: u8, full: Grid)
    requires
        in_grid(row, col),
        base[row][col] == EMPTY,
        grid_set(base, placed, row, col, num),
        valid_completion(base, full),
        full[row][col] == num,
    ensures
        valid_completion(placed, full),
{
    assert forall|r: int, c: int| in_grid(r, c) implies #[trigger] completes_cell(placed, full, r, c) by {
        assert(completes_cell(base, full, r, c));
    }
}

/// No completion puts into an empty cell a digit that cannot go there.
pub proof fn lemma_completion_placeable(base: Grid, row: int, col: int, full: Grid)
    requires
        in_grid(row, col),
        base[row][col] == EMPTY,
        valid_completion(base, full),
    ensures
        placeable(base, row, col, full[row][col] as int),
        1 <= full[row][col] <= 9,
{
    let r = row;
    let c = col;
    let num = full[r][c];
    assert(completes_cell(base, full, r, c));
    assert forall|c2: int| 0 <= c2 < 9 implies base[r][c2] != num by {
        assert(completes_cell(base, full, r, c2));
        if c2 != c && base[r][c2] != EMPTY {
            assert(peers(r, c, r, c2));
        }
    }
    assert forall|r2: int| 0 <= r2 < 9 implies base[r2][c] != num by {
        assert(completes_cell(base, full, r2, c));
        if r2 != r && base[r2][c] != EMPTY {
            assert(peers(r, c, r2, c));
        }
    }
    assert forall|r2: int, c2: int| in_grid(r2, c2) && same_box(r, c, r2, c2) implies base[r2][c2] != num by {
        assert(completes_cell(base, full, r2, c2));
        if (r2 != r || c2 != c) && base[r2][c2] != EMPTY {
            assert(peers(r, c, r2, c2));
        }
    }
}

/// The board has exactly one completion.
pub open spec fn unique_completion(base: Grid) -> bool {
    exists|full: Grid| valid_completion(base, full) && forall|g: Grid| #[trigger] valid_completion(base, g) ==> g == full
}

impl Sudoku {
    /// Up to `limit` completions of the board, in the order that backtracking finds
    /// them: the first empty cell, row by row, takes the digits `1..=9` in turn. When
    /// fewer than `limit` come back, they are all the completions there are. The board
    /// is left as it was.
    fn completions(&mut self, limit: usize) -> (res: Vec<Grid>)
        requires
            limit >= 1,
        ensures
            res@.len() <= limit,
            res@.no_duplicates(),
            forall|i: int| 0 <= i < res@.len() ==> valid_completion(old(self).board, #[trigger] res@[i]),
            res@.len() < limit ==> forall|full: Grid| valid_completion(old(self).board, full) ==> res@.contains(full),
            *final(self) == *old(self),
        decreases empty_cells(old(self).board),
    {
        let (row, col) = match self.find_empty() {
            None => {
                proof {
                    assert forall|r: int, c: int| in_grid(r, c) implies #[trigger] completes_cell(self.board, self.board, r, c) by {}
                    assert forall|full: Grid| valid_completion(self.board, full) implies seq![self.board].contains(full) by {
                        assert forall|i: int| 0 <= i < 9 implies full[i] =~= self.board[i] by {
                            assert forall|j: int| 0 <= j < 9 implies full[i][j] == self.board[i][j] by {
                                assert(completes_cell(self.board, full, i, j));
                            }
                        }
                        assert(full =~= self.board);
                        assert(seq![self.board][0] == full);
                    }
                }
                return vec![self.board];
            },
            Some(rc) => rc,
        };
        let ghost base = self.board;
        proof {
            assert forall|full: Grid| valid_completion(base, full) implies full[row as int][col as int] >= 1 by {
                assert(completes_cell(base, full, row as int, col as int));
            }
        }
        let mut all: Vec<Grid> = Vec::new();
        let mut num: u8 = 1;
        while num <= 9 && all.len() < limit
            invariant
                row < 9,
                col < 9,
                1 <= num <= 10,
                *self == *old(self),
                base == self.board,
                base[row as int][col as int] == EMPTY,
                all@.len() <= limit,
                all@.no_duplicates(),
                forall|i: int| 0 <= i < all@.len() ==> valid_completion(base, #[trigger] all@[i]) && all@[i][row as int][col as int] < num,
                all@.len() < limit ==> forall|full: Grid| valid_completion(base, full) && full[row as int][col as int] < num ==> all@.contains(full),
            decreases 10 - num,
        {
            if self.can_place(row, col, num) {
                self.board[row][col] = num;
                let ghost placed = self.board;
                proof {
                    assert(grid_set(base, placed, row as int, col as int, num));
                    lemma_empty_below_set(base, placed, row as int, col as int, num, 81);
                }
                let rest = limit - all.len();
                let sub = self.completions(rest);
                self.board[row][col] = EMPTY;
                proof {
                    assert forall|i: int| 0 <= i < 9 implies self.board[i] =~= base[i] by {}
                    assert(self.board =~= base);
                    assert forall|i: int| 0 <= i < sub@.len() implies valid_completion(base, #[trigger] sub@[i]) && sub@[i][row as int][col as int] == num by {
                        lemma_completion_of_placed(base, placed, row as int, col as int, num, sub@[i]);
                    }
                }
                let ghost before = all@;
                let mut j: usize = 0;
                while j < sub.len()
                    invariant
                        row < 9,
                        col < 9,
                        1 <= num <= 9,
                        j <= sub@.len(),
                        all@ == before + sub@.take(j as int),
                        before.no_duplicates(),
                        sub@.no_duplicates(),
                        forall|i: int| 0 <= i < before.len() ==> (#[trigger] before[i])[row as int][col as int] < num,
                        forall|i: int| 0 <= i < sub@.len() ==> (#[trigger] sub@[i])[row as int][col as int] == num,
                        all@.no_duplicates(),
                    decreases sub@.len() - j,
                {
                    proof {
                        assert(!all@.contains(sub@[j as int])) by {
                            if all@.contains(sub@[j as int]) {
                                let k = choose|k: int| 0 <= k < all@.len() && all@[k] == sub@[j as int];
                                if k < before.len() {
                                    assert(before[k][row as int][col as int] < num);
                                } else {
                                    assert(all@[k] == sub@[k - before.len()]);
                                }
                            }
                        }
                    }
                    all.push(sub[j]);
                    proof {
                        assert(sub@.take(j + 1) =~= sub@.take(j as int).push(sub@[j as int]));
                    }
                    j = j + 1;
                }
                proof {
                    assert(sub@.take(sub@.len() as int) =~= sub@);
                    assert forall|i: int| 0 <= i < all@.len() implies valid_completion(base, #[trigger] all@[i]) && all@[i][row as int][col as int] < num + 1 by {
                        if i >= before.len() {
                            assert(all@[i] == sub@[i - before.len()]);
                        }
                    }
                    if all@.len() < limit {
                        assert(sub@.len() < limit - before.len());
                        assert forall|full: Grid| valid_completion(base, full) && full[row as int][col as int] < num + 1 implies all@.contains(full) by {
                            if full[row as int][col as int] == num {
                                lemma_completion_to_placed(base, placed, row as int, col as int, num, full);
                                assert(sub@.len() < rest);
                                assert(sub@.contains(full));
                                let k = choose|k: int| 0 <= k < sub@.len() && sub@[k] == full;
                                assert(all@[before.len() + k] == full);
                            } else {
                                let k = choose|k: int| 0 <= k < before.len() && before[k] == full;
                                assert(all@[k] == full);
                            }
                        }
                    }
                }
            } else {
                proof {
                    assert forall|full: Grid| valid_completion(base, full) implies full[row as int][col as int] != num by {
                        lemma_completion_placeable(base, row as int, col as int, full);
                    }
                }
            }
            num = num + 1;
        }
        proof {
            if all@.len() < limit {
                assert forall|full: Grid| valid_completion(base, full) implies all@.contains(full) by {
                    lemma_completion_placeable(base, row as int, col as int, full);
                }
            }
        }
        all
    }

    /// All completions of the board, each once, in the order that backtracking finds
    /// them; at `usize::MAX` of them the search stops.
    pub fn all_solutions(&self) -> (res: Vec<Grid>)
        ensures
            res@.no_duplicates(),
            forall|i: int| 0 <= i < res@.len() ==> valid_completion(self.board, #[trigger] res@[i]),
            res@.len() < usize::MAX ==> forall|full: Grid| valid_completion(self.board, full) ==> res@.contains(full),
    {
        let mut work = self.snapshot();
        work.completions(usize::MAX)
    }

    /// Whether the board has exactly one completion.
    pub fn has_unique_solution(&self) -> (b: bool)
        ensures
            b == unique_completion(self.board),
    {
        let mut work = self.snapshot();
        let found = work.completions(2);
        proof {
            let base = self.board;
            if found@.len() == 1 {
                let f = found@[0];
                assert forall|g: Grid| #[trigger] valid_completion(base, g) implies g == f by {
                    assert(found@.contains(g));
                }
                assert(valid_completion(base, f));
            } else if found@.len() == 0 {
                if unique_completion(base) {
                    let f = choose|full: Grid| valid_completion(base, full) && forall|g: Grid| #[trigger] valid_completion(base, g) ==> g == full;
                    assert(found@.contains(f));
                }
            } else {
                if unique_completion(base) {
                    let f = choose|full: Grid| valid_completion(base, full) && forall|g: Grid| #[trigger] valid_completion(base, g) ==> g == full;
                    assert(valid_completion(base, found@[0]));
                    assert(valid_completion(base, found@[1]));
                    assert(found@[0] == f && found@[1] == f);
                }
            }
        }
        found.len() == 1
    }

    /// A Sudoku whose board and original board are `board`, with no candidate and no rating.
    pub fn from_board(board: Grid) -> (s: Sudoku)
        ensures
            s.board == board,
            s.original_board == board,
            crate::board::all_notes_empty(s.candidates),
            crate::board::all_zero_rating(s.rating),
            s.undo_stack@.len() == 0,
    {
        let mut s = Sudoku::new();
        s.board = board;
        s.original_board = board;
        s
    }
}

} // verus!
