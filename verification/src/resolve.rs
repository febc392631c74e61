//! The strategies of the first solver. Each one looks at the notes, acts at once, and
//! reports how many notes it took away; zero means it found nothing and changed nothing.

use vstd::prelude::*;

use crate::board::{in_grid, valid_completion, Grid, Sudoku as Puzzle};
use crate::basic_sound::lemma_first_solver_solution;
use crate::sound::{bare, solvable};
use crate::digits::{count, count_below, in_mask, lemma_ext, mask_single, sole_in_mask};
use crate::lastdigit::{box_cell_col, box_cell_row, first_sole_empty_col, first_sole_empty_row, sole_empty_in_col, sole_empty_in_row};
use crate::search::{first_from, lemma_first_end, lemma_first_hit, lemma_first_skip};
use crate::singles::{first_hidden_cell, first_single_cell, hidden_at, hidden_num, obvious_single_defined, unit_cell_col, unit_cell_row};
use crate::fish::{first_xwing, lemma_xwing_nonempty, xwing_view};
use crate::hidden::{first_hidden_pair_house, hidden_pair_view, lemma_hidden_pair_nonempty};
use crate::subsets::{first_obvious_pair, obvious_pair_view};
use crate::sudoku::{
    cand_index, cand_of, count_in, lemma_cand_of_index, lemma_count_in_none, notes_removed, num_set, on_grid, peer_hits,
    present, Sudoku,
};
use crate::pointing::pointing_gone;
use crate::sudoku::{basic_index, lemma_count_in_bound, lemma_count_in_union, Resolution, Strategy};
use crate::{Candidate, Unit, EMPTY};

verus! {

/// `t` is `s` with `num` set at `(row, col)` as `Sudoku::set_num` sets it, which took away
/// `n` notes.
pub open spec fn placed(s: Puzzle, t: Puzzle, num: u8, row: int, col: int, n: int) -> bool {
    &&& in_grid(row, col)
    &&& num_set(s, t, num, row, col)
    &&& n == count(s.candidates[row][col]) + count_in(peer_hits(s, num, row, col), 1296)
}

/// `t` is `s` with the notes `r` taken away; `n` of them were notes of `s`.
pub open spec fn took(s: Puzzle, t: Puzzle, r: Set<Candidate>, n: int) -> bool {
    &&& notes_removed(s, t, r)
    &&& n == count_in(present(s, r), 1296)
}

/// The cell `(r, c)` has exactly one note.
pub open spec fn has_sole_note(s: Puzzle, r: int, c: int) -> bool {
    exists|n: int| sole_in_mask(s.candidates[r][c], n)
}

/// The one note of a cell that has exactly one.
pub open spec fn sole_note(s: Puzzle, r: int, c: int) -> int {
    choose|n: int| sole_in_mask(s.candidates[r][c], n)
}

/// A digit in the set makes its count positive.
pub proof fn lemma_count_pos(mask: u16, n: int, k: int)
    requires
        in_mask(mask, n),
        n < k,
    ensures
        count_below(mask, k) >= 1,
    decreases k,
{
    if k - 1 != n {
        lemma_count_pos(mask, n, k - 1);
    }
}

/// The only empty cell of row `r`, when it has one.
pub open spec fn row_gap(g: Grid, r: int) -> int {
    choose|c: int| sole_empty_in_row(g, r, c)
}

/// The only empty cell of column `c`, when it has one.
pub open spec fn col_gap(g: Grid, c: int) -> int {
    choose|r: int| sole_empty_in_col(g, c, r)
}

/// Box `b` has exactly one empty cell, at position `k`.
pub open spec fn sole_empty_in_box(g: Grid, b: int, k: int) -> bool {
    &&& 0 <= k < 9
    &&& g[box_cell_row(b, k)][box_cell_col(b, k)] == EMPTY
    &&& forall|k2: int| 0 <= k2 < 9 && k2 != k ==> g[box_cell_row(b, k2)][box_cell_col(b, k2)] != EMPTY
}

/// The first box with exactly one empty cell.
pub open spec fn first_sole_empty_box(g: Grid) -> Option<int> {
    first_from(|b: int| exists|k: int| sole_empty_in_box(g, b, k), 0, 9)
}

/// The position of the only empty cell of box `b`, when it has one.
pub open spec fn box_gap(g: Grid, b: int) -> int {
    choose|k: int| sole_empty_in_box(g, b, k)
}

/// The cell that the last digit fills: the only empty cell of the first row that has
/// one, else of the first such column, else of the first such box.
pub open spec fn last_digit_cell(g: Grid) -> Option<(int, int)> {
    match first_sole_empty_row(g) {
        Some(r) => Some((r, row_gap(g, r))),
        None => match first_sole_empty_col(g) {
            Some(c) => Some((col_gap(g, c), c)),
            None => match first_sole_empty_box(g) {
                Some(b) => Some((box_cell_row(b, box_gap(g, b)), box_cell_col(b, box_gap(g, b)))),
                None => None,
            },
        },
    }
}

/// The cell that the last digit fills has exactly one note, as the strategy demands.
pub open spec fn last_digit_ready(s: Puzzle) -> bool {
    last_digit_cell(s.board) matches Some((r, c)) ==> has_sole_note(s, r, c)
}

impl Sudoku {
    /// Put the one note of `(row, col)` into the cell.
    fn place_sole_note(&mut self, row: usize, col: usize) -> (n: usize)
        requires
            row < 9,
            col < 9,
            has_sole_note(old(self).grid, row as int, col as int),
        ensures
            placed(old(self).grid, final(self).grid, sole_note(old(self).grid, row as int, col as int) as u8, row as int, col as int, n as int),
            n > 0,
            final(self).rating == old(self).rating,
    {
        match mask_single(self.grid.candidates[row][col]) {
            Some(d) => {
                proof {
                    let m = self.grid.candidates[row as int][col as int];
                    assert(sole_in_mask(m, d as int));
                    assert(sole_note(self.grid, row as int, col as int) == d as int);
                    lemma_count_pos(m, d as int, 16);
                }
                self.set_num(d, row, col)
            },
            None => {
                proof {
                    let d = sole_note(self.grid, row as int, col as int);
                    assert(sole_in_mask(self.grid.candidates[row as int][col as int], d));
                }
                0
            },
        }
    }

    /// The position of the only empty cell of box `b`, if it has exactly one.
    fn sole_empty_in_box(&self, b: usize) -> (res: Option<usize>)
        requires
            b < 9,
        ensures
            res matches Some(k) ==> sole_empty_in_box(self.grid.board, b as int, k as int),
            res is None ==> forall|k: int| !sole_empty_in_box(self.grid.board, b as int, k),
    {
        let g = &self.grid.board;
        let mut count: usize = 0;
        let mut found: usize = 0;
        let mut k: usize = 0;
        while k < 9
            invariant
                b < 9,
                k <= 9,
                count <= 2,
                count == 0 ==> forall|j: int| 0 <= j < k ==> g[box_cell_row(b as int, j)][box_cell_col(b as int, j)] != EMPTY,
                count == 1 ==> found < k && g[box_cell_row(b as int, found as int)][box_cell_col(b as int, found as int)] == EMPTY
                    && forall|j: int| 0 <= j < k && j != found ==> g[box_cell_row(b as int, j)][box_cell_col(b as int, j)] != EMPTY,
                count == 2 ==> exists|j1: int, j2: int|
                    0 <= j1 < j2 < k && g[box_cell_row(b as int, j1)][box_cell_col(b as int, j1)] == EMPTY
                        && g[box_cell_row(b as int, j2)][box_cell_col(b as int, j2)] == EMPTY,
            decreases 9 - k,
        {
            let r = 3 * (b / 3) + k / 3;
            let c = 3 * (b % 3) + k % 3;
            if g[r][c] == EMPTY {
                if count == 1 {
                    assert(g[box_cell_row(b as int, found as int)][box_cell_col(b as int, found as int)] == EMPTY
                        && g[box_cell_row(b as int, k as int)][box_cell_col(b as int, k as int)] == EMPTY);
                    count = 2;
                } else if count == 0 {
                    count = 1;
                    found = k;
                }
            }
            k = k + 1;
        }
        if count == 1 {
            Some(found)
        } else {
            proof {
                if count == 2 {
                    let (j1, j2) = choose|j1: int, j2: int|
                        0 <= j1 < j2 < k && g[box_cell_row(b as int, j1)][box_cell_col(b as int, j1)] == EMPTY
                            && g[box_cell_row(b as int, j2)][box_cell_col(b as int, j2)] == EMPTY;
                    assert forall|j: int| !sole_empty_in_box(self.grid.board, b as int, j) by {
                        if sole_empty_in_box(self.grid.board, b as int, j) {
                            if j == j1 {
                                assert(g[box_cell_row(b as int, j2)][box_cell_col(b as int, j2)] != EMPTY);
                            } else {
                                assert(g[box_cell_row(b as int, j1)][box_cell_col(b as int, j1)] != EMPTY);
                            }
                        }
                    }
                }
            }
            None
        }
    }

    /// The first row with exactly one empty cell, and that cell.
    fn first_row_gap(&self) -> (res: Option<(usize, usize)>)
        ensures
            first_sole_empty_row(self.grid.board) is None <==> res is None,
            first_sole_empty_row(self.grid.board) matches Some(r) ==> res == Some((r as usize, row_gap(self.grid.board, r) as usize))
                && 0 <= r < 9 && 0 <= row_gap(self.grid.board, r) < 9,
    {
        let ghost g = self.grid.board;
        let ghost p = |r: int| exists|c: int| sole_empty_in_row(g, r, c);
        let mut row: usize = 0;
        while row < 9
            invariant
                row <= 9,
                g == self.grid.board,
                first_sole_empty_row(g) == first_from(p, row as int, 9),
                p == (|r: int| exists|c: int| sole_empty_in_row(g, r, c)),
            decreases 9 - row,
        {
            match self.grid.sole_empty_col(row) {
                None => {
                    proof {
                        lemma_first_skip(p, row as int, 9);
                    }
                },
                Some(col) => {
                    proof {
                        assert(p(row as int));
                        lemma_first_hit(p, row as int, 9);
                        assert(row_gap(g, row as int) == col);
                    }
                    return Some((row, col));
                },
            }
            row = row + 1;
        }
        proof {
            lemma_first_end(p, 9);
        }
        None
    }

    /// The first column with exactly one empty cell, and that cell.
    fn first_col_gap(&self) -> (res: Option<(usize, usize)>)
        ensures
            first_sole_empty_col(self.grid.board) is None <==> res is None,
            first_sole_empty_col(self.grid.board) matches Some(c) ==> res == Some((col_gap(self.grid.board, c) as usize, c as usize))
                && 0 <= c < 9 && 0 <= col_gap(self.grid.board, c) < 9,
    {
        let ghost g = self.grid.board;
        let ghost p = |c: int| exists|r: int| sole_empty_in_col(g, c, r);
        let mut col: usize = 0;
        while col < 9
            invariant
                col <= 9,
                g == self.grid.board,
                first_sole_empty_col(g) == first_from(p, col as int, 9),
                p == (|c: int| exists|r: int| sole_empty_in_col(g, c, r)),
            decreases 9 - col,
        {
            match self.grid.sole_empty_row(col) {
                None => {
                    proof {
                        lemma_first_skip(p, col as int, 9);
                    }
                },
                Some(row) => {
                    proof {
                        assert(p(col as int));
                        lemma_first_hit(p, col as int, 9);
                        assert(col_gap(g, col as int) == row);
                    }
                    return Some((row, col));
                },
            }
            col = col + 1;
        }
        proof {
            lemma_first_end(p, 9);
        }
        None
    }

    /// The first box with exactly one empty cell, and that cell.
    fn first_box_gap(&self) -> (res: Option<(usize, usize)>)
        ensures
            first_sole_empty_box(self.grid.board) is None <==> res is None,
            first_sole_empty_box(self.grid.board) matches Some(b) ==> {
                let k = box_gap(self.grid.board, b);
                res == Some((box_cell_row(b, k) as usize, box_cell_col(b, k) as usize)) && 0 <= box_cell_row(b, k) < 9 && 0 <= box_cell_col(b, k) < 9
            },
    {
        let ghost g = self.grid.board;
        let ghost p = |b: int| exists|k: int| sole_empty_in_box(g, b, k);
        let mut b: usize = 0;
        while b < 9
            invariant
                b <= 9,
                g == self.grid.board,
                first_sole_empty_box(g) == first_from(p, b as int, 9),
                p == (|b: int| exists|k: int| sole_empty_in_box(g, b, k)),
            decreases 9 - b,
        {
            match self.sole_empty_in_box(b) {
                None => {
                    proof {
                        lemma_first_skip(p, b as int, 9);
                    }
                },
                Some(k) => {
                    proof {
                        assert(p(b as int));
                        lemma_first_hit(p, b as int, 9);
                        assert(box_gap(g, b as int) == k);
                    }
                    return Some((3 * (b / 3) + k / 3, 3 * (b % 3) + k % 3));
                },
            }
            b = b + 1;
        }
        proof {
            lemma_first_end(p, 9);
        }
        None
    }

    /// Last digit in rows: the only empty cell of the first row that has one gets its
    /// one note.
    pub fn resolve_last_digit_in_rows(&mut self) -> (n: usize)
        requires
            first_sole_empty_row(old(self).grid.board) matches Some(r) ==> has_sole_note(old(self).grid, r, row_gap(old(self).grid.board, r)),
        ensures
            first_sole_empty_row(old(self).grid.board) is None ==> n == 0 && *final(self) == *old(self),
            first_sole_empty_row(old(self).grid.board) matches Some(r) ==> n > 0 && {
                let c = row_gap(old(self).grid.board, r);
                placed(old(self).grid, final(self).grid, sole_note(old(self).grid, r, c) as u8, r, c, n as int)
            },
            final(self).rating == old(self).rating,
    {
        match self.first_row_gap() {
            Some((row, col)) => self.place_sole_note(row, col),
            None => 0,
        }
    }

    /// Last digit in columns: the only empty cell of the first column that has one gets
    /// its one note.
    pub fn resolve_last_digit_in_cols(&mut self) -> (n: usize)
        requires
            first_sole_empty_col(old(self).grid.board) matches Some(c) ==> has_sole_note(old(self).grid, col_gap(old(self).grid.board, c), c),
        ensures
            first_sole_empty_col(old(self).grid.board) is None ==> n == 0 && *final(self) == *old(self),
            first_sole_empty_col(old(self).grid.board) matches Some(c) ==> n > 0 && {
                let r = col_gap(old(self).grid.board, c);
                placed(old(self).grid, final(self).grid, sole_note(old(self).grid, r, c) as u8, r, c, n as int)
            },
            final(self).rating == old(self).rating,
    {
        match self.first_col_gap() {
            Some((row, col)) => self.place_sole_note(row, col),
            None => 0,
        }
    }

    /// Last digit in boxes: the only empty cell of the first box that has one gets its
    /// one note.
    pub fn resolve_last_digit_in_boxes(&mut self) -> (n: usize)
        requires
            first_sole_empty_box(old(self).grid.board) matches Some(b) ==> has_sole_note(
                old(self).grid,
                box_cell_row(b, box_gap(old(self).grid.board, b)),
                box_cell_col(b, box_gap(old(self).grid.board, b)),
            ),
        ensures
            first_sole_empty_box(old(self).grid.board) is None ==> n == 0 && *final(self) == *old(self),
            first_sole_empty_box(old(self).grid.board) matches Some(b) ==> n > 0 && {
                let k = box_gap(old(self).grid.board, b);
                let r = box_cell_row(b, k);
                let c = box_cell_col(b, k);
                placed(old(self).grid, final(self).grid, sole_note(old(self).grid, r, c) as u8, r, c, n as int)
            },
            final(self).rating == old(self).rating,
    {
        match self.first_box_gap() {
            Some((row, col)) => self.place_sole_note(row, col),
            None => 0,
        }
    }

    /// Whether the cell that the last digit fills, if any, has exactly one note.
    pub fn last_digit_ok(&self) -> (b: bool)
        ensures
            b == last_digit_ready(self.grid),
    {
        let gap = match self.first_row_gap() {
            Some(rc) => Some(rc),
            None => match self.first_col_gap() {
                Some(rc) => Some(rc),
                None => self.first_box_gap(),
            },
        };
        match gap {
            None => true,
            Some((row, col)) => {
                let single = mask_single(self.grid.candidates[row][col]);
                proof {
                    match single {
                        Some(d) => {
                            assert(sole_in_mask(self.grid.candidates[row as int][col as int], d as int));
                        },
                        None => {},
                    }
                }
                single.is_some()
            },
        }
    }

    /// Whether the next step can look at the notes: see `step_ready`.
    pub fn step_ok(&self) -> (b: bool)
        ensures
            b == step_ready(self.grid),
    {
        if !self.last_digit_ok() {
            return false;
        }
        let none_last = match self.first_row_gap() {
            Some(_) => false,
            None => match self.first_col_gap() {
                Some(_) => false,
                None => self.first_box_gap().is_none(),
            },
        };
        if none_last {
            self.grid.obvious_single_ok()
        } else {
            true
        }
    }

    /// Last digit: rows first, then columns, then boxes.
    pub fn resolve_last_digit(&mut self) -> (n: usize)
        requires
            last_digit_ready(old(self).grid),
        ensures
            last_digit_cell(old(self).grid.board) is None ==> n == 0 && *final(self) == *old(self),
            last_digit_cell(old(self).grid.board) matches Some((r, c)) ==> n > 0 && placed(
                old(self).grid,
                final(self).grid,
                sole_note(old(self).grid, r, c) as u8,
                r,
                c,
                n as int,
            ),
            final(self).rating == old(self).rating,
    {
        let count = self.resolve_last_digit_in_rows();
        if count > 0 {
            return count;
        }
        let count = self.resolve_last_digit_in_cols();
        if count > 0 {
            return count;
        }
        self.resolve_last_digit_in_boxes()
    }

    /// Obvious single: the first cell, row by row, with exactly one note gets it.
    pub fn resolve_obvious_single(&mut self) -> (n: usize)
        requires
            obvious_single_defined(old(self).grid),
        ensures
            first_single_cell(old(self).grid) is None ==> n == 0 && *final(self) == *old(self),
            first_single_cell(old(self).grid) matches Some(k) ==> n > 0 && placed(
                old(self).grid,
                final(self).grid,
                sole_note(old(self).grid, k / 9, k % 9) as u8,
                k / 9,
                k % 9,
                n as int,
            ),
            final(self).rating == old(self).rating,
    {
        let ghost s = self.grid;
        let ghost p = |k: int| exists|n: int| #[trigger] sole_in_mask(s.candidates[k / 9][k % 9], n);
        let mut k: usize = 0;
        while k < 81
            invariant
                k <= 81,
                *self == *old(self),
                s == self.grid,
                first_single_cell(s) == first_from(p, k as int, 81),
                p == (|k: int| exists|n: int| #[trigger] sole_in_mask(s.candidates[k / 9][k % 9], n)),
            decreases 81 - k,
        {
            match mask_single(self.grid.candidates[k / 9][k % 9]) {
                None => {
                    proof {
                        lemma_first_skip(p, k as int, 81);
                    }
                },
                Some(d) => {
                    proof {
                        assert(sole_in_mask(s.candidates[k as int / 9][k as int % 9], d as int));
                        assert(p(k as int));
                        lemma_first_hit(p, k as int, 81);
                    }
                    return self.place_sole_note(k / 9, k % 9);
                },
            }
            k = k + 1;
        }
        proof {
            lemma_first_end(p, 81);
        }
        0
    }

    /// Hidden single in the houses of kind `u`: the first cell, house by house, with a
    /// note that no other cell of the house has gets the smallest such note.
    fn resolve_hidden_single_in(&mut self, u: Unit) -> (n: usize)
        ensures
            first_hidden_cell(old(self).grid, u) is None ==> n == 0 && *final(self) == *old(self),
            first_hidden_cell(old(self).grid, u) matches Some(k) ==> n > 0 && placed(
                old(self).grid,
                final(self).grid,
                hidden_num(old(self).grid, u, k)->0 as u8,
                unit_cell_row(u, k),
                unit_cell_col(u, k),
                n as int,
            ),
            final(self).rating == old(self).rating,
    {
        let ghost s = self.grid;
        let ghost p = |k: int| hidden_num(s, u, k) is Some;
        let mut k: usize = 0;
        while k < 81
            invariant
                k <= 81,
                *self == *old(self),
                s == self.grid,
                first_hidden_cell(s, u) == first_from(p, k as int, 81),
                p == (|k: int| hidden_num(s, u, k) is Some),
            decreases 81 - k,
        {
            match self.grid.find_hidden_num(u, k) {
                None => {
                    proof {
                        lemma_first_skip(p, k as int, 81);
                    }
                },
                Some(d) => {
                    proof {
                        assert(p(k as int));
                        lemma_first_hit(p, k as int, 81);
                    }
                    let (row, col) = Puzzle::unit_cell(u, k);
                    proof {
                        crate::search::lemma_first_from(|n: int| hidden_at(s, u, unit_cell_row(u, k as int), unit_cell_col(u, k as int), n), 0, 16);
                        assert(hidden_at(s, u, row as int, col as int, d as int));
                        lemma_count_pos(s.candidates[row as int][col as int], d as int, 16);
                    }
                    return self.set_num(d, row, col);
                },
            }
            k = k + 1;
        }
        proof {
            lemma_first_end(p, 81);
        }
        0
    }

    /// Hidden single in rows.
    pub fn resolve_hidden_single_row(&mut self) -> (n: usize)
        ensures
            first_hidden_cell(old(self).grid, Unit::Row) is None ==> n == 0 && *final(self) == *old(self),
            first_hidden_cell(old(self).grid, Unit::Row) matches Some(k) ==> n > 0 && placed(
                old(self).grid,
                final(self).grid,
                hidden_num(old(self).grid, Unit::Row, k)->0 as u8,
                k / 9,
                k % 9,
                n as int,
            ),
            final(self).rating == old(self).rating,
    {
        self.resolve_hidden_single_in(Unit::Row)
    }

    /// Hidden single in columns.
    pub fn resolve_hidden_single_col(&mut self) -> (n: usize)
        ensures
            first_hidden_cell(old(self).grid, Unit::Column) is None ==> n == 0 && *final(self) == *old(self),
            first_hidden_cell(old(self).grid, Unit::Column) matches Some(k) ==> n > 0 && placed(
                old(self).grid,
                final(self).grid,
                hidden_num(old(self).grid, Unit::Column, k)->0 as u8,
                k % 9,
                k / 9,
                n as int,
            ),
            final(self).rating == old(self).rating,
    {
        self.resolve_hidden_single_in(Unit::Column)
    }

    /// Hidden single in boxes.
    pub fn resolve_hidden_single_box(&mut self) -> (n: usize)
        ensures
            first_hidden_cell(old(self).grid, Unit::Box) is None ==> n == 0 && *final(self) == *old(self),
            first_hidden_cell(old(self).grid, Unit::Box) matches Some(k) ==> n > 0 && placed(
                old(self).grid,
                final(self).grid,
                hidden_num(old(self).grid, Unit::Box, k)->0 as u8,
                unit_cell_row(Unit::Box, k),
                unit_cell_col(Unit::Box, k),
                n as int,
            ),
            final(self).rating == old(self).rating,
    {
        self.resolve_hidden_single_in(Unit::Box)
    }
}

/// A candidate of the grid in the set makes its count positive.
pub proof fn lemma_count_in_member(a: Set<Candidate>, x: Candidate, k: int)
    requires
        a.contains(x),
        on_grid(x),
        cand_index(x) < k,
    ensures
        count_in(a, k) >= 1,
    decreases k,
{
    if k - 1 > cand_index(x) {
        lemma_count_in_member(a, x, k - 1);
    } else {
        lemma_cand_of_index(x, k - 1);
    }
}

/// A note of `s` among `r` makes the count of what goes positive.
pub proof fn lemma_gain_pos(s: Puzzle, r: Set<Candidate>, x: Candidate)
    requires
        r.contains(x),
        x.row < 9,
        x.col < 9,
        s.cand(x.row as int, x.col as int, x.num as int),
    ensures
        count_in(present(s, r), 1296) >= 1,
{
    assert(present(s, r).contains(x));
    assert(x.num < 16);
    lemma_count_in_member(present(s, r), x, 1296);
}

/// Taking away notes of which none is there changes nothing.
pub proof fn lemma_took_nothing(s: Puzzle, t: Puzzle, r: Set<Candidate>)
    requires
        took(s, t, r, 0),
    ensures
        t == s,
{
    assert forall|i: int, j: int| 0 <= i < 9 && 0 <= j < 9 implies t.candidates[i][j] == s.candidates[i][j] by {
        assert forall|k: int| 0 <= k < 16 implies in_mask(t.candidates[i][j], k) == in_mask(s.candidates[i][j], k) by {
            assert(in_grid(i, j));
            assert(t.cand(i, j, k) == (s.cand(i, j, k) && !r.contains(Candidate { row: i as usize, col: j as usize, num: k as u8 })));
            if s.cand(i, j, k) && r.contains(Candidate { row: i as usize, col: j as usize, num: k as u8 }) {
                lemma_gain_pos(s, r, Candidate { row: i as usize, col: j as usize, num: k as u8 });
            }
        }
        lemma_ext(t.candidates[i][j], s.candidates[i][j]);
    }
    assert forall|i: int| 0 <= i < 9 implies t.candidates[i] == s.candidates[i] by {
        assert(t.candidates[i] =~= s.candidates[i]);
    }
    assert(t.candidates =~= s.candidates);
}

/// Nothing to take away counts nothing.
pub proof fn lemma_gain_empty(s: Puzzle)
    ensures
        count_in(present(s, Set::<Candidate>::empty()), 1296) == 0,
{
    assert(present(s, Set::<Candidate>::empty()) =~= Set::<Candidate>::empty());
    lemma_count_in_none(Set::<Candidate>::empty(), 1296);
}

impl Sudoku {
    /// Obvious pairs in the houses of kind `u`: the first pair, house by house, that
    /// takes a note away from the rest of its house does so.
    fn resolve_obvious_pair_in(&mut self, u: Unit) -> (n: usize)
        ensures
            took(old(self).grid, final(self).grid, obvious_pair_view(old(self).grid, u).removed, n as int),
            (n > 0) == (first_obvious_pair(old(self).grid, u) is Some),
            n == 0 ==> *final(self) == *old(self),
            final(self).rating == old(self).rating,
    {
        let ghost s = self.grid;
        let found = self.grid.find_obvious_pair_in(u);
        let n = self.take_listed(&found.candidates_about_to_be_removed);
        proof {
            let r = obvious_pair_view(s, u).removed;
            match first_obvious_pair(s, u) {
                Some(t) => {
                    crate::search::lemma_first_from(|t: int| crate::subsets::obvious_pair_found(s, u, t / 81, (t / 9) % 9, t % 9), 0, 729);
                    let h = t / 81;
                    let i = (t / 9) % 9;
                    let j = t % 9;
                    let m = crate::subsets::house_mask(s, u, h, i);
                    let x = choose|x: Candidate| #[trigger] crate::collect::house_hits(s, u, h, crate::digits::two_bits(i as u16, j as u16), m).contains(x);
                    assert(r.contains(x));
                    lemma_gain_pos(s, r, x);
                },
                None => {
                    assert(r == Set::<Candidate>::empty());
                    lemma_gain_empty(s);
                },
            }
            if n == 0 {
                lemma_took_nothing(s, self.grid, r);
            }
        }
        n
    }

    /// Obvious pairs in rows.
    pub fn resolve_obvious_pair_in_rows(&mut self) -> (n: usize)
        ensures
            took(old(self).grid, final(self).grid, obvious_pair_view(old(self).grid, Unit::Row).removed, n as int),
            (n > 0) == (first_obvious_pair(old(self).grid, Unit::Row) is Some),
            n == 0 ==> *final(self) == *old(self),
            final(self).rating == old(self).rating,
    {
        self.resolve_obvious_pair_in(Unit::Row)
    }

    /// Obvious pairs in columns.
    pub fn resolve_obvious_pair_in_cols(&mut self) -> (n: usize)
        ensures
            took(old(self).grid, final(self).grid, obvious_pair_view(old(self).grid, Unit::Column).removed, n as int),
            (n > 0) == (first_obvious_pair(old(self).grid, Unit::Column) is Some),
            n == 0 ==> *final(self) == *old(self),
            final(self).rating == old(self).rating,
    {
        self.resolve_obvious_pair_in(Unit::Column)
    }

    /// Obvious pairs in boxes.
    pub fn resolve_obvious_pair_in_boxes(&mut self) -> (n: usize)
        ensures
            took(old(self).grid, final(self).grid, obvious_pair_view(old(self).grid, Unit::Box).removed, n as int),
            (n > 0) == (first_obvious_pair(old(self).grid, Unit::Box) is Some),
            n == 0 ==> *final(self) == *old(self),
            final(self).rating == old(self).rating,
    {
        self.resolve_obvious_pair_in(Unit::Box)
    }

    /// Hidden pairs in the houses of kind `u`: the first pair of digits, house by house,
    /// that only two cells of the house note, and that lets those cells drop another digit
    /// `1..=9`, makes them drop it.
    fn resolve_hidden_pair_in(&mut self, u: Unit) -> (n: usize)
        ensures
            took(old(self).grid, final(self).grid, hidden_pair_view(old(self).grid, u).removed, n as int),
            (n > 0) == (first_hidden_pair_house(old(self).grid, u) is Some),
            n == 0 ==> *final(self) == *old(self),
            final(self).rating == old(self).rating,
    {
        let ghost s = self.grid;
        let found = match u {
            Unit::Row => self.grid.find_hidden_pair_in_rows(),
            Unit::Column => self.grid.find_hidden_pair_in_cols(),
            Unit::Box => self.grid.find_hidden_pair_in_boxes(),
        };
        let n = self.take_listed(&found.candidates_about_to_be_removed);
        proof {
            let r = hidden_pair_view(s, u).removed;
            lemma_hidden_pair_nonempty(s, u);
            if first_hidden_pair_house(s, u) is Some {
                assert(r != Set::<Candidate>::empty());
                assert(exists|x: Candidate| r.contains(x)) by {
                    if !(exists|x: Candidate| r.contains(x)) {
                        assert(r =~= Set::<Candidate>::empty());
                    }
                }
                let x = choose|x: Candidate| r.contains(x);
                assert(x.row < 9 && x.col < 9 && s.cand(x.row as int, x.col as int, x.num as int));
                lemma_gain_pos(s, r, x);
            } else {
                lemma_gain_empty(s);
            }
            if n == 0 {
                lemma_took_nothing(s, self.grid, r);
            }
        }
        n
    }

    /// Hidden pairs in boxes.
    pub fn resolve_hidden_pair_in_rows(&mut self) -> (n: usize)
        ensures
            took(old(self).grid, final(self).grid, hidden_pair_view(old(self).grid, Unit::Box).removed, n as int),
            (n > 0) == (first_hidden_pair_house(old(self).grid, Unit::Box) is Some),
            n == 0 ==> *final(self) == *old(self),
            final(self).rating == old(self).rating,
    {
        self.resolve_hidden_pair_in(Unit::Box)
    }

    /// Hidden pairs in rows.
    pub fn resolve_hidden_pair_in_cols(&mut self) -> (n: usize)
        ensures
            took(old(self).grid, final(self).grid, hidden_pair_view(old(self).grid, Unit::Row).removed, n as int),
            (n > 0) == (first_hidden_pair_house(old(self).grid, Unit::Row) is Some),
            n == 0 ==> *final(self) == *old(self),
            final(self).rating == old(self).rating,
    {
        self.resolve_hidden_pair_in(Unit::Row)
    }

    /// Hidden pairs in columns.
    pub fn resolve_hidden_pair_in_boxes(&mut self) -> (n: usize)
        ensures
            took(old(self).grid, final(self).grid, hidden_pair_view(old(self).grid, Unit::Column).removed, n as int),
            (n > 0) == (first_hidden_pair_house(old(self).grid, Unit::Column) is Some),
            n == 0 ==> *final(self) == *old(self),
            final(self).rating == old(self).rating,
    {
        self.resolve_hidden_pair_in(Unit::Column)
    }

    /// X-Wings in the lines of kind `u`, rows or columns: the first X-Wing, digit by digit
    /// and then by its two lines, that takes a note from the two crossing lines does so.
    fn resolve_xwing_in(&mut self, u: Unit) -> (n: usize)
        requires
            u != Unit::Box,
        ensures
            took(old(self).grid, final(self).grid, xwing_view(old(self).grid, u).removed, n as int),
            (n > 0) == (first_xwing(old(self).grid, u) is Some),
            n == 0 ==> *final(self) == *old(self),
            final(self).rating == old(self).rating,
    {
        let ghost s = self.grid;
        let found = if u == Unit::Row {
            self.grid.find_xwing_in_rows()
        } else {
            self.grid.find_xwing_in_cols()
        };
        let n = self.take_listed(&found.candidates_about_to_be_removed);
        proof {
            let r = xwing_view(s, u).removed;
            lemma_xwing_nonempty(s, u);
            if first_xwing(s, u) is Some {
                assert(r != Set::<Candidate>::empty());
                assert(exists|x: Candidate| r.contains(x)) by {
                    if !(exists|x: Candidate| r.contains(x)) {
                        assert(r =~= Set::<Candidate>::empty());
                    }
                }
                let x = choose|x: Candidate| r.contains(x);
                assert(x.row < 9 && x.col < 9 && s.cand(x.row as int, x.col as int, x.num as int));
                lemma_gain_pos(s, r, x);
            } else {
                lemma_gain_empty(s);
            }
            if n == 0 {
                lemma_took_nothing(s, self.grid, r);
            }
        }
        n
    }

    /// X-Wings in rows.
    pub fn resolve_xwing_in_rows(&mut self) -> (n: usize)
        ensures
            took(old(self).grid, final(self).grid, xwing_view(old(self).grid, Unit::Row).removed, n as int),
            (n > 0) == (first_xwing(old(self).grid, Unit::Row) is Some),
            n == 0 ==> *final(self) == *old(self),
            final(self).rating == old(self).rating,
    {
        self.resolve_xwing_in(Unit::Row)
    }

    /// X-Wings in columns.
    pub fn resolve_xwing_in_cols(&mut self) -> (n: usize)
        ensures
            took(old(self).grid, final(self).grid, xwing_view(old(self).grid, Unit::Column).removed, n as int),
            (n > 0) == (first_xwing(old(self).grid, Unit::Column) is Some),
            n == 0 ==> *final(self) == *old(self),
            final(self).rating == old(self).rating,
    {
        self.resolve_xwing_in(Unit::Column)
    }
}

/// How many notes of `s` the candidates `r` take away.
pub open spec fn gain(s: Puzzle, r: Set<Candidate>) -> int {
    count_in(present(s, r), 1296) as int
}

/// What a strategy of the first solver does to the notes: it fills a cell, takes notes
/// away, or finds nothing.
pub enum Move {
    Place { strategy: Strategy, num: u8, row: int, col: int },
    Take { strategy: Strategy, gone: Set<Candidate> },
    Stuck,
}

/// `t` is what the move makes of `s`, and `n` is the count it reports.
pub open spec fn moved(s: Puzzle, t: Puzzle, m: Move, n: int) -> bool {
    match m {
        Move::Place { num, row, col, .. } => n > 0 && placed(s, t, num, row, col, n),
        Move::Take { gone, .. } => n > 0 && took(s, t, gone, n),
        Move::Stuck => n == 0 && t == s,
    }
}

pub open spec fn last_digit_move(s: Puzzle) -> Move {
    match last_digit_cell(s.board) {
        Some((r, c)) => Move::Place { strategy: Strategy::LastDigit, num: sole_note(s, r, c) as u8, row: r, col: c },
        None => Move::Stuck,
    }
}

pub open spec fn obvious_single_move(s: Puzzle) -> Move {
    match first_single_cell(s) {
        Some(k) => Move::Place { strategy: Strategy::ObviousSingle, num: sole_note(s, k / 9, k % 9) as u8, row: k / 9, col: k % 9 },
        None => Move::Stuck,
    }
}

pub open spec fn hidden_single_in_move(s: Puzzle, u: Unit) -> Move {
    match first_hidden_cell(s, u) {
        Some(k) => Move::Place {
            strategy: Strategy::HiddenSingle,
            num: hidden_num(s, u, k)->0 as u8,
            row: unit_cell_row(u, k),
            col: unit_cell_col(u, k),
        },
        None => Move::Stuck,
    }
}

/// Hidden singles: rows first, then columns, then boxes.
pub open spec fn hidden_single_move(s: Puzzle) -> Move {
    if first_hidden_cell(s, Unit::Row) is Some {
        hidden_single_in_move(s, Unit::Row)
    } else if first_hidden_cell(s, Unit::Column) is Some {
        hidden_single_in_move(s, Unit::Column)
    } else {
        hidden_single_in_move(s, Unit::Box)
    }
}

/// Pointing pairs: all rows, or, when they take nothing, all columns.
pub open spec fn pointing_move(s: Puzzle) -> Move {
    if gain(s, pointing_gone(s, Unit::Row, 81)) > 0 {
        Move::Take { strategy: Strategy::PointingPair, gone: pointing_gone(s, Unit::Row, 81) }
    } else if gain(s, pointing_gone(s, Unit::Column, 81)) > 0 {
        Move::Take { strategy: Strategy::PointingPair, gone: pointing_gone(s, Unit::Column, 81) }
    } else {
        Move::Stuck
    }
}

/// Obvious pairs: rows first, then columns, then boxes.
pub open spec fn obvious_pair_move(s: Puzzle) -> Move {
    if first_obvious_pair(s, Unit::Row) is Some {
        Move::Take { strategy: Strategy::ObviousPair, gone: obvious_pair_view(s, Unit::Row).removed }
    } else if first_obvious_pair(s, Unit::Column) is Some {
        Move::Take { strategy: Strategy::ObviousPair, gone: obvious_pair_view(s, Unit::Column).removed }
    } else if first_obvious_pair(s, Unit::Box) is Some {
        Move::Take { strategy: Strategy::ObviousPair, gone: obvious_pair_view(s, Unit::Box).removed }
    } else {
        Move::Stuck
    }
}

/// Hidden pairs: boxes first, then rows, then columns.
pub open spec fn hidden_pair_move(s: Puzzle) -> Move {
    if first_hidden_pair_house(s, Unit::Box) is Some {
        Move::Take { strategy: Strategy::HiddenPair, gone: hidden_pair_view(s, Unit::Box).removed }
    } else if first_hidden_pair_house(s, Unit::Row) is Some {
        Move::Take { strategy: Strategy::HiddenPair, gone: hidden_pair_view(s, Unit::Row).removed }
    } else if first_hidden_pair_house(s, Unit::Column) is Some {
        Move::Take { strategy: Strategy::HiddenPair, gone: hidden_pair_view(s, Unit::Column).removed }
    } else {
        Move::Stuck
    }
}

/// X-Wings: rows first, then columns.
pub open spec fn xwing_move(s: Puzzle) -> Move {
    if first_xwing(s, Unit::Row) is Some {
        Move::Take { strategy: Strategy::XWing, gone: xwing_view(s, Unit::Row).removed }
    } else if first_xwing(s, Unit::Column) is Some {
        Move::Take { strategy: Strategy::XWing, gone: xwing_view(s, Unit::Column).removed }
    } else {
        Move::Stuck
    }
}

/// One step of the first solver: the strategies in order of difficulty, and the first
/// that does something.
#[verifier::opaque]
pub open spec fn basic_step(s: Puzzle) -> Move {
    if !(last_digit_move(s) is Stuck) {
        last_digit_move(s)
    } else if !(obvious_single_move(s) is Stuck) {
        obvious_single_move(s)
    } else if !(hidden_single_move(s) is Stuck) {
        hidden_single_move(s)
    } else if !(pointing_move(s) is Stuck) {
        pointing_move(s)
    } else if !(obvious_pair_move(s) is Stuck) {
        obvious_pair_move(s)
    } else if !(hidden_pair_move(s) is Stuck) {
        hidden_pair_move(s)
    } else {
        xwing_move(s)
    }
}

/// The strategies that the step tries do not fail on `s`: the cell that the last digit
/// fills has one note, and, when no cell is last, the first cell with one note is empty.
pub open spec fn step_ready(s: Puzzle) -> bool {
    &&& last_digit_ready(s)
    &&& last_digit_cell(s.board) is None ==> obvious_single_defined(s)
}

impl Sudoku {
    /// Hidden singles: rows first, then columns, then boxes.
    pub fn resolve_hidden_single(&mut self) -> (n: usize)
        ensures
            moved(old(self).grid, final(self).grid, hidden_single_move(old(self).grid), n as int),
            final(self).rating == old(self).rating,
    {
        let row_result = self.resolve_hidden_single_row();
        if row_result > 0 {
            return row_result;
        }
        let col_result = self.resolve_hidden_single_col();
        if col_result > 0 {
            return col_result;
        }
        self.resolve_hidden_single_box()
    }

    /// Pointing pairs: rows first, then columns.
    pub fn resolve_pointing_pair(&mut self) -> (n: usize)
        ensures
            moved(old(self).grid, final(self).grid, pointing_move(old(self).grid), n as int),
            final(self).rating == old(self).rating,
    {
        let ghost s = self.grid;
        let count = self.resolve_pointing_pair_in_rows();
        if count > 0 {
            return count;
        }
        proof {
            lemma_took_nothing(s, self.grid, pointing_gone(s, Unit::Row, 81));
        }
        let count = self.resolve_pointing_pair_in_cols();
        proof {
            if count == 0 {
                lemma_took_nothing(s, self.grid, pointing_gone(s, Unit::Column, 81));
            }
        }
        count
    }

    /// Obvious pairs: rows first, then columns, then boxes.
    pub fn resolve_obvious_pair(&mut self) -> (n: usize)
        ensures
            moved(old(self).grid, final(self).grid, obvious_pair_move(old(self).grid), n as int),
            final(self).rating == old(self).rating,
    {
        let count = self.resolve_obvious_pair_in_rows();
        if count > 0 {
            return count;
        }
        let count = self.resolve_obvious_pair_in_cols();
        if count > 0 {
            return count;
        }
        self.resolve_obvious_pair_in_boxes()
    }

    /// Hidden pairs: boxes first, then rows, then columns.
    pub fn resolve_hidden_pair(&mut self) -> (n: usize)
        ensures
            moved(old(self).grid, final(self).grid, hidden_pair_move(old(self).grid), n as int),
            final(self).rating == old(self).rating,
    {
        let count = self.resolve_hidden_pair_in_rows();
        if count > 0 {
            return count;
        }
        let count = self.resolve_hidden_pair_in_cols();
        if count > 0 {
            return count;
        }
        self.resolve_hidden_pair_in_boxes()
    }

    /// X-Wings: rows first, then columns.
    pub fn resolve_xwing(&mut self) -> (n: usize)
        ensures
            moved(old(self).grid, final(self).grid, xwing_move(old(self).grid), n as int),
            final(self).rating == old(self).rating,
    {
        let count = self.resolve_xwing_in_rows();
        if count > 0 {
            return count;
        }
        self.resolve_xwing_in_cols()
    }
}

/// The number of digits of a set below `k` is at most `k`.
pub proof fn lemma_count_le(mask: u16, k: int)
    requires
        k >= 0,
    ensures
        count_below(mask, k) <= k,
    decreases k,
{
    if k > 0 {
        lemma_count_le(mask, k - 1);
    }
}

/// A set with a positive count holds a candidate numbered below `k`.
pub proof fn lemma_count_in_witness(a: Set<Candidate>, k: int)
    requires
        count_in(a, k) > 0,
    ensures
        exists|i: int| 0 <= i < k && a.contains(#[trigger] cand_of(i)),
    decreases k,
{
    if k > 0 && !a.contains(cand_of(k - 1)) {
        lemma_count_in_witness(a, k - 1);
    }
}

/// A set of digits with a positive count holds a digit below `k`.
pub proof fn lemma_count_witness(mask: u16, k: int)
    requires
        count_below(mask, k) > 0,
    ensures
        exists|i: int| 0 <= i < k && #[trigger] in_mask(mask, i),
    decreases k,
{
    if k > 0 && !in_mask(mask, k - 1) {
        lemma_count_witness(mask, k - 1);
    }
}

/// The notes of the grid.
pub open spec fn note_set(s: Puzzle) -> Set<Candidate> {
    Set::new(|x: Candidate| x.row < 9 && x.col < 9 && s.cand(x.row as int, x.col as int, x.num as int))
}

/// How many notes the grid holds.
pub open spec fn notes_count(s: Puzzle) -> nat {
    count_in(note_set(s), 1296)
}

/// A move that does something takes at least one note away and adds none, so the
/// solver cannot go on forever.
pub proof fn lemma_step_shrinks(s: Puzzle, t: Puzzle, m: Move, n: int)
    requires
        moved(s, t, m, n),
        !(m is Stuck),
    ensures
        notes_count(t) < notes_count(s),
{
    let ns = note_set(s);
    let nt = note_set(t);
    let x: Candidate = match m {
        Move::Take { gone, .. } => {
            lemma_count_in_witness(present(s, gone), 1296);
            let i = choose|i: int| 0 <= i < 1296 && present(s, gone).contains(#[trigger] cand_of(i));
            cand_of(i)
        },
        Move::Place { num, row, col, .. } => {
            if count(s.candidates[row][col]) > 0 {
                lemma_count_witness(s.candidates[row][col], 16);
                let k = choose|k: int| 0 <= k < 16 && #[trigger] in_mask(s.candidates[row][col], k);
                Candidate { row: row as usize, col: col as usize, num: k as u8 }
            } else {
                lemma_count_in_witness(peer_hits(s, num, row, col), 1296);
                let i = choose|i: int| 0 <= i < 1296 && peer_hits(s, num, row, col).contains(#[trigger] cand_of(i));
                cand_of(i)
            }
        },
        Move::Stuck => Candidate { row: 0, col: 0, num: 0 },
    };
    assert(ns.contains(x) && !nt.contains(x)) by {
        match m {
            Move::Place { num, row, col, .. } => {
                assert(in_grid(row, col));
                assert(t.cand(x.row as int, x.col as int, x.num as int) == (s.cand(x.row as int, x.col as int, x.num as int)
                    && !(x.row == row && x.col == col) && !(crate::board::peers(row, col, x.row as int, x.col as int) && x.num == num)));
            },
            Move::Take { gone, .. } => {
                assert(t.cand(x.row as int, x.col as int, x.num as int) == (s.cand(x.row as int, x.col as int, x.num as int)
                    && !gone.contains(Candidate { row: x.row, col: x.col, num: x.num as int as u8 })));
            },
            Move::Stuck => {},
        }
    }
    assert(nt.subset_of(ns)) by {
        assert forall|y: Candidate| nt.contains(y) implies ns.contains(y) by {
            match m {
                Move::Place { num, row, col, .. } => {
                    assert(t.cand(y.row as int, y.col as int, y.num as int) ==> s.cand(y.row as int, y.col as int, y.num as int));
                },
                Move::Take { gone, .. } => {
                    assert(t.cand(y.row as int, y.col as int, y.num as int) ==> s.cand(y.row as int, y.col as int, y.num as int));
                },
                Move::Stuck => {},
            }
        }
    }
    let d = ns.difference(nt);
    assert(nt.union(d) =~= ns);
    lemma_count_in_union(nt, d, 1296);
    assert(d.contains(x));
    assert(x.num < 16);
    lemma_count_in_member(d, x, 1296);
}

/// A move takes at most 1312 notes: those of one cell and those of the whole grid.
pub proof fn lemma_move_bound(s: Puzzle, t: Puzzle, m: Move, n: int)
    requires
        moved(s, t, m, n),
    ensures
        n <= 1312,
{
    match m {
        Move::Place { num, row, col, .. } => {
            lemma_count_le(s.candidates[row][col], 16);
            lemma_count_in_bound(peer_hits(s, num, row, col), 1296);
        },
        Move::Take { gone, .. } => {
            lemma_count_in_bound(present(s, gone), 1296);
        },
        Move::Stuck => {},
    }
}

/// Which strategy a move belongs to; finding nothing is reported as the last digit.
pub open spec fn move_strategy(m: Move) -> Strategy {
    match m {
        Move::Place { strategy, .. } => strategy,
        Move::Take { strategy, .. } => strategy,
        Move::Stuck => Strategy::LastDigit,
    }
}

/// The rating `b` is `a` with `n` more notes counted for `strategy`.
pub open spec fn rated(a: [usize; 8], b: [usize; 8], strategy: Strategy, n: int) -> bool {
    forall|i: int| 0 <= i < 8 ==> #[trigger] b[i] == a[i] + if i == basic_index(strategy) { n } else { 0 }
}

/// `b` is `a` after one step of the first solver, the rating included; the strategies
/// that the step tries could look at the notes of `a`.
pub open spec fn stepped(a: Sudoku, b: Sudoku) -> bool {
    &&& step_ready(a.grid)
    &&& exists|n: int|
        #[trigger] moved(a.grid, b.grid, basic_step(a.grid), n) && rated(a.rating, b.rating, move_strategy(basic_step(a.grid)), n)
}

/// Each state of the trace is one step of the first solver after the one before.
pub open spec fn is_run(trace: Seq<Sudoku>) -> bool {
    &&& trace.len() >= 1
    &&& forall|i: int| 0 <= i < trace.len() - 1 ==> stepped(#[trigger] trace[i], trace[i + 1])
}

/// Every count of the rating has room for one more step.
pub open spec fn has_room(rating: [usize; 8]) -> bool {
    forall|i: int| 0 <= i < 8 ==> #[trigger] rating[i] <= usize::MAX - 1312
}

/// `t` is `s` with the notes of the empty cells computed, as `calc_all_notes` does.
pub open spec fn noted(s: Puzzle, t: Puzzle) -> bool {
    &&& t.board == s.board
    &&& t.original_board == s.original_board
    &&& forall|r: int, c: int| in_grid(r, c) && s.board[r][c] != EMPTY ==> t.candidates[r][c] == s.candidates[r][c]
    &&& forall|r: int, c: int, n: int|
        in_grid(r, c) && s.board[r][c] == EMPTY ==> t.cand(r, c, n) == (1 <= n <= 9 && !crate::board::in_row(s.board, r, n)
            && !crate::board::in_col(s.board, c, n) && !crate::board::in_box(s.board, r, c, n))
}

impl Sudoku {
    /// Count `n` notes for `strategy` and report the step.
    fn rate(&mut self, strategy: Strategy, n: usize) -> (res: Resolution)
        requires
            n <= 1312,
            has_room(old(self).rating),
        ensures
            res.nums_removed == n,
            res.strategy == strategy,
            rated(old(self).rating, final(self).rating, strategy, n as int),
            final(self).grid == old(self).grid,
    {
        let k = strategy.index();
        self.rating[k] = self.rating[k] + n;
        Resolution { nums_removed: n, strategy }
    }

    /// Whether every count of the rating has room for one more step.
    pub fn room(&self) -> (b: bool)
        ensures
            b == has_room(self.rating),
    {
        let mut i: usize = 0;
        while i < 8
            invariant
                i <= 8,
                forall|j: int| 0 <= j < i ==> #[trigger] self.rating[j] <= usize::MAX - 1312,
            decreases 8 - i,
        {
            if self.rating[i] > usize::MAX - 1312 {
                return false;
            }
            i = i + 1;
        }
        true
    }

    /// One step: the strategies in order of difficulty (last digit, obvious single,
    /// hidden single, pointing pair, obvious pair, hidden pair, X-Wing), and the first that
    /// takes a note away counts its notes in the rating. When none does, nothing changes
    /// and the step reports no note under the last digit.
    pub fn next_step(&mut self) -> (res: Resolution)
        requires
            step_ready(old(self).grid),
            has_room(old(self).rating),
        ensures
            moved(old(self).grid, final(self).grid, basic_step(old(self).grid), res.nums_removed as int),
            res.strategy == move_strategy(basic_step(old(self).grid)),
            rated(old(self).rating, final(self).rating, res.strategy, res.nums_removed as int),
            stepped(*old(self), *final(self)),
    {
        let res = self.step_once();
        proof {
            assert(moved(old(self).grid, self.grid, basic_step(old(self).grid), res.nums_removed as int));
        }
        res
    }

    fn step_once(&mut self) -> (res: Resolution)
        requires
            step_ready(old(self).grid),
            has_room(old(self).rating),
        ensures
            moved(old(self).grid, final(self).grid, basic_step(old(self).grid), res.nums_removed as int),
            res.strategy == move_strategy(basic_step(old(self).grid)),
            rated(old(self).rating, final(self).rating, res.strategy, res.nums_removed as int),
    {
        let ghost s = self.grid;
        proof {
            reveal(basic_step);
        }
        let mut n = self.resolve_last_digit();
        if n > 0 {
            proof {
                lemma_move_bound(s, self.grid, last_digit_move(s), n as int);
            }
            return self.rate(Strategy::LastDigit, n);
        }
        n = self.resolve_obvious_single();
        if n > 0 {
            proof {
                lemma_move_bound(s, self.grid, obvious_single_move(s), n as int);
            }
            return self.rate(Strategy::ObviousSingle, n);
        }
        n = self.resolve_hidden_single();
        if n > 0 {
            proof {
                lemma_move_bound(s, self.grid, hidden_single_move(s), n as int);
            }
            return self.rate(Strategy::HiddenSingle, n);
        }
        n = self.resolve_pointing_pair();
        if n > 0 {
            proof {
                lemma_move_bound(s, self.grid, pointing_move(s), n as int);
            }
            return self.rate(Strategy::PointingPair, n);
        }
        n = self.resolve_obvious_pair();
        if n > 0 {
            proof {
                lemma_move_bound(s, self.grid, obvious_pair_move(s), n as int);
            }
            return self.rate(Strategy::ObviousPair, n);
        }
        n = self.resolve_hidden_pair();
        if n > 0 {
            proof {
                lemma_move_bound(s, self.grid, hidden_pair_move(s), n as int);
            }
            return self.rate(Strategy::HiddenPair, n);
        }
        n = self.resolve_xwing();
        if n > 0 {
            proof {
                lemma_move_bound(s, self.grid, xwing_move(s), n as int);
            }
            return self.rate(Strategy::XWing, n);
        }
        Resolution { nums_removed: 0, strategy: Strategy::LastDigit }
    }
}

impl Sudoku {
    /// Solve as a human would: note the candidates, clear the rating, then take steps
    /// until the board is full. The run also stops when a step finds nothing, when the
    /// next step cannot look at the notes (see `step_ready`), or when the rating has no
    /// room left. Returns whether the board is full; when the board has a solution and no
    /// candidates in its filled cells, a full board is that solution, and the only one.
    pub fn solve_like_a_human(&mut self) -> (solved: bool)
        ensures
            exists|trace: Seq<Sudoku>|
                is_run(trace) && noted(old(self).grid, trace[0].grid) && (forall|i: int| 0 <= i < 8 ==> #[trigger] trace[0].rating[i] == 0)
                    && trace.last() == *final(self),
            solved == forall|r: int, c: int| in_grid(r, c) ==> final(self).grid.board[r][c] != EMPTY,
            !solved ==> basic_step(final(self).grid) is Stuck || !step_ready(final(self).grid) || !has_room(final(self).rating),
            final(self).grid.original_board == old(self).grid.original_board,
            solved && solvable(old(self).grid.board) && bare(old(self).grid) ==> {
                &&& valid_completion(old(self).grid.board, final(self).grid.board)
                &&& forall|full: Grid, r: int, c: int|
                    valid_completion(old(self).grid.board, full) && in_grid(r, c) ==> full[r][c] == final(self).grid.board[r][c]
            },
    {
        self.calc_all_notes();
        self.rating = [0usize; 8];
        let ghost start = *self;
        let ghost mut trace: Seq<Sudoku> = seq![*self];
        loop
            invariant
                is_run(trace),
                trace[0] == start,
                trace.last() == *self,
                self.grid.original_board == old(self).grid.original_board,
            ensures
                is_run(trace),
                trace[0] == start,
                trace.last() == *self,
                self.grid.original_board == old(self).grid.original_board,
                (forall|r: int, c: int| in_grid(r, c) ==> self.grid.board[r][c] != EMPTY) || basic_step(self.grid) is Stuck
                    || !step_ready(self.grid) || !has_room(self.rating),
            decreases notes_count(self.grid),
        {
            if !self.unsolved() {
                break;
            }
            if !self.step_ok() || !self.room() {
                break;
            }
            let ghost before = *self;
            let res = self.next_step();
            if res.nums_removed == 0 {
                proof {
                    assert(basic_step(before.grid) is Stuck);
                    assert(self.grid == before.grid);
                    assert(self.rating =~= before.rating);
                    assert(*self == before);
                }
                break;
            }
            proof {
                lemma_step_shrinks(before.grid, self.grid, basic_step(before.grid), res.nums_removed as int);
                let longer = trace.push(*self);
                assert forall|i: int| 0 <= i < longer.len() - 1 implies stepped(#[trigger] longer[i], longer[i + 1]) by {
                    if i < trace.len() - 1 {
                        assert(longer[i] == trace[i] && longer[i + 1] == trace[i + 1]);
                    } else {
                        assert(longer[i] == before);
                    }
                }
                trace = longer;
            }
        }
        let solved = !self.unsolved();
        proof {
            if solved && solvable(old(self).grid.board) && bare(old(self).grid) {
                lemma_first_solver_solution(old(self).grid, trace);
            }
        }
        solved
    }
}


/// The first solver misses no hidden single: when an empty cell holds a candidate that no
/// other cell of its row, column or box holds, its hidden single move fills a cell.
pub proof fn lemma_basic_hidden_single_seen(s: Puzzle, u: Unit, r: int, c: int, n: int)
    requires
        in_grid(r, c),
        0 <= n < 16,
        hidden_at(s, u, r, c, n),
    ensures
        hidden_single_move(s) is Place,
{
    crate::singles::lemma_hidden_single_search_finds(s, u, r, c, n);
}

/// The first solver misses no obvious pair: two cells of a house with the same two
/// candidates, which some other cell of the house also holds, make its obvious pair move
/// take notes.
pub proof fn lemma_basic_obvious_pair_seen(s: Puzzle, u: Unit, h: int, i: int, j: int)
    requires
        0 <= h < 9,
        0 <= i < 9,
        0 <= j < 9,
        crate::subsets::obvious_pair_found(s, u, h, i, j),
    ensures
        obvious_pair_move(s) is Take,
{
    crate::subsets::lemma_obvious_pair_search_finds(s, u, h, i, j);
}

/// The first solver misses no hidden pair that removes something.
pub proof fn lemma_basic_hidden_pair_seen(s: Puzzle, u: Unit, h: int, d1: int, d2: int)
    requires
        0 <= h < 9,
        0 <= d1 < 16,
        0 <= d2 < 16,
        crate::hidden::hidden_pair_removes(s, u, h, d1, d2),
    ensures
        hidden_pair_move(s) is Take,
{
    crate::hidden::lemma_hidden_pair_search_finds(s, u, h, d1, d2);
}

/// The first solver misses no X-Wing that removes something, in rows or in columns.
pub proof fn lemma_basic_xwing_seen(s: Puzzle, u: Unit, num: int, h1: int, h2: int)
    requires
        u != Unit::Box,
        1 <= num <= 9,
        0 <= h1 < 9,
        0 <= h2 < 9,
        crate::fish::xwing_removes(s, u, num, h1, h2),
    ensures
        xwing_move(s) is Take,
{
    crate::fish::lemma_xwing_search_finds(s, u, num, h1, h2);
}

/// The first solver's pointing pair move takes notes whenever the pointing pairs of the
/// rows, or else those of the columns, take some.
pub proof fn lemma_basic_pointing_seen(s: Puzzle)
    ensures
        gain(s, pointing_gone(s, Unit::Row, 81)) > 0 ==> pointing_move(s) == (Move::Take {
            strategy: Strategy::PointingPair,
            gone: pointing_gone(s, Unit::Row, 81),
        }),
        gain(s, pointing_gone(s, Unit::Row, 81)) <= 0 && gain(s, pointing_gone(s, Unit::Column, 81)) > 0 ==> pointing_move(s) == (
        Move::Take { strategy: Strategy::PointingPair, gone: pointing_gone(s, Unit::Column, 81) }),
{
}

} // verus!
