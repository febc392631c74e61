//! Last digit: a row, column or box with a single empty cell gets its missing digit.

use vstd::prelude::*;

use crate::board::{in_box, in_col, in_grid, in_row, Grid, Sudoku};
use crate::collect::set_num_view;
use crate::digits::{in_mask, lemma_missing, mask_has, ALL_DIGITS};
use crate::search::{first_from, lemma_first_end, lemma_first_from, lemma_first_hit, lemma_first_skip};
use crate::{empty_view, RemovalResult, RemovalView, Strategy, StrategyResult, Unit, EMPTY};

verus! {

/// Row `r` has exactly one empty cell, at column `c`.
pub open spec fn sole_empty_in_row(g: Grid, r: int, c: int) -> bool {
    0 <= c < 9 && g[r][c] == EMPTY && forall|c2: int| 0 <= c2 < 9 && c2 != c ==> g[r][c2] != EMPTY
}

/// Column `c` has exactly one empty cell, at row `r`.
pub open spec fn sole_empty_in_col(g: Grid, c: int, r: int) -> bool {
    0 <= r < 9 && g[r][c] == EMPTY && forall|r2: int| 0 <= r2 < 9 && r2 != r ==> g[r2][c] != EMPTY
}

/// `n` is the only digit `1..=9` that row `r` lacks.
pub open spec fn sole_missing_in_row(g: Grid, r: int, n: int) -> bool {
    &&& 1 <= n <= 9
    &&& !in_row(g, r, n)
    &&& forall|m: int| 1 <= m <= 9 && !#[trigger] in_row(g, r, m) ==> m == n
}

/// `n` is the only digit `1..=9` that column `c` lacks.
pub open spec fn sole_missing_in_col(g: Grid, c: int, n: int) -> bool {
    &&& 1 <= n <= 9
    &&& !in_col(g, c, n)
    &&& forall|m: int| 1 <= m <= 9 && !#[trigger] in_col(g, c, m) ==> m == n
}

/// The first row, from the top, with exactly one empty cell.
pub open spec fn first_sole_empty_row(g: Grid) -> Option<int> {
    first_from(|r: int| exists|c: int| sole_empty_in_row(g, r, c), 0, 9)
}

/// The first column, from the left, with exactly one empty cell.
pub open spec fn first_sole_empty_col(g: Grid) -> Option<int> {
    first_from(|c: int| exists|r: int| sole_empty_in_col(g, c, r), 0, 9)
}

/// The search in rows only works when the first row with a single empty cell lacks a
/// single digit.
pub open spec fn last_digit_rows_defined(g: Grid) -> bool {
    first_sole_empty_row(g) matches Some(r) ==> exists|n: int| #[trigger] sole_missing_in_row(g, r, n)
}

pub open spec fn last_digit_cols_defined(g: Grid) -> bool {
    first_sole_empty_col(g) matches Some(c) ==> exists|n: int| #[trigger] sole_missing_in_col(g, c, n)
}

/// Placing the missing digit of the first row with a single empty cell.
pub open spec fn last_digit_rows_view(s: Sudoku) -> RemovalView {
    match first_sole_empty_row(s.board) {
        None => empty_view(),
        Some(r) => {
            let c = choose|c: int| sole_empty_in_row(s.board, r, c);
            let n = choose|n: int| sole_missing_in_row(s.board, r, n);
            RemovalView {
                unit: Some(Unit::Row),
                unit_index: Some(seq![r as usize]),
                ..set_num_view(s, n as u8, r, c)
            }
        },
    }
}

/// Placing the missing digit of the first column with a single empty cell.
pub open spec fn last_digit_cols_view(s: Sudoku) -> RemovalView {
    match first_sole_empty_col(s.board) {
        None => empty_view(),
        Some(c) => {
            let r = choose|r: int| sole_empty_in_col(s.board, c, r);
            let n = choose|n: int| sole_missing_in_col(s.board, c, n);
            RemovalView {
                unit: Some(Unit::Column),
                unit_index: Some(seq![c as usize]),
                ..set_num_view(s, n as u8, r, c)
            }
        },
    }
}

/// The `k`-th cell of box `b`, in row-major order.
pub open spec fn box_cell_row(b: int, k: int) -> int {
    3 * (b / 3) + k / 3
}

pub open spec fn box_cell_col(b: int, k: int) -> int {
    3 * (b % 3) + k % 3
}

/// The first empty cell of box `b`, by its position in the box.
pub open spec fn first_empty_in_box(g: Grid, b: int) -> Option<int> {
    first_from(|k: int| g[box_cell_row(b, k)][box_cell_col(b, k)] == EMPTY, 0, 9)
}

/// `n` is the only digit `1..=9` that box `b` lacks.
pub open spec fn sole_missing_in_box(g: Grid, b: int, n: int) -> bool {
    &&& 1 <= n <= 9
    &&& !in_box(g, 3 * (b / 3), 3 * (b % 3), n)
    &&& forall|m: int| 1 <= m <= 9 && !#[trigger] in_box(g, 3 * (b / 3), 3 * (b % 3), m) ==> m == n
}

/// Box `b` has an empty cell and lacks exactly one digit.
pub open spec fn box_last_digit(g: Grid, b: int) -> bool {
    first_empty_in_box(g, b) is Some && exists|n: int| sole_missing_in_box(g, b, n)
}

pub open spec fn first_last_digit_box(g: Grid) -> Option<int> {
    first_from(|b: int| box_last_digit(g, b), 0, 9)
}

/// Placing the missing digit into the first empty cell of the first box that lacks one digit.
pub open spec fn last_digit_boxes_view(s: Sudoku) -> RemovalView {
    match first_last_digit_box(s.board) {
        None => empty_view(),
        Some(b) => {
            let k = first_empty_in_box(s.board, b)->0;
            let n = choose|n: int| sole_missing_in_box(s.board, b, n);
            RemovalView {
                unit: Some(Unit::Box),
                unit_index: Some(seq![b as usize]),
                ..set_num_view(s, n as u8, box_cell_row(b, k), box_cell_col(b, k))
            }
        },
    }
}

/// Rows first, then columns, then boxes.
pub open spec fn last_digit_view(s: Sudoku) -> RemovalView {
    if first_sole_empty_row(s.board) is Some {
        last_digit_rows_view(s)
    } else if first_sole_empty_col(s.board) is Some {
        last_digit_cols_view(s)
    } else {
        last_digit_boxes_view(s)
    }
}

pub open spec fn last_digit_defined(g: Grid) -> bool {
    last_digit_rows_defined(g) && (first_sole_empty_row(g) is None ==> last_digit_cols_defined(g))
}

impl Sudoku {
    /// The only empty cell of row `row`, if it has exactly one.
    pub(crate) fn sole_empty_col(&self, row: usize) -> (res: Option<usize>)
        requires
            row < 9,
        ensures
            res matches Some(c) ==> sole_empty_in_row(self.board, row as int, c as int),
            res is None ==> forall|c: int| !sole_empty_in_row(self.board, row as int, c),
    {
        let mut count: usize = 0;
        let mut found: usize = 0;
        let mut col: usize = 0;
        while col < 9
            invariant
                row < 9,
                col <= 9,
                count <= 2,
                count == 0 ==> forall|c: int| 0 <= c < col ==> self.board[row as int][c] != EMPTY,
                count == 1 ==> found < col && self.board[row as int][found as int] == EMPTY && forall|c: int|
                    0 <= c < col && c != found ==> self.board[row as int][c] != EMPTY,
                count == 2 ==> exists|c1: int, c2: int|
                    0 <= c1 < c2 < col && self.board[row as int][c1] == EMPTY && self.board[row as int][c2]
                        == EMPTY,
            decreases 9 - col,
        {
            if self.board[row][col] == EMPTY {
                if count == 1 {
                    assert(self.board[row as int][found as int] == EMPTY && self.board[row as int][col as int] == EMPTY);
                    count = 2;
                } else if count == 0 {
                    count = 1;
                    found = col;
                }
            }
            col = col + 1;
        }
        if count == 1 {
            Some(found)
        } else {
            proof {
                if count == 2 {
                    let (c1, c2) = choose|c1: int, c2: int|
                        0 <= c1 < c2 < col && self.board[row as int][c1] == EMPTY && self.board[row as int][c2]
                            == EMPTY;
                    assert forall|c: int| !sole_empty_in_row(self.board, row as int, c) by {
                        if sole_empty_in_row(self.board, row as int, c) {
                            if c == c1 {
                                assert(self.board[row as int][c2] != EMPTY);
                            } else {
                                assert(self.board[row as int][c1] != EMPTY);
                            }
                        }
                    }
                }
            }
            None
        }
    }

    /// The only empty cell of column `col`, if it has exactly one.
    pub(crate) fn sole_empty_row(&self, col: usize) -> (res: Option<usize>)
        requires
            col < 9,
        ensures
            res matches Some(r) ==> sole_empty_in_col(self.board, col as int, r as int),
            res is None ==> forall|r: int| !sole_empty_in_col(self.board, col as int, r),
    {
        let mut count: usize = 0;
        let mut found: usize = 0;
        let mut row: usize = 0;
        while row < 9
            invariant
                col < 9,
                row <= 9,
                count <= 2,
                count == 0 ==> forall|r: int| 0 <= r < row ==> self.board[r][col as int] != EMPTY,
                count == 1 ==> found < row && self.board[found as int][col as int] == EMPTY && forall|r: int|
                    0 <= r < row && r != found ==> self.board[r][col as int] != EMPTY,
                count == 2 ==> exists|r1: int, r2: int|
                    0 <= r1 < r2 < row && self.board[r1][col as int] == EMPTY && self.board[r2][col as int]
                        == EMPTY,
            decreases 9 - row,
        {
            if self.board[row][col] == EMPTY {
                if count == 1 {
                    assert(self.board[found as int][col as int] == EMPTY && self.board[row as int][col as int] == EMPTY);
                    count = 2;
                } else if count == 0 {
                    count = 1;
                    found = row;
                }
            }
            row = row + 1;
        }
        if count == 1 {
            Some(found)
        } else {
            proof {
                if count == 2 {
                    let (r1, r2) = choose|r1: int, r2: int|
                        0 <= r1 < r2 < row && self.board[r1][col as int] == EMPTY && self.board[r2][col as int]
                            == EMPTY;
                    assert forall|r: int| !sole_empty_in_col(self.board, col as int, r) by {
                        if sole_empty_in_col(self.board, col as int, r) {
                            if r == r1 {
                                assert(self.board[r2][col as int] != EMPTY);
                            } else {
                                assert(self.board[r1][col as int] != EMPTY);
                            }
                        }
                    }
                }
            }
            None
        }
    }

    /// The smallest digit of a candidate set, if it has one in `1..=9`.
    fn first_digit(mask: u16) -> (res: Option<u8>)
        ensures
            res matches Some(n) ==> 1 <= n <= 9 && in_mask(mask, n as int) && forall|m: int|
                1 <= m < n ==> !in_mask(mask, m),
            res is None ==> forall|m: int| 1 <= m <= 9 ==> !in_mask(mask, m),
    {
        let mut n: u8 = 1;
        while n <= 9
            invariant
                1 <= n <= 10,
                forall|m: int| 1 <= m < n ==> !in_mask(mask, m),
            decreases 10 - n,
        {
            if mask_has(mask, n) {
                return Some(n);
            }
            n = n + 1;
        }
        None
    }

    /// Last digit in rows: the first row with a single empty cell gets the digit it lacks.
    pub fn find_last_digit_in_rows(&self) -> (res: RemovalResult)
        requires
            last_digit_rows_defined(self.board),
        ensures
            res.wf(),
            res@ == last_digit_rows_view(*self),
    {
        let ghost p = |r: int| exists|c: int| sole_empty_in_row(self.board, r, c);
        let mut row: usize = 0;
        while row < 9
            invariant
                row <= 9,
                first_sole_empty_row(self.board) == first_from(p, row as int, 9),
                p == (|r: int| exists|c: int| sole_empty_in_row(self.board, r, c)),
                last_digit_rows_defined(self.board),
            decreases 9 - row,
        {
            match self.sole_empty_col(row) {
                None => {
                    proof {
                        lemma_first_skip(p, row as int, 9);
                    }
                },
                Some(col) => {
                    proof {
                        assert(sole_empty_in_row(self.board, row as int, col as int));
                        assert(p(row as int));
                        lemma_first_hit(p, row as int, 9);
                    }
                    let nums = self.calc_nums_in_row(row);
                    let missing = ALL_DIGITS & !nums;
                    proof {
                        assert forall|m: int| 0 <= m < 16 implies in_mask(missing, m) == (1 <= m <= 9 && !in_row(
                            self.board,
                            row as int,
                            m,
                        )) by {
                            lemma_missing(nums, m as u16);
                        }
                    }
                    let num = match Self::first_digit(missing) {
                        Some(n) => n,
                        None => {
                            proof {
                                let n = choose|n: int| sole_missing_in_row(self.board, row as int, n);
                                assert(in_mask(missing, n));
                            }
                            0
                        },
                    };
                    let mut result = self.collect_set_num(num, row, col);
                    result.unit = Some(Unit::Row);
                    result.unit_index = Some(vec![row]);
                    proof {
                        let n = choose|n: int| sole_missing_in_row(self.board, row as int, n);
                        assert(sole_missing_in_row(self.board, row as int, num as int));
                        let c = choose|c: int| sole_empty_in_row(self.board, row as int, c);
                        assert(c == col);
                        assert(result@.unit_index == Some(seq![row]));
                        assert(result@ =~= last_digit_rows_view(*self));
                    }
                    return result;
                },
            }
            row = row + 1;
        }
        proof {
            lemma_first_end(p, 9);
        }
        RemovalResult::empty()
    }

    /// Last digit in columns: the first column with a single empty cell gets the digit it lacks.
    pub fn find_last_digit_in_cols(&self) -> (res: RemovalResult)
        requires
            last_digit_cols_defined(self.board),
        ensures
            res.wf(),
            res@ == last_digit_cols_view(*self),
    {
        let ghost p = |c: int| exists|r: int| sole_empty_in_col(self.board, c, r);
        let mut col: usize = 0;
        while col < 9
            invariant
                col <= 9,
                first_sole_empty_col(self.board) == first_from(p, col as int, 9),
                p == (|c: int| exists|r: int| sole_empty_in_col(self.board, c, r)),
                last_digit_cols_defined(self.board),
            decreases 9 - col,
        {
            match self.sole_empty_row(col) {
                None => {
                    proof {
                        lemma_first_skip(p, col as int, 9);
                    }
                },
                Some(row) => {
                    proof {
                        assert(sole_empty_in_col(self.board, col as int, row as int));
                        assert(p(col as int));
                        lemma_first_hit(p, col as int, 9);
                    }
                    let nums = self.calc_nums_in_col(col);
                    let missing = ALL_DIGITS & !nums;
                    proof {
                        assert forall|m: int| 0 <= m < 16 implies in_mask(missing, m) == (1 <= m <= 9 && !in_col(
                            self.board,
                            col as int,
                            m,
                        )) by {
                            lemma_missing(nums, m as u16);
                        }
                    }
                    let num = match Self::first_digit(missing) {
                        Some(n) => n,
                        None => {
                            proof {
                                let n = choose|n: int| sole_missing_in_col(self.board, col as int, n);
                                assert(in_mask(missing, n));
                            }
                            0
                        },
                    };
                    let mut result = self.collect_set_num(num, row, col);
                    result.unit = Some(Unit::Column);
                    result.unit_index = Some(vec![col]);
                    proof {
                        let n = choose|n: int| sole_missing_in_col(self.board, col as int, n);
                        assert(sole_missing_in_col(self.board, col as int, num as int));
                        let r = choose|r: int| sole_empty_in_col(self.board, col as int, r);
                        assert(r == row);
                        assert(result@.unit_index == Some(seq![col]));
                        assert(result@ =~= last_digit_cols_view(*self));
                    }
                    return result;
                },
            }
            col = col + 1;
        }
        proof {
            lemma_first_end(p, 9);
        }
        RemovalResult::empty()
    }

    /// The only digit `1..=9` of a candidate set, if it holds exactly one.
    fn single_digit(mask: u16) -> (res: Option<u8>)
        ensures
            res matches Some(n) ==> 1 <= n <= 9 && in_mask(mask, n as int) && forall|m: int|
                1 <= m <= 9 && in_mask(mask, m) ==> m == n,
            res is None ==> !exists|n: int| 1 <= n <= 9 && in_mask(mask, n) && forall|m: int|
                1 <= m <= 9 && #[trigger] in_mask(mask, m) ==> m == n,
    {
        let mut found: Option<u8> = None;
        let mut n: u8 = 1;
        while n <= 9
            invariant
                1 <= n <= 10,
                found is None ==> forall|m: int| 1 <= m < n ==> !in_mask(mask, m),
                found matches Some(f) ==> 1 <= f < n && in_mask(mask, f as int) && forall|m: int|
                    1 <= m < n && in_mask(mask, m) ==> m == f,
            decreases 10 - n,
        {
            if mask_has(mask, n) {
                match found {
                    Some(f) => {
                        proof {
                            assert forall|k: int| 1 <= k <= 9 && in_mask(mask, k) implies !(forall|m: int|
                                1 <= m <= 9 && #[trigger] in_mask(mask, m) ==> m == k) by {
                                if k == f {
                                    assert(in_mask(mask, n as int));
                                } else {
                                    assert(in_mask(mask, f as int));
                                }
                            }
                        }
                        return None;
                    },
                    None => {
                        found = Some(n);
                    },
                }
            }
            n = n + 1;
        }
        found
    }

    /// Last digit in boxes: the first box that has an empty cell and lacks a single digit
    /// gets that digit in its first empty cell.
    pub fn find_last_digit_in_boxes(&self) -> (res: RemovalResult)
        ensures
            res.wf(),
            res@ == last_digit_boxes_view(*self),
    {
        let ghost p = |b: int| box_last_digit(self.board, b);
        let mut box_index: usize = 0;
        while box_index < 9
            invariant
                box_index <= 9,
                first_last_digit_box(self.board) == first_from(p, box_index as int, 9),
                p == (|b: int| box_last_digit(self.board, b)),
            decreases 9 - box_index,
        {
            let start_row: usize = 3 * (box_index / 3);
            let start_col: usize = 3 * (box_index % 3);
            let ghost q = |k: int| self.board[box_cell_row(box_index as int, k)][box_cell_col(box_index as int, k)] == EMPTY;
            let mut k: usize = 0;
            while k < 9
                invariant
                    box_index < 9,
                    start_row == 3 * (box_index / 3),
                    start_col == 3 * (box_index % 3),
                    k <= 9,
                    q == (|k: int| self.board[box_cell_row(box_index as int, k)][box_cell_col(box_index as int, k)] == EMPTY),
                    first_empty_in_box(self.board, box_index as int) == first_from(q, k as int, 9),
                ensures
                    k <= 9,
                    first_empty_in_box(self.board, box_index as int) == first_from(q, k as int, 9),
                    k < 9 ==> q(k as int),
                decreases 9 - k,
            {
                if self.board[start_row + k / 3][start_col + k % 3] == EMPTY {
                    break;
                }
                proof {
                    lemma_first_skip(q, k as int, 9);
                }
                k = k + 1;
            }
            if k < 9 {
                proof {
                    lemma_first_hit(q, k as int, 9);
                }
                let nums = self.calc_nums_in_box(box_index);
                let missing = ALL_DIGITS & !nums;
                proof {
                    assert forall|m: int| 0 <= m < 16 implies in_mask(missing, m) == (1 <= m <= 9 && !in_box(
                        self.board,
                        3 * (box_index / 3),
                        3 * (box_index % 3),
                        m,
                    )) by {
                        lemma_missing(nums, m as u16);
                    }
                }
                match Self::single_digit(missing) {
                    Some(num) => {
                        proof {
                            assert forall|m: int| 1 <= m <= 9 && !#[trigger] in_box(self.board, 3 * (box_index / 3), 3 * (box_index % 3), m) implies m == num by {
                                assert(in_mask(missing, m));
                            }
                            assert(sole_missing_in_box(self.board, box_index as int, num as int));
                            assert(p(box_index as int));
                            lemma_first_hit(p, box_index as int, 9);
                        }
                        let mut result = self.collect_set_num(num, start_row + k / 3, start_col + k % 3);
                        result.unit = Some(Unit::Box);
                        result.unit_index = Some(vec![box_index]);
                        proof {
                            let n = choose|n: int| sole_missing_in_box(self.board, box_index as int, n);
                            assert(n == num);
                            assert(result@.unit_index == Some(seq![box_index]));
                            assert(result@ =~= last_digit_boxes_view(*self));
                        }
                        return result;
                    },
                    None => {
                        proof {
                            assert forall|n: int| !sole_missing_in_box(self.board, box_index as int, n) by {
                                if sole_missing_in_box(self.board, box_index as int, n) {
                                    assert(in_mask(missing, n));
                                    assert forall|m: int| 1 <= m <= 9 && #[trigger] in_mask(missing, m) implies m == n by {
                                        assert(!in_box(self.board, 3 * (box_index / 3), 3 * (box_index % 3), m));
                                    }
                                }
                            }
                            assert(!p(box_index as int));
                            lemma_first_skip(p, box_index as int, 9);
                        }
                    },
                }
            } else {
                proof {
                    lemma_first_end(q, 9);
                    assert(!p(box_index as int));
                    lemma_first_skip(p, box_index as int, 9);
                }
            }
            box_index = box_index + 1;
        }
        proof {
            lemma_first_end(p, 9);
        }
        RemovalResult::empty()
    }

    /// Last digit: rows first, then columns, then boxes.
    pub fn find_last_digit(&self) -> (res: StrategyResult)
        requires
            last_digit_defined(self.board),
        ensures
            res.strategy == Strategy::LastDigit,
            res.removals.wf(),
            res.removals@ == last_digit_view(*self),
    {
        let mut result = StrategyResult::new(Strategy::LastDigit);
        let removal_result = self.find_last_digit_in_rows();
        if removal_result.will_remove_candidates() {
            proof {
                assert(first_sole_empty_row(self.board) is Some);
            }
            result.removals = removal_result;
            return result;
        }
        proof {
            if first_sole_empty_row(self.board) is Some {
                let r = first_sole_empty_row(self.board)->0;
                let c = choose|c: int| sole_empty_in_row(self.board, r, c);
                let n = choose|n: int| sole_missing_in_row(self.board, r, n);
                assert(removal_result@.removed.contains(crate::Candidate { row: r as usize, col: c as usize, num: n as u8 }));
            }
        }
        let removal_result = self.find_last_digit_in_cols();
        if removal_result.will_remove_candidates() {
            proof {
                assert(first_sole_empty_col(self.board) is Some);
            }
            result.removals = removal_result;
            return result;
        }
        proof {
            if first_sole_empty_col(self.board) is Some {
                let c = first_sole_empty_col(self.board)->0;
                let r = choose|r: int| sole_empty_in_col(self.board, c, r);
                let n = choose|n: int| sole_missing_in_col(self.board, c, n);
                assert(removal_result@.removed.contains(crate::Candidate { row: r as usize, col: c as usize, num: n as u8 }));
            }
        }
        let removal_result = self.find_last_digit_in_boxes();
        result.removals = removal_result;
        result
    }

    /// Whether the search for a last digit can look at the board: the first row, and when
    /// there is none the first column, with a single empty cell lacks a single digit.
    pub fn last_digit_ok(&self) -> (b: bool)
        ensures
            b == last_digit_defined(self.board),
    {
        let ghost p = |r: int| exists|c: int| sole_empty_in_row(self.board, r, c);
        let mut row: usize = 0;
        while row < 9
            invariant
                row <= 9,
                first_sole_empty_row(self.board) == first_from(p, row as int, 9),
                p == (|r: int| exists|c: int| sole_empty_in_row(self.board, r, c)),
            decreases 9 - row,
        {
            match self.sole_empty_col(row) {
                None => {
                    proof {
                        lemma_first_skip(p, row as int, 9);
                    }
                },
                Some(col) => {
                    proof {
                        assert(sole_empty_in_row(self.board, row as int, col as int));
                        assert(p(row as int));
                        lemma_first_hit(p, row as int, 9);
                    }
                    let nums = self.calc_nums_in_row(row);
                    let missing = ALL_DIGITS & !nums;
                    proof {
                        assert forall|m: int| 0 <= m < 16 implies in_mask(missing, m) == (1 <= m <= 9 && !in_row(
                            self.board,
                            row as int,
                            m,
                        )) by {
                            lemma_missing(nums, m as u16);
                        }
                    }
                    let single = Self::single_digit(missing);
                    proof {
                        if single is Some {
                            let num = single->0;
                            assert forall|m: int| 1 <= m <= 9 && !#[trigger] in_row(self.board, row as int, m) implies m == num by {
                                assert(in_mask(missing, m));
                            }
                            assert(sole_missing_in_row(self.board, row as int, num as int));
                            let rr = first_sole_empty_row(self.board)->0;
                            assert(rr == row);
                            assert(sole_missing_in_row(self.board, rr, num as int));
                            assert(last_digit_rows_defined(self.board));
                        } else {
                            assert forall|n: int| !sole_missing_in_row(self.board, row as int, n) by {
                                if sole_missing_in_row(self.board, row as int, n) {
                                    assert(in_mask(missing, n));
                                    assert forall|m: int| 1 <= m <= 9 && #[trigger] in_mask(missing, m) implies m == n by {
                                        assert(!in_row(self.board, row as int, m));
                                    }
                                }
                            }
                        }
                    }
                    return single.is_some();
                },
            }
            row = row + 1;
        }
        proof {
            lemma_first_end(p, 9);
        }
        let ghost q = |c: int| exists|r: int| sole_empty_in_col(self.board, c, r);
        let mut col: usize = 0;
        while col < 9
            invariant
                col <= 9,
                first_sole_empty_row(self.board) is None,
                first_sole_empty_col(self.board) == first_from(q, col as int, 9),
                q == (|c: int| exists|r: int| sole_empty_in_col(self.board, c, r)),
            decreases 9 - col,
        {
            match self.sole_empty_row(col) {
                None => {
                    proof {
                        lemma_first_skip(q, col as int, 9);
                    }
                },
                Some(r) => {
                    proof {
                        assert(sole_empty_in_col(self.board, col as int, r as int));
                        assert(q(col as int));
                        lemma_first_hit(q, col as int, 9);
                    }
                    let nums = self.calc_nums_in_col(col);
                    let missing = ALL_DIGITS & !nums;
                    proof {
                        assert forall|m: int| 0 <= m < 16 implies in_mask(missing, m) == (1 <= m <= 9 && !in_col(
                            self.board,
                            col as int,
                            m,
                        )) by {
                            lemma_missing(nums, m as u16);
                        }
                    }
                    let single = Self::single_digit(missing);
                    proof {
                        if single is Some {
                            let num = single->0;
                            assert forall|m: int| 1 <= m <= 9 && !#[trigger] in_col(self.board, col as int, m) implies m == num by {
                                assert(in_mask(missing, m));
                            }
                            assert(sole_missing_in_col(self.board, col as int, num as int));
                            let cc = first_sole_empty_col(self.board)->0;
                            assert(cc == col);
                            assert(sole_missing_in_col(self.board, cc, num as int));
                            assert(last_digit_cols_defined(self.board));
                        } else {
                            assert forall|n: int| !sole_missing_in_col(self.board, col as int, n) by {
                                if sole_missing_in_col(self.board, col as int, n) {
                                    assert(in_mask(missing, n));
                                    assert forall|m: int| 1 <= m <= 9 && #[trigger] in_mask(missing, m) implies m == n by {
                                        assert(!in_col(self.board, col as int, m));
                                    }
                                }
                            }
                        }
                    }
                    return single.is_some();
                },
            }
            col = col + 1;
        }
        proof {
            lemma_first_end(q, 9);
        }
        true
    }
}


/// The Last Digit step agrees with the three searches: the rows' last digit when a row has
/// a single empty cell, else the columns', else exactly what the boxes' search gives.
pub proof fn lemma_last_digit_step(s: Sudoku)
    ensures
        last_digit_rows_view(s).sets_cell is Some ==> last_digit_view(s) == last_digit_rows_view(s),
        last_digit_rows_view(s).sets_cell is None && last_digit_cols_view(s).sets_cell is Some ==> last_digit_view(s)
            == last_digit_cols_view(s),
        last_digit_rows_view(s).sets_cell is None && last_digit_cols_view(s).sets_cell is None ==> last_digit_view(s)
            == last_digit_boxes_view(s),
{
}

/// No last digit is missed: when a row or a column has a single empty cell, or a box has an
/// empty cell and lacks exactly one digit, the Last Digit step fills a cell.
pub proof fn lemma_last_digit_seen(s: Sudoku, u: Unit, h: int)
    requires
        0 <= h < 9,
        match u {
            Unit::Row => exists|c: int| sole_empty_in_row(s.board, h, c),
            Unit::Column => exists|r: int| sole_empty_in_col(s.board, h, r),
            Unit::Box => box_last_digit(s.board, h),
        },
    ensures
        last_digit_view(s).sets_cell is Some,
{
    let pr = |r: int| exists|c: int| sole_empty_in_row(s.board, r, c);
    let pc = |c: int| exists|r: int| sole_empty_in_col(s.board, c, r);
    let pb = |b: int| box_last_digit(s.board, b);
    lemma_first_from(pr, 0, 9);
    lemma_first_from(pc, 0, 9);
    lemma_first_from(pb, 0, 9);
    match u {
        Unit::Row => assert(pr(h)),
        Unit::Column => assert(pc(h)),
        Unit::Box => assert(pb(h)),
    }
}


proof fn lemma_box_cell(b: int, k: int)
    requires
        0 <= b < 9,
        0 <= k < 9,
    ensures
        in_grid(box_cell_row(b, k), box_cell_col(b, k)),
        crate::board::box_of(box_cell_row(b, k), box_cell_col(b, k)) == b,
{
    assert((3 * (b / 3) + k / 3) / 3 == b / 3);
    assert((3 * (b % 3) + k % 3) / 3 == b % 3);
}

/// What the Last Digit step fills is a real last digit: an empty cell that is the only
/// empty cell of its row and gets the only digit the row lacks, or likewise for its column,
/// or that gets the only digit its box lacks.
pub proof fn lemma_last_digit_real(s: Sudoku)
    requires
        last_digit_defined(s.board),
    ensures
        last_digit_view(s).sets_cell matches Some(cell) ==> {
            let r = cell.row as int;
            let c = cell.col as int;
            let n = cell.num as int;
            &&& in_grid(r, c)
            &&& s.board[r][c] == EMPTY
            &&& (sole_empty_in_row(s.board, r, c) && sole_missing_in_row(s.board, r, n)) || (sole_empty_in_col(s.board, c, r)
                && sole_missing_in_col(s.board, c, n)) || sole_missing_in_box(s.board, crate::board::box_of(r, c), n)
        },
{
    let g = s.board;
    lemma_first_from(|r: int| exists|c: int| sole_empty_in_row(g, r, c), 0, 9);
    lemma_first_from(|c: int| exists|r: int| sole_empty_in_col(g, c, r), 0, 9);
    lemma_first_from(|b: int| box_last_digit(g, b), 0, 9);
    if let Some(r) = first_sole_empty_row(g) {
        let c = choose|c: int| sole_empty_in_row(g, r, c);
        let n = choose|n: int| sole_missing_in_row(g, r, n);
        assert(sole_empty_in_row(g, r, c) && sole_missing_in_row(g, r, n));
    } else if let Some(c) = first_sole_empty_col(g) {
        let r = choose|r: int| sole_empty_in_col(g, c, r);
        let n = choose|n: int| sole_missing_in_col(g, c, n);
        assert(sole_empty_in_col(g, c, r) && sole_missing_in_col(g, c, n));
    } else if let Some(b) = first_last_digit_box(g) {
        assert(box_last_digit(g, b));
        lemma_first_from(|k: int| g[box_cell_row(b, k)][box_cell_col(b, k)] == EMPTY, 0, 9);
        let k = first_empty_in_box(g, b)->0;
        let n = choose|n: int| sole_missing_in_box(g, b, n);
        assert(sole_missing_in_box(g, b, n));
        lemma_box_cell(b, k);
    }
}

} // verus!
