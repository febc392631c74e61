//! Pointing pairs and claiming pairs: a digit whose two places in one house lie in a
//! second house as well, so that the rest of the second house loses the digit.

use vstd::prelude::*;

use crate::board::Sudoku;
use crate::collect::{region_has, region_hits, Region};
use crate::search::{first_from, ints, lemma_first_end, lemma_first_from, lemma_first_hit, lemma_first_skip, lemma_ints_push, lemma_select, select};
use crate::singles::{unit_cell_col, unit_cell_row};
use crate::{empty_view, Candidate, RemovalResult, RemovalView, Strategy, StrategyResult, Unit};

verus! {

/// The positions `i` in house `h` of kind `u` whose cell has the candidate `num`.
pub open spec fn house_cand(s: Sudoku, u: Unit, h: int, num: int) -> spec_fn(int) -> bool {
    |i: int| s.cand(unit_cell_row(u, 9 * h + i), unit_cell_col(u, 9 * h + i), num)
}

/// The positions in `lo..hi` of house `h` of kind `u` whose cell has the candidate `num`.
pub open spec fn cells_with_num(s: Sudoku, u: Unit, h: int, num: int, lo: int, hi: int) -> Seq<int> {
    select(house_cand(s, u, h, num), lo, hi)
}

/// A result that removes `removed`, justified by `affected` in house `index` of kind `u`.
pub open spec fn pair_view(removed: Set<Candidate>, affected: Seq<Candidate>, u: Unit, index: int) -> RemovalView {
    RemovalView {
        candidates_affected: affected,
        removed,
        unit: Some(u),
        unit_index: Some(seq![index as usize]),
        ..empty_view()
    }
}

pub open spec fn cand_at(r: int, c: int, num: int) -> Candidate {
    Candidate { row: r as usize, col: c as usize, num: num as u8 }
}

// ---- pointing pairs in rows: digit `t / 27 + 1`, row `(t / 3) % 9`, box columns from `3 * (t % 3)` ----

/// Start of the band of `i`.
pub open spec fn band(i: int) -> int {
    3 * (i / 3)
}

/// In row `row`, the digit has exactly two places among the columns `b..b + 3`, the rest
/// of that box lacks it, and the rest of the row has it.
pub open spec fn pointing_row_found(s: Sudoku, num: int, row: int, b: int) -> bool {
    &&& cells_with_num(s, Unit::Row, row, num, b, b + 3).len() == 2
    &&& !region_has(s, Region::BoxOutsideRow { br: band(row) as usize, bc: b as usize, row: row as usize }, num as u8)
    &&& region_has(s, Region::RowOutside { row: row as usize, lo: b as usize }, num as u8)
}

pub open spec fn pointing_row_view(s: Sudoku, num: int, row: int, b: int) -> RemovalView {
    let cells = cells_with_num(s, Unit::Row, row, num, b, b + 3);
    pair_view(
        region_hits(s, Region::RowOutside { row: row as usize, lo: b as usize }, num as u8),
        seq![cand_at(row, cells[0], num), cand_at(row, cells[1], num)],
        Unit::Row,
        row,
    )
}

pub open spec fn first_pointing_row(s: Sudoku) -> Option<int> {
    first_from(|t: int| pointing_row_found(s, t / 27 + 1, (t / 3) % 9, 3 * (t % 3)), 0, 243)
}

/// For each digit, each row, each box the row crosses: the digit's places in the row
/// within the box. Two of them, none elsewhere in that box, and the digit goes from the
/// rest of the row.
pub open spec fn pointing_rows_view(s: Sudoku) -> RemovalView {
    match first_pointing_row(s) {
        None => empty_view(),
        Some(t) => pointing_row_view(s, t / 27 + 1, (t / 3) % 9, 3 * (t % 3)),
    }
}

// ---- pointing pairs in columns: digit `t / 27 + 1`, column `(t / 3) % 9`, box rows from `3 * (t % 3)` ----

/// In column `col`, only the box whose rows start at the column's own band `b` is looked
/// at: the digit has exactly two places in the column among the rows `b..b + 3`, the rest
/// of that box lacks it, and the rest of the column has it.
pub open spec fn pointing_col_found(s: Sudoku, num: int, col: int, b: int) -> bool {
    &&& b == band(col)
    &&& cells_with_num(s, Unit::Column, col, num, b, b + 3).len() == 2
    &&& !region_has(s, Region::BoxOutsideCol { br: b as usize, bc: band(col) as usize, col: col as usize }, num as u8)
    &&& region_has(s, Region::ColOutside { col: col as usize, lo: b as usize }, num as u8)
}

pub open spec fn pointing_col_view(s: Sudoku, num: int, col: int, b: int) -> RemovalView {
    let cells = cells_with_num(s, Unit::Column, col, num, b, b + 3);
    pair_view(
        region_hits(s, Region::ColOutside { col: col as usize, lo: b as usize }, num as u8),
        seq![cand_at(cells[0], col, num), cand_at(cells[1], col, num)],
        Unit::Column,
        col,
    )
}

pub open spec fn first_pointing_col(s: Sudoku) -> Option<int> {
    first_from(|t: int| pointing_col_found(s, t / 27 + 1, (t / 3) % 9, 3 * (t % 3)), 0, 243)
}

/// For each digit, each column: the digit's places in the column within the box on the
/// diagonal of the column's band (rows and columns of the same band). Two of them, none
/// elsewhere in that box, and the digit goes from the rest of the column.
pub open spec fn pointing_cols_view(s: Sudoku) -> RemovalView {
    match first_pointing_col(s) {
        None => empty_view(),
        Some(t) => pointing_col_view(s, t / 27 + 1, (t / 3) % 9, 3 * (t % 3)),
    }
}

// ---- pointing pairs in boxes: box `t / 9`, digit `t % 9 + 1` ----

pub open spec fn box_cells(s: Sudoku, b: int, num: int) -> Seq<int> {
    cells_with_num(s, Unit::Box, b, num, 0, 9)
}

/// The two places of the digit in the box share a row, and the rest of the row has it.
pub open spec fn pointing_box_row_found(s: Sudoku, b: int, num: int) -> bool {
    let cells = box_cells(s, b, num);
    &&& cells.len() == 2
    &&& cells[0] / 3 == cells[1] / 3
    &&& region_has(s, Region::RowOutside { row: (band(b) + cells[0] / 3) as usize, lo: (3 * (b % 3)) as usize }, num as u8)
}

/// The digit's two places in the box, which share a row, point along that row: the rest
/// of the row loses the digit. Places that share only a column are not looked at.
pub open spec fn pointing_box_view(s: Sudoku, b: int, num: int) -> RemovalView {
    let cells = box_cells(s, b, num);
    let br = band(b);
    let bc = 3 * (b % 3);
    let row = br + cells[0] / 3;
    pair_view(
        region_hits(s, Region::RowOutside { row: row as usize, lo: bc as usize }, num as u8),
        seq![cand_at(row, bc + cells[0] % 3, num), cand_at(row, bc + cells[1] % 3, num)],
        Unit::Box,
        b,
    )
}

pub open spec fn first_pointing_box(s: Sudoku) -> Option<int> {
    first_from(|t: int| pointing_box_row_found(s, t / 9, t % 9 + 1), 0, 81)
}

pub open spec fn pointing_boxes_view(s: Sudoku) -> RemovalView {
    match first_pointing_box(s) {
        None => empty_view(),
        Some(t) => pointing_box_view(s, t / 9, t % 9 + 1),
    }
}

/// Rows first, then columns, then boxes.
pub open spec fn pointing_pair_view(s: Sudoku) -> RemovalView {
    if first_pointing_row(s) is Some {
        pointing_rows_view(s)
    } else if first_pointing_col(s) is Some {
        pointing_cols_view(s)
    } else {
        pointing_boxes_view(s)
    }
}

// ---- claiming pairs: row (or column) `t / 9`, digit `t % 9 + 1` ----

pub open spec fn claiming_row_found(s: Sudoku, row: int, num: int) -> bool {
    let cells = cells_with_num(s, Unit::Row, row, num, 0, 9);
    &&& cells.len() == 2
    &&& cells[0] / 3 == cells[1] / 3
    &&& region_has(s, Region::BoxOutsideRow { br: band(row) as usize, bc: band(cells[0]) as usize, row: row as usize }, num as u8)
}

pub open spec fn claiming_row_view(s: Sudoku, row: int, num: int) -> RemovalView {
    let cells = cells_with_num(s, Unit::Row, row, num, 0, 9);
    pair_view(
        region_hits(s, Region::BoxOutsideRow { br: band(row) as usize, bc: band(cells[0]) as usize, row: row as usize }, num as u8),
        seq![cand_at(row, cells[0], num), cand_at(row, cells[1], num)],
        Unit::Row,
        row,
    )
}

pub open spec fn first_claiming_row(s: Sudoku) -> Option<int> {
    first_from(|t: int| claiming_row_found(s, t / 9, t % 9 + 1), 0, 81)
}

/// For each row, each digit: the digit has exactly two places in the row, both in one
/// box; the rest of that box loses it.
pub open spec fn claiming_rows_view(s: Sudoku) -> RemovalView {
    match first_claiming_row(s) {
        None => empty_view(),
        Some(t) => claiming_row_view(s, t / 9, t % 9 + 1),
    }
}

pub open spec fn claiming_col_found(s: Sudoku, col: int, num: int) -> bool {
    let cells = cells_with_num(s, Unit::Column, col, num, 0, 9);
    &&& cells.len() == 2
    &&& cells[0] / 3 == cells[1] / 3
    &&& region_has(s, Region::BoxOutsideCol { br: band(cells[0]) as usize, bc: band(col) as usize, col: col as usize }, num as u8)
}

pub open spec fn claiming_col_view(s: Sudoku, col: int, num: int) -> RemovalView {
    let cells = cells_with_num(s, Unit::Column, col, num, 0, 9);
    pair_view(
        region_hits(s, Region::BoxOutsideCol { br: band(cells[0]) as usize, bc: band(col) as usize, col: col as usize }, num as u8),
        seq![cand_at(cells[0], col, num), cand_at(cells[1], col, num)],
        Unit::Column,
        col,
    )
}

pub open spec fn first_claiming_col(s: Sudoku) -> Option<int> {
    first_from(|t: int| claiming_col_found(s, t / 9, t % 9 + 1), 0, 81)
}

pub open spec fn claiming_cols_view(s: Sudoku) -> RemovalView {
    match first_claiming_col(s) {
        None => empty_view(),
        Some(t) => claiming_col_view(s, t / 9, t % 9 + 1),
    }
}

/// Rows first, then columns.
pub open spec fn claiming_pair_view(s: Sudoku) -> RemovalView {
    if first_claiming_row(s) is Some {
        claiming_rows_view(s)
    } else {
        claiming_cols_view(s)
    }
}

/// A region that holds the digit gives a non-empty set of candidates.
pub proof fn lemma_region_nonempty(s: Sudoku)
    ensures
        forall|g: Region, num: u8| #[trigger] region_has(s, g, num) ==> region_hits(s, g, num) != Set::<Candidate>::empty(),
{
    assert forall|g: Region, num: u8| #[trigger] region_has(s, g, num) implies region_hits(s, g, num) != Set::<Candidate>::empty() by {
        let (r, c) = choose|r: int, c: int| crate::board::in_grid(r, c) && crate::collect::in_region(g, r, c) && #[trigger] s.cand(r, c, num as int);
        assert(region_hits(s, g, num).contains(Candidate { row: r as usize, col: c as usize, num }));
    }
}

impl Sudoku {
    /// The positions in `lo..hi` of house `h` of kind `u` whose cell has the candidate `num`.
    pub fn cells_with(&self, u: Unit, h: usize, num: u8, lo: usize, hi: usize) -> (v: Vec<usize>)
        requires
            h < 9,
            lo <= hi <= 9,
        ensures
            ints(v@) == cells_with_num(*self, u, h as int, num as int, lo as int, hi as int),
            forall|j: int| 0 <= j < v@.len() ==> lo <= #[trigger] v@[j] < hi,
    {
        let ghost p = house_cand(*self, u, h as int, num as int);
        let mut v: Vec<usize> = Vec::new();
        let mut i: usize = lo;
        while i < hi
            invariant
                h < 9,
                lo <= i <= hi <= 9,
                p == house_cand(*self, u, h as int, num as int),
                ints(v@) == select(p, lo as int, i as int),
                forall|j: int| 0 <= j < v@.len() ==> lo <= #[trigger] v@[j] < i,
            decreases hi - i,
        {
            let (r, c) = Self::unit_cell(u, 9 * h + i);
            if crate::digits::mask_has(self.candidates[r][c], num) {
                proof {
                    lemma_ints_push(v@, i);
                }
                v.push(i);
            }
            i = i + 1;
        }
        v
    }

    /// Pointing pairs in rows; see `pointing_rows_view`.
    pub fn find_pointing_pair_in_rows(&self) -> (res: RemovalResult)
        ensures
            res.wf(),
            res@ == pointing_rows_view(*self),
    {
        let ghost p = |t: int| pointing_row_found(*self, t / 27 + 1, (t / 3) % 9, 3 * (t % 3));
        let mut t: usize = 0;
        while t < 243
            invariant
                t <= 243,
                p == (|t: int| pointing_row_found(*self, t / 27 + 1, (t / 3) % 9, 3 * (t % 3))),
                first_pointing_row(*self) == first_from(p, t as int, 243),
            decreases 243 - t,
        {
            let num: u8 = (t / 27 + 1) as u8;
            let row: usize = (t / 3) % 9;
            let b: usize = 3 * (t % 3);
            let cells = self.cells_with(Unit::Row, row, num, b, b + 3);
            if cells.len() == 2 {
                let others = self.collect_region(Region::BoxOutsideRow { br: 3 * (row / 3), bc: b, row }, num);
                if others.len() == 0 {
                    let removed = self.collect_region(Region::RowOutside { row, lo: b }, num);
                    if removed.len() > 0 {
                        proof {
                            assert(p(t as int));
                            lemma_first_hit(p, t as int, 243);
                        }
                        let result = RemovalResult {
                            sets_cell: None,
                            cells_affected: Vec::new(),
                            candidates_affected: vec![
                                Candidate { row, col: cells[0], num },
                                Candidate { row, col: cells[1], num },
                            ],
                            candidates_about_to_be_removed: removed,
                            unit: Some(Unit::Row),
                            unit_index: Some(vec![row]),
                        };
                        proof {
                            assert(result@.unit_index == Some(seq![row]));
                            assert(result@ =~= pointing_rows_view(*self));
                        }
                        return result;
                    }
                }
            }
            proof {
                assert(!p(t as int));
                lemma_first_skip(p, t as int, 243);
            }
            t = t + 1;
        }
        proof {
            lemma_first_end(p, 243);
        }
        RemovalResult::empty()
    }

    /// Pointing pairs in columns; see `pointing_cols_view`.
    pub fn find_pointing_pair_in_cols(&self) -> (res: RemovalResult)
        ensures
            res.wf(),
            res@ == pointing_cols_view(*self),
    {
        let ghost p = |t: int| pointing_col_found(*self, t / 27 + 1, (t / 3) % 9, 3 * (t % 3));
        let mut t: usize = 0;
        while t < 243
            invariant
                t <= 243,
                p == (|t: int| pointing_col_found(*self, t / 27 + 1, (t / 3) % 9, 3 * (t % 3))),
                first_pointing_col(*self) == first_from(p, t as int, 243),
            decreases 243 - t,
        {
            let num: u8 = (t / 27 + 1) as u8;
            let col: usize = (t / 3) % 9;
            let b: usize = 3 * (t % 3);
            let cells = self.cells_with(Unit::Column, col, num, b, b + 3);
            if b == 3 * (col / 3) && cells.len() == 2 {
                let others = self.collect_region(Region::BoxOutsideCol { br: b, bc: 3 * (col / 3), col }, num);
                if others.len() == 0 {
                    let removed = self.collect_region(Region::ColOutside { col, lo: b }, num);
                    if removed.len() > 0 {
                        proof {
                            assert(p(t as int));
                            lemma_first_hit(p, t as int, 243);
                        }
                        let result = RemovalResult {
                            sets_cell: None,
                            cells_affected: Vec::new(),
                            candidates_affected: vec![
                                Candidate { row: cells[0], col, num },
                                Candidate { row: cells[1], col, num },
                            ],
                            candidates_about_to_be_removed: removed,
                            unit: Some(Unit::Column),
                            unit_index: Some(vec![col]),
                        };
                        proof {
                            assert(result@.unit_index == Some(seq![col]));
                            assert(result@ =~= pointing_cols_view(*self));
                        }
                        return result;
                    }
                }
            }
            proof {
                assert(!p(t as int));
                lemma_first_skip(p, t as int, 243);
            }
            t = t + 1;
        }
        proof {
            lemma_first_end(p, 243);
        }
        RemovalResult::empty()
    }

    /// Pointing pairs in boxes; see `pointing_boxes_view`.
    pub fn find_pointing_pair_in_boxes(&self) -> (res: RemovalResult)
        ensures
            res.wf(),
            res@ == pointing_boxes_view(*self),
    {
        let ghost p = |t: int| pointing_box_row_found(*self, t / 9, t % 9 + 1);
        let mut t: usize = 0;
        while t < 81
            invariant
                t <= 81,
                p == (|t: int| pointing_box_row_found(*self, t / 9, t % 9 + 1)),
                first_pointing_box(*self) == first_from(p, t as int, 81),
            decreases 81 - t,
        {
            let b: usize = t / 9;
            let num: u8 = (t % 9 + 1) as u8;
            let br: usize = 3 * (b / 3);
            let bc: usize = 3 * (b % 3);
            let cells = self.cells_with(Unit::Box, b, num, 0, 9);
            if cells.len() == 2 {
                let k0 = cells[0];
                let k1 = cells[1];
                if k0 / 3 == k1 / 3 {
                    let row = br + k0 / 3;
                    let removed = self.collect_region(Region::RowOutside { row, lo: bc }, num);
                    if removed.len() > 0 {
                        proof {
                            assert(pointing_box_row_found(*self, b as int, num as int));
                            assert(p(t as int));
                            lemma_first_hit(p, t as int, 81);
                        }
                        let result = RemovalResult {
                            sets_cell: None,
                            cells_affected: Vec::new(),
                            candidates_affected: vec![
                                Candidate { row, col: bc + k0 % 3, num },
                                Candidate { row, col: bc + k1 % 3, num },
                            ],
                            candidates_about_to_be_removed: removed,
                            unit: Some(Unit::Box),
                            unit_index: Some(vec![b]),
                        };
                        proof {
                            assert(result@.unit_index == Some(seq![b]));
                            assert(result@ =~= pointing_boxes_view(*self));
                        }
                        return result;
                    }
                }
            }
            proof {
                assert(!p(t as int));
                lemma_first_skip(p, t as int, 81);
            }
            t = t + 1;
        }
        proof {
            lemma_first_end(p, 81);
        }
        RemovalResult::empty()
    }

    /// Pointing pairs: rows first, then columns, then boxes.
    pub fn find_pointing_pair(&self) -> (res: StrategyResult)
        ensures
            res.strategy == Strategy::PointingPair,
            res.removals.wf(),
            res.removals@ == pointing_pair_view(*self),
    {
        let result = self.find_pointing_pair_in_rows();
        proof {
            lemma_region_nonempty(*self);
            lemma_first_from(|t: int| pointing_row_found(*self, t / 27 + 1, (t / 3) % 9, 3 * (t % 3)), 0, 243);
            lemma_first_from(|t: int| pointing_col_found(*self, t / 27 + 1, (t / 3) % 9, 3 * (t % 3)), 0, 243);
        }
        if result.will_remove_candidates() {
            return StrategyResult { strategy: Strategy::PointingPair, removals: result };
        }
        let result = self.find_pointing_pair_in_cols();
        if result.will_remove_candidates() {
            return StrategyResult { strategy: Strategy::PointingPair, removals: result };
        }
        let result = self.find_pointing_pair_in_boxes();
        StrategyResult { strategy: Strategy::PointingPair, removals: result }
    }

    /// Claiming pairs in rows; see `claiming_rows_view`.
    pub fn find_claiming_pair_in_rows(&self) -> (res: RemovalResult)
        ensures
            res.wf(),
            res@ == claiming_rows_view(*self),
    {
        let ghost p = |t: int| claiming_row_found(*self, t / 9, t % 9 + 1);
        let mut t: usize = 0;
        while t < 81
            invariant
                t <= 81,
                p == (|t: int| claiming_row_found(*self, t / 9, t % 9 + 1)),
                first_claiming_row(*self) == first_from(p, t as int, 81),
            decreases 81 - t,
        {
            let row: usize = t / 9;
            let num: u8 = (t % 9 + 1) as u8;
            let cells = self.cells_with(Unit::Row, row, num, 0, 9);
            if cells.len() == 2 && cells[0] / 3 == cells[1] / 3 {
                let region = Region::BoxOutsideRow { br: 3 * (row / 3), bc: 3 * (cells[0] / 3), row };
                let removed = self.collect_region(region, num);
                if removed.len() > 0 {
                    proof {
                        assert(p(t as int));
                        lemma_first_hit(p, t as int, 81);
                    }
                    let result = RemovalResult {
                        sets_cell: None,
                        cells_affected: Vec::new(),
                        candidates_affected: vec![
                            Candidate { row, col: cells[0], num },
                            Candidate { row, col: cells[1], num },
                        ],
                        candidates_about_to_be_removed: removed,
                        unit: Some(Unit::Row),
                        unit_index: Some(vec![row]),
                    };
                    proof {
                        assert(result@.unit_index == Some(seq![row]));
                        assert(result@ =~= claiming_rows_view(*self));
                    }
                    return result;
                }
            }
            proof {
                assert(!p(t as int));
                lemma_first_skip(p, t as int, 81);
            }
            t = t + 1;
        }
        proof {
            lemma_first_end(p, 81);
        }
        RemovalResult::empty()
    }

    /// Claiming pairs in columns; see `claiming_cols_view`.
    pub fn find_claiming_pair_in_cols(&self) -> (res: RemovalResult)
        ensures
            res.wf(),
            res@ == claiming_cols_view(*self),
    {
        let ghost p = |t: int| claiming_col_found(*self, t / 9, t % 9 + 1);
        let mut t: usize = 0;
        while t < 81
            invariant
                t <= 81,
                p == (|t: int| claiming_col_found(*self, t / 9, t % 9 + 1)),
                first_claiming_col(*self) == first_from(p, t as int, 81),
            decreases 81 - t,
        {
            let col: usize = t / 9;
            let num: u8 = (t % 9 + 1) as u8;
            let cells = self.cells_with(Unit::Column, col, num, 0, 9);
            if cells.len() == 2 && cells[0] / 3 == cells[1] / 3 {
                let region = Region::BoxOutsideCol { br: 3 * (cells[0] / 3), bc: 3 * (col / 3), col };
                let removed = self.collect_region(region, num);
                if removed.len() > 0 {
                    proof {
                        assert(p(t as int));
                        lemma_first_hit(p, t as int, 81);
                    }
                    let result = RemovalResult {
                        sets_cell: None,
                        cells_affected: Vec::new(),
                        candidates_affected: vec![
                            Candidate { row: cells[0], col, num },
                            Candidate { row: cells[1], col, num },
                        ],
                        candidates_about_to_be_removed: removed,
                        unit: Some(Unit::Column),
                        unit_index: Some(vec![col]),
                    };
                    proof {
                        assert(result@.unit_index == Some(seq![col]));
                        assert(result@ =~= claiming_cols_view(*self));
                    }
                    return result;
                }
            }
            proof {
                assert(!p(t as int));
                lemma_first_skip(p, t as int, 81);
            }
            t = t + 1;
        }
        proof {
            lemma_first_end(p, 81);
        }
        RemovalResult::empty()
    }

    /// Claiming pairs: rows first, then columns.
    pub fn find_claiming_pair(&self) -> (res: StrategyResult)
        ensures
            res.strategy == Strategy::ClaimingPair,
            res.removals.wf(),
            res.removals@ == claiming_pair_view(*self),
    {
        let result = self.find_claiming_pair_in_rows();
        proof {
            lemma_region_nonempty(*self);
            lemma_first_from(|t: int| claiming_row_found(*self, t / 9, t % 9 + 1), 0, 81);
        }
        if result.will_remove_candidates() {
            return StrategyResult { strategy: Strategy::ClaimingPair, removals: result };
        }
        let result = self.find_claiming_pair_in_cols();
        StrategyResult { strategy: Strategy::ClaimingPair, removals: result }
    }
}


/// The Pointing Pair step agrees with the three searches: the rows' pointing pair when
/// that removes something, else the columns', else exactly what the boxes' search gives.
pub proof fn lemma_pointing_pair_step(s: Sudoku)
    ensures
        pointing_rows_view(s).removed != Set::<Candidate>::empty() ==> pointing_pair_view(s) == pointing_rows_view(s),
        pointing_rows_view(s).removed == Set::<Candidate>::empty() && pointing_cols_view(s).removed != Set::<Candidate>::empty() ==> pointing_pair_view(s)
            == pointing_cols_view(s),
        pointing_rows_view(s).removed == Set::<Candidate>::empty() && pointing_cols_view(s).removed == Set::<Candidate>::empty() ==> pointing_pair_view(s)
            == pointing_boxes_view(s),
{
    lemma_region_nonempty(s);
    lemma_first_from(|t: int| pointing_row_found(s, t / 27 + 1, (t / 3) % 9, 3 * (t % 3)), 0, 243);
    lemma_first_from(|t: int| pointing_col_found(s, t / 27 + 1, (t / 3) % 9, 3 * (t % 3)), 0, 243);
}

/// The Claiming Pair step agrees with the two searches: the rows' claiming pair when that
/// removes something, else exactly what the columns' search gives.
pub proof fn lemma_claiming_pair_step(s: Sudoku)
    ensures
        claiming_rows_view(s).removed != Set::<Candidate>::empty() ==> claiming_pair_view(s) == claiming_rows_view(s),
        claiming_rows_view(s).removed == Set::<Candidate>::empty() ==> claiming_pair_view(s) == claiming_cols_view(s),
{
    lemma_region_nonempty(s);
    lemma_first_from(|t: int| claiming_row_found(s, t / 9, t % 9 + 1), 0, 81);
}


proof fn lemma_pointing_index(num: int, line: int, k: int)
    requires
        1 <= num <= 9,
        0 <= line < 9,
        0 <= k < 3,
    ensures
        (27 * (num - 1) + 3 * line + k) / 27 + 1 == num,
        ((27 * (num - 1) + 3 * line + k) / 3) % 9 == line,
        (27 * (num - 1) + 3 * line + k) % 3 == k,
        0 <= 27 * (num - 1) + 3 * line + k < 243,
{
    assert((27 * (num - 1) + 3 * line + k) / 3 == 9 * (num - 1) + line);
}

/// No pointing pair is missed: when a digit has exactly two places in a row (or a column)
/// within one box, the box has it nowhere else, and the rest of the line has it, the
/// Pointing Pair step removes something. Rows look in every box they cross; columns look
/// in the box of their own band.
pub proof fn lemma_pointing_pair_seen(s: Sudoku, u: Unit, num: int, line: int, b: int)
    requires
        u != Unit::Box,
        1 <= num <= 9,
        0 <= line < 9,
        b == 0 || b == 3 || b == 6,
        u == Unit::Row ==> pointing_row_found(s, num, line, b),
        u == Unit::Column ==> pointing_col_found(s, num, line, b),
    ensures
        pointing_pair_view(s).removed != Set::<Candidate>::empty(),
{
    let t = 27 * (num - 1) + 3 * line + b / 3;
    lemma_pointing_index(num, line, b / 3);
    lemma_region_nonempty(s);
    let pr = |t: int| pointing_row_found(s, t / 27 + 1, (t / 3) % 9, 3 * (t % 3));
    let pc = |t: int| pointing_col_found(s, t / 27 + 1, (t / 3) % 9, 3 * (t % 3));
    lemma_first_from(pr, 0, 243);
    lemma_first_from(pc, 0, 243);
    lemma_first_from(|t: int| pointing_box_row_found(s, t / 9, t % 9 + 1), 0, 81);
    if u == Unit::Row {
        assert(pr(t));
    } else {
        assert(pc(t));
    }
}

/// No claiming pair is missed: when a digit has exactly two places in a row (or a
/// column), both in one box, and the rest of that box has it, the Claiming Pair step
/// removes something.
pub proof fn lemma_claiming_pair_seen(s: Sudoku, u: Unit, line: int, num: int)
    requires
        u != Unit::Box,
        1 <= num <= 9,
        0 <= line < 9,
        u == Unit::Row ==> claiming_row_found(s, line, num),
        u == Unit::Column ==> claiming_col_found(s, line, num),
    ensures
        claiming_pair_view(s).removed != Set::<Candidate>::empty(),
{
    let t = 9 * line + num - 1;
    assert(t / 9 == line && t % 9 + 1 == num && 0 <= t < 81);
    lemma_region_nonempty(s);
    let pr = |t: int| claiming_row_found(s, t / 9, t % 9 + 1);
    let pc = |t: int| claiming_col_found(s, t / 9, t % 9 + 1);
    lemma_first_from(pr, 0, 81);
    lemma_first_from(pc, 0, 81);
    if u == Unit::Row {
        assert(pr(t));
    } else {
        assert(pc(t));
    }
}

} // verus!
