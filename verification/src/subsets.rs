//! Obvious pairs and locked pairs: two cells of a house that hold the same two
//! candidates and nothing else take those digits from the rest of the house.

use vstd::prelude::*;

use crate::board::{box_of, Sudoku};
use crate::collect::{house_has, house_hits};
use crate::digits::{lemma_empty_mask, lemma_two_bits, mask_digit_list, mask_digits, two_bits};
use crate::pairs::{cand_at, pair_view};
use crate::search::{first_from, lemma_first_end, lemma_first_from, lemma_first_hit, lemma_first_skip};
use crate::singles::{unit_cell_col, unit_cell_row};
use crate::{empty_view, extend_candidates, Candidate, RemovalResult, RemovalView, Strategy, StrategyResult, Unit};

verus! {

/// The candidates of the cell at position `i` of house `h` of kind `u`.
pub open spec fn house_mask(s: Sudoku, u: Unit, h: int, i: int) -> u16 {
    s.candidates[unit_cell_row(u, 9 * h + i)][unit_cell_col(u, 9 * h + i)]
}

/// Positions `i < j` of house `h` hold the same two candidates and nothing else, and
/// another cell of the house has one of them.
pub open spec fn obvious_pair_found(s: Sudoku, u: Unit, h: int, i: int, j: int) -> bool {
    &&& i < j
    &&& mask_digits(house_mask(s, u, h, i)).len() == 2
    &&& house_mask(s, u, h, j) == house_mask(s, u, h, i)
    &&& house_has(s, u, h, two_bits(i as u16, j as u16), house_mask(s, u, h, i))
}

/// The pair's digits go from the other cells of the house.
pub open spec fn obvious_pair_at(s: Sudoku, u: Unit, h: int, i: int, j: int) -> RemovalView {
    let m = house_mask(s, u, h, i);
    let d = mask_digits(m);
    let ri = unit_cell_row(u, 9 * h + i);
    let ci = unit_cell_col(u, 9 * h + i);
    let rj = unit_cell_row(u, 9 * h + j);
    let cj = unit_cell_col(u, 9 * h + j);
    pair_view(
        house_hits(s, u, h, two_bits(i as u16, j as u16), m),
        seq![cand_at(ri, ci, d[0]), cand_at(ri, ci, d[1]), cand_at(rj, cj, d[0]), cand_at(rj, cj, d[1])],
        u,
        h,
    )
}

/// The first obvious pair: houses in order, then the first cell, then the second.
pub open spec fn first_obvious_pair(s: Sudoku, u: Unit) -> Option<int> {
    first_from(|t: int| obvious_pair_found(s, u, t / 81, (t / 9) % 9, t % 9), 0, 729)
}

pub open spec fn obvious_pair_view(s: Sudoku, u: Unit) -> RemovalView {
    match first_obvious_pair(s, u) {
        None => empty_view(),
        Some(t) => obvious_pair_at(s, u, t / 81, (t / 9) % 9, t % 9),
    }
}

/// Rows first, then columns, then boxes.
pub open spec fn obvious_pair_strategy_view(s: Sudoku) -> RemovalView {
    if first_obvious_pair(s, Unit::Row) is Some {
        obvious_pair_view(s, Unit::Row)
    } else if first_obvious_pair(s, Unit::Column) is Some {
        obvious_pair_view(s, Unit::Column)
    } else {
        obvious_pair_view(s, Unit::Box)
    }
}

/// The first obvious pair of the houses of kind `u` lies in one box.
pub open spec fn locked_found(s: Sudoku, u: Unit) -> bool {
    first_obvious_pair(s, u) matches Some(t) && {
        let h = t / 81;
        box_of(unit_cell_row(u, 9 * h + (t / 9) % 9), unit_cell_col(u, 9 * h + (t / 9) % 9)) == box_of(
            unit_cell_row(u, 9 * h + t % 9),
            unit_cell_col(u, 9 * h + t % 9),
        )
    }
}

/// The first obvious pair of the houses of kind `u`, when it lies in one box, also takes
/// its digits from every cell of that box, its own two cells included.
pub open spec fn locked_pair_view(s: Sudoku, u: Unit) -> RemovalView {
    if locked_found(s, u) {
        let t = first_obvious_pair(s, u)->0;
        let h = t / 81;
        let i = (t / 9) % 9;
        let op = obvious_pair_at(s, u, h, i, t % 9);
        let m = house_mask(s, u, h, i);
        let b = box_of(unit_cell_row(u, 9 * h + i), unit_cell_col(u, 9 * h + i));
        RemovalView { removed: op.removed.union(house_hits(s, Unit::Box, b, 0u16, m)), ..op }
    } else {
        empty_view()
    }
}

/// The search for a locked pair needs an obvious pair in the houses it looks at.
pub open spec fn locked_pair_defined(s: Sudoku) -> bool {
    &&& first_obvious_pair(s, Unit::Row) is Some
    &&& !locked_found(s, Unit::Row) ==> first_obvious_pair(s, Unit::Column) is Some
}

/// Rows first, then columns.
pub open spec fn locked_pair_strategy_view(s: Sudoku) -> RemovalView {
    if locked_found(s, Unit::Row) {
        locked_pair_view(s, Unit::Row)
    } else {
        locked_pair_view(s, Unit::Column)
    }
}

impl Sudoku {
    /// Obvious pairs in the houses of kind `u`; see `obvious_pair_view`.
    pub(crate) fn find_obvious_pair_in(&self, u: Unit) -> (res: RemovalResult)
        ensures
            res.wf(),
            res@ == obvious_pair_view(*self, u),
    {
        let ghost p = |t: int| obvious_pair_found(*self, u, t / 81, (t / 9) % 9, t % 9);
        let mut t: usize = 0;
        while t < 729
            invariant
                t <= 729,
                p == (|t: int| obvious_pair_found(*self, u, t / 81, (t / 9) % 9, t % 9)),
                first_obvious_pair(*self, u) == first_from(p, t as int, 729),
            decreases 729 - t,
        {
            let h = t / 81;
            let i = (t / 9) % 9;
            let j = t % 9;
            if i < j {
                let (ri, ci) = Self::unit_cell(u, 9 * h + i);
                let (rj, cj) = Self::unit_cell(u, 9 * h + j);
                let m = self.candidates[ri][ci];
                if self.candidates[rj][cj] == m {
                    let digits = mask_digit_list(m);
                    if digits.len() == 2 {
                        let skip: u16 = (1u16 << (i as u16)) | (1u16 << (j as u16));
                        let removed = self.collect_house(u, h, skip, m);
                        if removed.len() > 0 {
                            proof {
                                assert(p(t as int));
                                lemma_first_hit(p, t as int, 729);
                            }
                            let a = digits[0];
                            let b = digits[1];
                            let result = RemovalResult {
                                sets_cell: None,
                                cells_affected: Vec::new(),
                                candidates_affected: vec![
                                    Candidate { row: ri, col: ci, num: a },
                                    Candidate { row: ri, col: ci, num: b },
                                    Candidate { row: rj, col: cj, num: a },
                                    Candidate { row: rj, col: cj, num: b },
                                ],
                                candidates_about_to_be_removed: removed,
                                unit: Some(u),
                                unit_index: Some(vec![h]),
                            };
                            proof {
                                assert(result@.unit_index == Some(seq![h]));
                                assert(result@ =~= obvious_pair_view(*self, u));
                            }
                            return result;
                        }
                    }
                }
            }
            proof {
                assert(!p(t as int));
                lemma_first_skip(p, t as int, 729);
            }
            t = t + 1;
        }
        proof {
            lemma_first_end(p, 729);
        }
        RemovalResult::empty()
    }

    /// Obvious pairs in rows.
    pub fn find_obvious_pair_in_rows(&self) -> (res: RemovalResult)
        ensures
            res.wf(),
            res@ == obvious_pair_view(*self, Unit::Row),
    {
        self.find_obvious_pair_in(Unit::Row)
    }

    /// Obvious pairs in columns.
    pub fn find_obvious_pair_in_cols(&self) -> (res: RemovalResult)
        ensures
            res.wf(),
            res@ == obvious_pair_view(*self, Unit::Column),
    {
        self.find_obvious_pair_in(Unit::Column)
    }

    /// Obvious pairs in boxes.
    pub fn find_obvious_pair_in_boxes(&self) -> (res: RemovalResult)
        ensures
            res.wf(),
            res@ == obvious_pair_view(*self, Unit::Box),
    {
        self.find_obvious_pair_in(Unit::Box)
    }

    /// Obvious pairs: rows first, then columns, then boxes.
    pub fn find_obvious_pair(&self) -> (res: StrategyResult)
        ensures
            res.strategy == Strategy::ObviousPair,
            res.removals.wf(),
            res.removals@ == obvious_pair_strategy_view(*self),
    {
        proof {
            lemma_obvious_pair_nonempty(*self, Unit::Row);
            lemma_obvious_pair_nonempty(*self, Unit::Column);
        }
        let removal_result = self.find_obvious_pair_in_rows();
        if removal_result.will_remove_candidates() {
            return StrategyResult { strategy: Strategy::ObviousPair, removals: removal_result };
        }
        let removal_result = self.find_obvious_pair_in_cols();
        if removal_result.will_remove_candidates() {
            return StrategyResult { strategy: Strategy::ObviousPair, removals: removal_result };
        }
        let removal_result = self.find_obvious_pair_in_boxes();
        StrategyResult { strategy: Strategy::ObviousPair, removals: removal_result }
    }

    /// Locked pairs in the houses of kind `u`; see `locked_pair_view`.
    #[verifier::rlimit(30)]
    fn find_locked_pair_in(&self, u: Unit) -> (res: RemovalResult)
        requires
            first_obvious_pair(*self, u) is Some,
        ensures
            res.wf(),
            res@ == locked_pair_view(*self, u),
    {
        let mut result = self.find_obvious_pair_in(u);
        proof {
            lemma_first_from(|t: int| obvious_pair_found(*self, u, t / 81, (t / 9) % 9, t % 9), 0, 729);
        }
        let ghost t = first_obvious_pair(*self, u)->0;
        let ghost h = t / 81;
        let ghost i = (t / 9) % 9;
        let ghost j = t % 9;
        let ghost ri = unit_cell_row(u, 9 * h + i);
        let ghost ci = unit_cell_col(u, 9 * h + i);
        let ghost rj = unit_cell_row(u, 9 * h + j);
        let ghost cj = unit_cell_col(u, 9 * h + j);
        proof {
            assert(0 <= ri < 9 && 0 <= ci < 9 && 0 <= rj < 9 && 0 <= cj < 9);
            assert(result.candidates_affected@[0].row == ri && result.candidates_affected@[0].col == ci);
            assert(result.candidates_affected@[2].row == rj && result.candidates_affected@[2].col == cj);
        }
        let first = result.candidates_affected[0];
        let second = result.candidates_affected[2];
        let box0 = 3 * (first.row / 3) + first.col / 3;
        let box1 = 3 * (second.row / 3) + second.col / 3;
        if box0 == box1 {
            let m = self.candidates[first.row][first.col];
            let extra = self.collect_house(Unit::Box, box0, 0u16, m);
            let ghost before = result.candidates_about_to_be_removed@;
            extend_candidates(&mut result.candidates_about_to_be_removed, &extra);
            proof {
                assert(locked_found(*self, u));
                assert(result.candidates_about_to_be_removed@.to_set() =~= before.to_set().union(extra@.to_set()));
                assert(result@ =~= locked_pair_view(*self, u));
            }
            return result;
        }
        proof {
            assert(!locked_found(*self, u));
        }
        RemovalResult::empty()
    }

    /// Locked pairs in rows; needs an obvious pair in the rows.
    pub fn find_locked_pair_in_rows(&self) -> (res: RemovalResult)
        requires
            first_obvious_pair(*self, Unit::Row) is Some,
        ensures
            res.wf(),
            res@ == locked_pair_view(*self, Unit::Row),
    {
        self.find_locked_pair_in(Unit::Row)
    }

    /// Locked pairs in columns; needs an obvious pair in the columns.
    pub fn find_locked_pair_in_cols(&self) -> (res: RemovalResult)
        requires
            first_obvious_pair(*self, Unit::Column) is Some,
        ensures
            res.wf(),
            res@ == locked_pair_view(*self, Unit::Column),
    {
        self.find_locked_pair_in(Unit::Column)
    }

    /// Locked pairs: rows first, then columns.
    pub fn find_locked_pair(&self) -> (res: StrategyResult)
        requires
            locked_pair_defined(*self),
        ensures
            res.strategy == Strategy::LockedPair,
            res.removals.wf(),
            res.removals@ == locked_pair_strategy_view(*self),
    {
        proof {
            lemma_obvious_pair_nonempty(*self, Unit::Row);
        }
        let result = self.find_locked_pair_in_rows();
        if result.will_remove_candidates() {
            return StrategyResult { strategy: Strategy::LockedPair, removals: result };
        }
        let result = self.find_locked_pair_in_cols();
        StrategyResult { strategy: Strategy::LockedPair, removals: result }
    }

    /// Whether the search for a locked pair can look at the grid; see `locked_pair_defined`.
    pub fn locked_pair_ok(&self) -> (b: bool)
        ensures
            b == locked_pair_defined(*self),
    {
        proof {
            lemma_obvious_pair_nonempty(*self, Unit::Row);
            lemma_obvious_pair_nonempty(*self, Unit::Column);
        }
        let rows = self.find_obvious_pair_in_rows();
        if !rows.will_remove_candidates() {
            return false;
        }
        let locked = self.find_locked_pair_in_rows();
        if locked.will_remove_candidates() {
            return true;
        }
        let cols = self.find_obvious_pair_in_cols();
        cols.will_remove_candidates()
    }
}

/// An obvious pair, once found, removes something, and so does a locked pair.
pub proof fn lemma_obvious_pair_nonempty(s: Sudoku, u: Unit)
    ensures
        (obvious_pair_view(s, u).removed != Set::<Candidate>::empty()) == (first_obvious_pair(s, u) is Some),
        (locked_pair_view(s, u).removed != Set::<Candidate>::empty()) == locked_found(s, u),
{
    lemma_first_from(|t: int| obvious_pair_found(s, u, t / 81, (t / 9) % 9, t % 9), 0, 729);
    if first_obvious_pair(s, u) is Some {
        let t = first_obvious_pair(s, u)->0;
        let h = t / 81;
        let i = (t / 9) % 9;
        let x = choose|x: Candidate| #[trigger] house_hits(s, u, h, two_bits(i as u16, (t % 9) as u16), house_mask(s, u, h, i)).contains(x);
        assert(obvious_pair_view(s, u).removed.contains(x));
        if locked_found(s, u) {
            assert(locked_pair_view(s, u).removed.contains(x));
        }
    }
}


/// The Obvious Pair step agrees with the three searches: the rows' obvious pair when that
/// removes something, else the columns', else exactly what the boxes' search gives.
pub proof fn lemma_obvious_pair_step(s: Sudoku)
    ensures
        obvious_pair_view(s, Unit::Row).removed != Set::<Candidate>::empty() ==> obvious_pair_strategy_view(s) == obvious_pair_view(s, Unit::Row),
        obvious_pair_view(s, Unit::Row).removed == Set::<Candidate>::empty() && obvious_pair_view(s, Unit::Column).removed != Set::<Candidate>::empty()
            ==> obvious_pair_strategy_view(s) == obvious_pair_view(s, Unit::Column),
        obvious_pair_view(s, Unit::Row).removed == Set::<Candidate>::empty() && obvious_pair_view(s, Unit::Column).removed == Set::<Candidate>::empty()
            ==> obvious_pair_strategy_view(s) == obvious_pair_view(s, Unit::Box),
{
    lemma_obvious_pair_nonempty(s, Unit::Row);
    lemma_obvious_pair_nonempty(s, Unit::Column);
}

/// The Locked Pair step agrees with the two searches: the rows' locked pair when that
/// removes something, else exactly what the columns' search gives.
pub proof fn lemma_locked_pair_step(s: Sudoku)
    ensures
        locked_pair_view(s, Unit::Row).removed != Set::<Candidate>::empty() ==> locked_pair_strategy_view(s) == locked_pair_view(s, Unit::Row),
        locked_pair_view(s, Unit::Row).removed == Set::<Candidate>::empty() ==> locked_pair_strategy_view(s) == locked_pair_view(s, Unit::Column),
{
    lemma_obvious_pair_nonempty(s, Unit::Row);
}


/// An obvious pair makes the search of its kind of houses find one.
pub proof fn lemma_obvious_pair_search_finds(s: Sudoku, u: Unit, h: int, i: int, j: int)
    requires
        0 <= h < 9,
        0 <= i < 9,
        0 <= j < 9,
        obvious_pair_found(s, u, h, i, j),
    ensures
        first_obvious_pair(s, u) is Some,
{
    let t = 81 * h + 9 * i + j;
    crate::fish::lemma_index_parts(h, i, j);
    let p = |t: int| obvious_pair_found(s, u, t / 81, (t / 9) % 9, t % 9);
    assert(p(t));
    lemma_first_from(p, 0, 729);
}


/// No obvious pair is missed: two cells of a row, a column or a box with the same two
/// candidates, which some other cell of the house also holds, make the Obvious Pair step
/// remove something.
pub proof fn lemma_obvious_pair_seen(s: Sudoku, u: Unit, h: int, i: int, j: int)
    requires
        0 <= h < 9,
        0 <= i < 9,
        0 <= j < 9,
        obvious_pair_found(s, u, h, i, j),
    ensures
        obvious_pair_strategy_view(s).removed != Set::<Candidate>::empty(),
{
    lemma_obvious_pair_search_finds(s, u, h, i, j);
    lemma_obvious_pair_nonempty(s, Unit::Row);
    lemma_obvious_pair_nonempty(s, Unit::Column);
    lemma_obvious_pair_nonempty(s, Unit::Box);
}

} // verus!
