//! Singles: a cell with a single candidate, or a candidate that only one cell of a
//! house can take.

use vstd::prelude::*;

use crate::board::{in_grid, same_box, Sudoku};
use crate::collect::set_num_view;
use crate::digits::{in_mask, mask_has, mask_single, sole_in_mask};
use crate::search::{first_from, lemma_first_end, lemma_first_from, lemma_first_hit, lemma_first_skip};
use crate::{empty_view, RemovalResult, RemovalView, Strategy, StrategyResult, Unit, EMPTY};

verus! {

/// The `k`-th cell (`0..81`) when the houses of kind `u` are walked one after the other:
/// rows from the top, columns from the left, boxes in row-major order; inside a house
/// its cells in row-major order. The house is number `k / 9`.
pub open spec fn unit_cell_row(u: Unit, k: int) -> int {
    match u {
        Unit::Row => k / 9,
        Unit::Column => k % 9,
        Unit::Box => 3 * ((k / 9) / 3) + (k % 9) / 3,
    }
}

pub open spec fn unit_cell_col(u: Unit, k: int) -> int {
    match u {
        Unit::Row => k % 9,
        Unit::Column => k / 9,
        Unit::Box => 3 * ((k / 9) % 3) + (k % 9) % 3,
    }
}

/// The cell `(r2, c2)` is another cell of the house of kind `u` that holds `(r, c)`.
pub open spec fn other_in_unit(u: Unit, r: int, c: int, r2: int, c2: int) -> bool {
    &&& in_grid(r2, c2)
    &&& (r2 != r || c2 != c)
    &&& match u {
        Unit::Row => r2 == r,
        Unit::Column => c2 == c,
        Unit::Box => same_box(r, c, r2, c2),
    }
}

/// `n` is a candidate of the empty cell `(r, c)` and of no other cell of its house of kind `u`.
pub open spec fn hidden_at(s: Sudoku, u: Unit, r: int, c: int, n: int) -> bool {
    &&& s.board[r][c] == EMPTY
    &&& s.cand(r, c, n)
    &&& forall|r2: int, c2: int| other_in_unit(u, r, c, r2, c2) ==> !#[trigger] s.cand(r2, c2, n)
}

/// The smallest hidden single of the `k`-th cell of the houses of kind `u`.
pub open spec fn hidden_num(s: Sudoku, u: Unit, k: int) -> Option<int> {
    first_from(|n: int| hidden_at(s, u, unit_cell_row(u, k), unit_cell_col(u, k), n), 0, 16)
}

/// The first cell, in the walk of the houses of kind `u`, with a hidden single.
pub open spec fn first_hidden_cell(s: Sudoku, u: Unit) -> Option<int> {
    first_from(|k: int| hidden_num(s, u, k) is Some, 0, 81)
}

/// Placing the first hidden single found in the houses of kind `u`.
pub open spec fn hidden_single_view(s: Sudoku, u: Unit) -> RemovalView {
    match first_hidden_cell(s, u) {
        None => empty_view(),
        Some(k) => RemovalView {
            unit: Some(u),
            unit_index: Some(seq![(k / 9) as usize]),
            ..set_num_view(s, hidden_num(s, u, k)->0 as u8, unit_cell_row(u, k), unit_cell_col(u, k))
        },
    }
}

/// Boxes first, then rows, then columns.
pub open spec fn hidden_single_strategy_view(s: Sudoku) -> RemovalView {
    if first_hidden_cell(s, Unit::Box) is Some {
        hidden_single_view(s, Unit::Box)
    } else if first_hidden_cell(s, Unit::Row) is Some {
        hidden_single_view(s, Unit::Row)
    } else {
        hidden_single_view(s, Unit::Column)
    }
}

/// The first cell, in row-major order, with exactly one candidate.
pub open spec fn first_single_cell(s: Sudoku) -> Option<int> {
    first_from(|k: int| exists|n: int| #[trigger] sole_in_mask(s.candidates[k / 9][k % 9], n), 0, 81)
}

/// The cell with a single candidate must be empty.
pub open spec fn obvious_single_defined(s: Sudoku) -> bool {
    first_single_cell(s) matches Some(k) ==> s.board[k / 9][k % 9] == EMPTY
}

/// Placing the candidate of the first cell that has only one.
pub open spec fn obvious_single_view(s: Sudoku) -> RemovalView {
    match first_single_cell(s) {
        None => empty_view(),
        Some(k) => {
            let n = choose|n: int| #[trigger] sole_in_mask(s.candidates[k / 9][k % 9], n);
            set_num_view(s, n as u8, k / 9, k % 9)
        },
    }
}

impl Sudoku {
    /// Obvious single: the first cell with a single candidate gets that digit.
    pub fn find_obvious_single(&self) -> (res: StrategyResult)
        requires
            obvious_single_defined(*self),
        ensures
            res.strategy == Strategy::ObviousSingle,
            res.removals.wf(),
            res.removals@ == obvious_single_view(*self),
    {
        let ghost p = |k: int| exists|n: int| #[trigger] sole_in_mask(self.candidates[k / 9][k % 9], n);
        let mut k: usize = 0;
        while k < 81
            invariant
                k <= 81,
                p == (|k: int| exists|n: int| #[trigger] sole_in_mask(self.candidates[k / 9][k % 9], n)),
                first_single_cell(*self) == first_from(p, k as int, 81),
            decreases 81 - k,
        {
            let row = k / 9;
            let col = k % 9;
            match mask_single(self.candidates[row][col]) {
                Some(num) => {
                    proof {
                        assert(p(k as int));
                        lemma_first_hit(p, k as int, 81);
                        let n = choose|n: int| #[trigger] sole_in_mask(self.candidates[row as int][col as int], n);
                        assert(n == num);
                    }
                    return StrategyResult {
                        strategy: Strategy::ObviousSingle,
                        removals: self.collect_set_num(num, row, col),
                    };
                },
                None => {
                    proof {
                        lemma_first_skip(p, k as int, 81);
                    }
                },
            }
            k = k + 1;
        }
        proof {
            lemma_first_end(p, 81);
        }
        StrategyResult::new(Strategy::ObviousSingle)
    }

    /// Whether the first cell with a single candidate, if any, is empty.
    pub fn obvious_single_ok(&self) -> (b: bool)
        ensures
            b == obvious_single_defined(*self),
    {
        let ghost p = |k: int| exists|n: int| #[trigger] sole_in_mask(self.candidates[k / 9][k % 9], n);
        let mut k: usize = 0;
        while k < 81
            invariant
                k <= 81,
                p == (|k: int| exists|n: int| #[trigger] sole_in_mask(self.candidates[k / 9][k % 9], n)),
                first_single_cell(*self) == first_from(p, k as int, 81),
            decreases 81 - k,
        {
            match mask_single(self.candidates[k / 9][k % 9]) {
                Some(num) => {
                    proof {
                        assert(p(k as int));
                        lemma_first_hit(p, k as int, 81);
                    }
                    return self.board[k / 9][k % 9] == EMPTY;
                },
                None => {
                    proof {
                        lemma_first_skip(p, k as int, 81);
                    }
                },
            }
            k = k + 1;
        }
        proof {
            lemma_first_end(p, 81);
        }
        true
    }

    /// The `k`-th cell of the walk of the houses of kind `u`.
    pub(crate) fn unit_cell(u: Unit, k: usize) -> (rc: (usize, usize))
        requires
            k < 81,
        ensures
            rc.0 == unit_cell_row(u, k as int),
            rc.1 == unit_cell_col(u, k as int),
            rc.0 < 9,
            rc.1 < 9,
    {
        match u {
            Unit::Row => (k / 9, k % 9),
            Unit::Column => (k % 9, k / 9),
            Unit::Box => (3 * ((k / 9) / 3) + (k % 9) / 3, 3 * ((k / 9) % 3) + (k % 9) % 3),
        }
    }

    /// Whether `(r2, c2)` is another cell of the house of kind `u` that holds `(r, c)`.
    fn is_other_in_unit(u: Unit, r: usize, c: usize, r2: usize, c2: usize) -> (b: bool)
        requires
            r < 9,
            c < 9,
            r2 < 9,
            c2 < 9,
        ensures
            b == other_in_unit(u, r as int, c as int, r2 as int, c2 as int),
    {
        if r2 == r && c2 == c {
            return false;
        }
        match u {
            Unit::Row => r2 == r,
            Unit::Column => c2 == c,
            Unit::Box => r / 3 == r2 / 3 && c / 3 == c2 / 3,
        }
    }

    /// Whether no other cell of the house of kind `u` that holds `(r, c)` has the candidate `n`.
    fn unique_in_unit(&self, u: Unit, r: usize, c: usize, n: u8) -> (b: bool)
        requires
            r < 9,
            c < 9,
        ensures
            b == forall|r2: int, c2: int| other_in_unit(u, r as int, c as int, r2, c2) ==> !#[trigger] self.cand(r2, c2, n as int),
    {
        let mut t: usize = 0;
        while t < 81
            invariant
                r < 9,
                c < 9,
                t <= 81,
                forall|r2: int, c2: int|
                    other_in_unit(u, r as int, c as int, r2, c2) && 9 * r2 + c2 < t ==> !#[trigger] self.cand(r2, c2, n as int),
            decreases 81 - t,
        {
            let r2 = t / 9;
            let c2 = t % 9;
            if Self::is_other_in_unit(u, r, c, r2, c2) && mask_has(self.candidates[r2][c2], n) {
                assert(other_in_unit(u, r as int, c as int, r2 as int, c2 as int) && self.cand(r2 as int, c2 as int, n as int));
                return false;
            }
            proof {
                assert forall|r3: int, c3: int|
                    other_in_unit(u, r as int, c as int, r3, c3) && 9 * r3 + c3 < t + 1 implies !#[trigger] self.cand(r3, c3, n as int) by {
                    if 9 * r3 + c3 == t {
                        assert(r3 == r2 && c3 == c2);
                    }
                }
            }
            t = t + 1;
        }
        true
    }

    /// The smallest hidden single of the `k`-th cell of the houses of kind `u`.
    pub(crate) fn find_hidden_num(&self, u: Unit, k: usize) -> (res: Option<u8>)
        requires
            k < 81,
        ensures
            res matches Some(n) ==> hidden_num(*self, u, k as int) == Some(n as int),
            res is None ==> hidden_num(*self, u, k as int) is None,
    {
        let (r, c) = Self::unit_cell(u, k);
        let ghost p = |n: int| hidden_at(*self, u, unit_cell_row(u, k as int), unit_cell_col(u, k as int), n);
        if self.board[r][c] != EMPTY {
            proof {
                lemma_first_from(p, 0, 16);
            }
            return None;
        }
        let mut n: u8 = 0;
        while n < 16
            invariant
                n <= 16,
                r == unit_cell_row(u, k as int),
                c == unit_cell_col(u, k as int),
                r < 9,
                c < 9,
                self.board[r as int][c as int] == EMPTY,
                p == (|n: int| hidden_at(*self, u, unit_cell_row(u, k as int), unit_cell_col(u, k as int), n)),
                hidden_num(*self, u, k as int) == first_from(p, n as int, 16),
            decreases 16 - n,
        {
            if mask_has(self.candidates[r][c], n) && self.unique_in_unit(u, r, c, n) {
                proof {
                    assert(p(n as int));
                    lemma_first_hit(p, n as int, 16);
                }
                return Some(n);
            }
            proof {
                assert(!p(n as int));
                lemma_first_skip(p, n as int, 16);
            }
            n = n + 1;
        }
        proof {
            lemma_first_end(p, 16);
        }
        None
    }

    /// Hidden single in the houses of kind `u`: the first empty cell, in the walk of the
    /// houses, with a candidate that no other cell of its house has, gets the smallest
    /// such candidate.
    fn find_hidden_single_in(&self, u: Unit) -> (res: RemovalResult)
        ensures
            res.wf(),
            res@ == hidden_single_view(*self, u),
    {
        let ghost p = |k: int| hidden_num(*self, u, k) is Some;
        let mut k: usize = 0;
        while k < 81
            invariant
                k <= 81,
                p == (|k: int| hidden_num(*self, u, k) is Some),
                first_hidden_cell(*self, u) == first_from(p, k as int, 81),
            decreases 81 - k,
        {
            match self.find_hidden_num(u, k) {
                Some(num) => {
                    proof {
                        lemma_first_hit(p, k as int, 81);
                    }
                    let (row, col) = Self::unit_cell(u, k);
                    let mut result = self.collect_set_num(num, row, col);
                    result.unit = Some(u);
                    result.unit_index = Some(vec![k / 9]);
                    proof {
                        assert(result@.unit_index == Some(seq![(k / 9) as usize]));
                        assert(result@ =~= hidden_single_view(*self, u));
                    }
                    return result;
                },
                None => {
                    proof {
                        lemma_first_skip(p, k as int, 81);
                    }
                },
            }
            k = k + 1;
        }
        proof {
            lemma_first_end(p, 81);
        }
        RemovalResult::empty()
    }

    /// Hidden single in rows.
    pub fn find_hidden_single_row(&self) -> (res: RemovalResult)
        ensures
            res.wf(),
            res@ == hidden_single_view(*self, Unit::Row),
    {
        self.find_hidden_single_in(Unit::Row)
    }

    /// Hidden single in columns.
    pub fn find_hidden_single_col(&self) -> (res: RemovalResult)
        ensures
            res.wf(),
            res@ == hidden_single_view(*self, Unit::Column),
    {
        self.find_hidden_single_in(Unit::Column)
    }

    /// Hidden single in boxes.
    pub fn find_hidden_single_box(&self) -> (res: RemovalResult)
        ensures
            res.wf(),
            res@ == hidden_single_view(*self, Unit::Box),
    {
        self.find_hidden_single_in(Unit::Box)
    }

    /// Hidden single: boxes first, then rows, then columns.
    pub fn find_hidden_single(&self) -> (res: StrategyResult)
        ensures
            res.strategy == Strategy::HiddenSingle,
            res.removals.wf(),
            res.removals@ == hidden_single_strategy_view(*self),
    {
        let mut result = StrategyResult::new(Strategy::HiddenSingle);
        let box_result = self.find_hidden_single_box();
        proof {
            self.lemma_hidden_nonempty(Unit::Box);
        }
        if box_result.will_remove_candidates() {
            result.removals = box_result;
            return result;
        }
        let row_result = self.find_hidden_single_row();
        proof {
            self.lemma_hidden_nonempty(Unit::Row);
        }
        if row_result.will_remove_candidates() {
            result.removals = row_result;
            return result;
        }
        let col_result = self.find_hidden_single_col();
        proof {
            self.lemma_hidden_nonempty(Unit::Column);
        }
        if col_result.will_remove_candidates() {
            result.removals = col_result;
            return result;
        }
        proof {
            assert(result.removals@ =~= hidden_single_view(*self, Unit::Column));
        }
        result
    }

    /// A hidden single, once found, removes at least the placed candidate.
    proof fn lemma_hidden_nonempty(&self, u: Unit)
        ensures
            (hidden_single_view(*self, u).removed != Set::<crate::Candidate>::empty()) == (first_hidden_cell(*self, u) is Some),
    {
        if first_hidden_cell(*self, u) is Some {
            let k = first_hidden_cell(*self, u)->0;
            let n = hidden_num(*self, u, k)->0;
            assert(hidden_single_view(*self, u).removed.contains(crate::Candidate {
                row: unit_cell_row(u, k) as usize,
                col: unit_cell_col(u, k) as usize,
                num: n as u8,
            }));
        }
    }
}


/// The Hidden Single step agrees with the three searches: the boxes' hidden single when
/// there is one, else the rows', else exactly what the columns' search gives.
pub proof fn lemma_hidden_single_step(s: Sudoku)
    ensures
        hidden_single_view(s, Unit::Box).removed != Set::<crate::Candidate>::empty() ==> hidden_single_strategy_view(s)
            == hidden_single_view(s, Unit::Box),
        hidden_single_view(s, Unit::Box).removed == Set::<crate::Candidate>::empty() && hidden_single_view(s, Unit::Row).removed != Set::<
            crate::Candidate,
        >::empty() ==> hidden_single_strategy_view(s) == hidden_single_view(s, Unit::Row),
        hidden_single_view(s, Unit::Box).removed == Set::<crate::Candidate>::empty() && hidden_single_view(s, Unit::Row).removed == Set::<
            crate::Candidate,
        >::empty() ==> hidden_single_strategy_view(s) == hidden_single_view(s, Unit::Column),
{
    s.lemma_hidden_nonempty(Unit::Box);
    s.lemma_hidden_nonempty(Unit::Row);
}

/// No hidden single is missed: when an empty cell holds a candidate that no other cell of
/// its box, its row or its column holds, the Hidden Single step fills a cell and removes
/// something.
pub proof fn lemma_hidden_single_seen(s: Sudoku, u: Unit, r: int, c: int, n: int)
    requires
        in_grid(r, c),
        0 <= n < 16,
        hidden_at(s, u, r, c, n),
    ensures
        hidden_single_strategy_view(s).sets_cell is Some,
        hidden_single_strategy_view(s).removed != Set::<crate::Candidate>::empty(),
{
    lemma_hidden_single_search_finds(s, u, r, c, n);
    s.lemma_hidden_nonempty(Unit::Box);
    s.lemma_hidden_nonempty(Unit::Row);
    s.lemma_hidden_nonempty(Unit::Column);
}


/// What the Hidden Single step fills is a real hidden single: an empty cell whose digit is
/// a candidate of no other cell of its box, row or column.
pub proof fn lemma_hidden_single_real(s: Sudoku)
    ensures
        hidden_single_strategy_view(s).sets_cell matches Some(cell) ==> in_grid(cell.row as int, cell.col as int) && exists|u: Unit|
            #[trigger] hidden_at(s, u, cell.row as int, cell.col as int, cell.num as int),
{
    let u = if first_hidden_cell(s, Unit::Box) is Some {
        Unit::Box
    } else if first_hidden_cell(s, Unit::Row) is Some {
        Unit::Row
    } else {
        Unit::Column
    };
    if let Some(k) = first_hidden_cell(s, u) {
        lemma_first_from(|k: int| hidden_num(s, u, k) is Some, 0, 81);
        lemma_first_from(|m: int| hidden_at(s, u, unit_cell_row(u, k), unit_cell_col(u, k), m), 0, 16);
        let n = hidden_num(s, u, k)->0;
        crate::sound::lemma_house_coords(u, k / 9, k % 9);
        assert(9 * (k / 9) + k % 9 == k);
        assert(hidden_at(s, u, unit_cell_row(u, k), unit_cell_col(u, k), n));
        assert(0 <= n < 16);
        assert(hidden_single_strategy_view(s) == hidden_single_view(s, u));
        let cell = hidden_single_strategy_view(s).sets_cell->0;
        assert(cell.row as int == unit_cell_row(u, k) && cell.col as int == unit_cell_col(u, k) && cell.num as int == n);
        assert(hidden_at(s, u, cell.row as int, cell.col as int, cell.num as int));
    }
}


/// A hidden single makes the search of its kind of houses find one.
pub proof fn lemma_hidden_single_search_finds(s: Sudoku, u: Unit, r: int, c: int, n: int)
    requires
        in_grid(r, c),
        0 <= n < 16,
        hidden_at(s, u, r, c, n),
    ensures
        first_hidden_cell(s, u) is Some,
{
    let h = match u {
        Unit::Row => r,
        Unit::Column => c,
        Unit::Box => crate::board::box_of(r, c),
    };
    crate::sound::lemma_house_index(u, h, r, c);
    let k = 9 * h + crate::collect::house_pos(u, r, c);
    assert(0 <= k < 81);
    let pn = |m: int| hidden_at(s, u, unit_cell_row(u, k), unit_cell_col(u, k), m);
    assert(pn(n));
    lemma_first_from(pn, 0, 16);
    let pk = |k: int| hidden_num(s, u, k) is Some;
    assert(pk(k));
    lemma_first_from(pk, 0, 81);
}


/// No obvious single is missed: when a cell has exactly one candidate, the Obvious Single
/// step fills a cell, and the cell it fills has exactly one candidate, which it gets.
pub proof fn lemma_obvious_single_seen(s: Sudoku, r: int, c: int, n: int)
    requires
        in_grid(r, c),
        sole_in_mask(s.candidates[r][c], n),
    ensures
        obvious_single_view(s).sets_cell matches Some(cell) && in_grid(cell.row as int, cell.col as int) && sole_in_mask(
            s.candidates[cell.row as int][cell.col as int],
            cell.num as int,
        ),
{
    let k = 9 * r + c;
    assert(k / 9 == r && k % 9 == c && 0 <= k < 81);
    let p = |k: int| exists|n: int| #[trigger] sole_in_mask(s.candidates[k / 9][k % 9], n);
    assert(sole_in_mask(s.candidates[k / 9][k % 9], n));
    assert(p(k));
    lemma_first_from(p, 0, 81);
    let k0 = first_single_cell(s)->0;
    let m = choose|m: int| #[trigger] sole_in_mask(s.candidates[k0 / 9][k0 % 9], m);
    assert(sole_in_mask(s.candidates[k0 / 9][k0 % 9], m));
}

} // verus!
