//! Collecting the candidates that a placed digit rules out.

use vstd::prelude::*;

use crate::board::{box_of, in_grid, same_box, Sudoku};
use crate::digits::{in_mask, mask_has};
use crate::{empty_view, extend_candidates, insert_candidate, lemma_take_next, Candidate, Cell, RemovalResult, RemovalView, Unit};

verus! {

/// The candidates `n` of row `row` with `n` in `nums`.
pub open spec fn row_hits(s: Sudoku, nums: Seq<u8>, row: int) -> Set<Candidate> {
    Set::new(
        |x: Candidate|
            x.row == row && x.col < 9 && nums.contains(x.num) && s.cand(row, x.col as int, x.num as int),
    )
}

/// The candidates `n` of column `col` with `n` in `nums`.
pub open spec fn col_hits(s: Sudoku, nums: Seq<u8>, col: int) -> Set<Candidate> {
    Set::new(
        |x: Candidate|
            x.col == col && x.row < 9 && nums.contains(x.num) && s.cand(x.row as int, col, x.num as int),
    )
}

/// The candidates `n` of the box that holds `(row, col)` with `n` in `nums`.
pub open spec fn box_hits(s: Sudoku, nums: Seq<u8>, row: int, col: int) -> Set<Candidate> {
    Set::new(
        |x: Candidate|
            x.row < 9 && x.col < 9 && same_box(row, col, x.row as int, x.col as int) && nums.contains(x.num)
                && s.cand(x.row as int, x.col as int, x.num as int),
    )
}

/// A result that only removes `removed`.
pub open spec fn removal_only(removed: Set<Candidate>) -> RemovalView {
    RemovalView { removed, ..empty_view() }
}

/// Placing `num` at `(row, col)` removes `num` from its row, column and box, the
/// candidate `num` of the cell itself, and every other candidate of the cell.
pub open spec fn set_num_removed(s: Sudoku, num: u8, row: int, col: int) -> Set<Candidate> {
    row_hits(s, seq![num], row).union(col_hits(s, seq![num], col)).union(
        box_hits(s, seq![num], row, col),
    ).insert(Candidate { row: row as usize, col: col as usize, num }).union(
        Set::new(
            |x: Candidate| x.row == row && x.col == col && s.cand(row, col, x.num as int),
        ),
    )
}

/// What placing `num` at `(row, col)` does.
pub open spec fn set_num_view(s: Sudoku, num: u8, row: int, col: int) -> RemovalView {
    RemovalView {
        sets_cell: Some(Cell { row: row as usize, col: col as usize, num }),
        cells_affected: seq![Cell { row: row as usize, col: col as usize, num }],
        candidates_affected: seq![Candidate { row: row as usize, col: col as usize, num }],
        removed: set_num_removed(s, num, row, col),
        unit: None,
        unit_index: None,
    }
}

/// A set of cells of the grid that a strategy clears of a digit.
#[derive(Debug, Clone, Copy)]
pub enum Region {
    /// The cells of row `row` outside the columns `lo..lo + 3`.
    RowOutside { row: usize, lo: usize },
    /// The cells of column `col` outside the rows `lo..lo + 3`.
    ColOutside { col: usize, lo: usize },
    /// The cells of the box at rows `br..br + 3`, columns `bc..bc + 3`, outside row `row`.
    BoxOutsideRow { br: usize, bc: usize, row: usize },
    /// The cells of the box at rows `br..br + 3`, columns `bc..bc + 3`, outside column `col`.
    BoxOutsideCol { br: usize, bc: usize, col: usize },
}

pub open spec fn in_region(g: Region, r: int, c: int) -> bool {
    match g {
        Region::RowOutside { row, lo } => r == row && !(lo <= c < lo + 3),
        Region::ColOutside { col, lo } => c == col && !(lo <= r < lo + 3),
        Region::BoxOutsideRow { br, bc, row } => br <= r < br + 3 && bc <= c < bc + 3 && r != row,
        Region::BoxOutsideCol { br, bc, col } => br <= r < br + 3 && bc <= c < bc + 3 && c != col,
    }
}

/// The candidates `num` in the cells of the region.
pub open spec fn region_hits(s: Sudoku, g: Region, num: u8) -> Set<Candidate> {
    Set::new(
        |x: Candidate|
            x.num == num && x.row < 9 && x.col < 9 && in_region(g, x.row as int, x.col as int) && s.cand(
                x.row as int,
                x.col as int,
                num as int,
            ),
    )
}

/// Some cell of the region has the candidate `num`.
pub open spec fn region_has(s: Sudoku, g: Region, num: u8) -> bool {
    exists|r: int, c: int| in_grid(r, c) && in_region(g, r, c) && #[trigger] s.cand(r, c, num as int)
}

pub fn is_in_region(g: Region, r: usize, c: usize) -> (b: bool)
    ensures
        b == in_region(g, r as int, c as int),
{
    match g {
        Region::RowOutside { row, lo } => r == row && !(lo <= c && c - lo < 3),
        Region::ColOutside { col, lo } => c == col && !(lo <= r && r - lo < 3),
        Region::BoxOutsideRow { br, bc, row } => br <= r && r - br < 3 && bc <= c && c - bc < 3 && r != row,
        Region::BoxOutsideCol { br, bc, col } => br <= r && r - br < 3 && bc <= c && c - bc < 3 && c != col,
    }
}

/// The cell `(r, c)` lies in house `h` of kind `u`.
pub open spec fn in_house(u: Unit, h: int, r: int, c: int) -> bool {
    match u {
        Unit::Row => r == h,
        Unit::Column => c == h,
        Unit::Box => box_of(r, c) == h,
    }
}

/// The position (`0..9`) of the cell `(r, c)` in its house of kind `u`.
pub open spec fn house_pos(u: Unit, r: int, c: int) -> int {
    match u {
        Unit::Row => c,
        Unit::Column => r,
        Unit::Box => 3 * (r % 3) + c % 3,
    }
}

/// The candidates with a digit in `nums` of the cells of house `h` of kind `u` whose
/// position is not in `skip`.
pub open spec fn house_hits(s: Sudoku, u: Unit, h: int, skip: u16, nums: u16) -> Set<Candidate> {
    Set::new(
        |x: Candidate|
            x.row < 9 && x.col < 9 && in_house(u, h, x.row as int, x.col as int) && !in_mask(
                skip,
                house_pos(u, x.row as int, x.col as int),
            ) && in_mask(nums, x.num as int) && s.cand(x.row as int, x.col as int, x.num as int),
    )
}

pub open spec fn house_has(s: Sudoku, u: Unit, h: int, skip: u16, nums: u16) -> bool {
    exists|x: Candidate| #[trigger] house_hits(s, u, h, skip, nums).contains(x)
}

pub fn is_in_house(u: Unit, h: usize, r: usize, c: usize) -> (b: bool)
    requires
        r < 9,
        c < 9,
    ensures
        b == in_house(u, h as int, r as int, c as int),
{
    match u {
        Unit::Row => r == h,
        Unit::Column => c == h,
        Unit::Box => 3 * (r / 3) + c / 3 == h,
    }
}

pub fn get_house_pos(u: Unit, r: usize, c: usize) -> (p: usize)
    requires
        r < 9,
        c < 9,
    ensures
        p == house_pos(u, r as int, c as int),
        p < 9,
{
    match u {
        Unit::Row => c,
        Unit::Column => r,
        Unit::Box => 3 * (r % 3) + c % 3,
    }
}

impl Sudoku {
    /// Add the candidate `n` of `(r, c)` to `v` when the cell has it.
    fn add_if_candidate(&self, v: &mut Vec<Candidate>, r: usize, c: usize, n: u8)
        requires
            r < 9,
            c < 9,
            old(v)@.no_duplicates(),
        ensures
            final(v)@.no_duplicates(),
            forall|x: Candidate|
                #[trigger] final(v)@.contains(x) <==> (old(v)@.contains(x) || (x == Candidate { row: r, col: c, num: n }
                    && self.cand(r as int, c as int, n as int))),
    {
        if mask_has(self.candidates[r][c], n) {
            insert_candidate(v, Candidate { row: r, col: c, num: n });
        }
    }

    /// Add the candidates `n` in `nums` of `(r, c)` to `v`.
    fn add_candidates_of(&self, v: &mut Vec<Candidate>, nums: &[u8], r: usize, c: usize)
        requires
            r < 9,
            c < 9,
            old(v)@.no_duplicates(),
        ensures
            final(v)@.no_duplicates(),
            forall|x: Candidate|
                #[trigger] final(v)@.contains(x) <==> (old(v)@.contains(x) || (x.row == r && x.col == c && nums@.contains(
                    x.num,
                ) && self.cand(r as int, c as int, x.num as int))),
    {
        let ghost start = v@;
        let mut i: usize = 0;
        while i < nums.len()
            invariant
                r < 9,
                c < 9,
                i <= nums@.len(),
                v@.no_duplicates(),
                forall|x: Candidate|
                    v@.contains(x) <==> (start.contains(x) || (x.row == r && x.col == c && nums@.take(
                        i as int,
                    ).contains(x.num) && self.cand(r as int, c as int, x.num as int))),
            decreases nums@.len() - i,
        {
            self.add_if_candidate(v, r, c, nums[i]);
            proof {
                lemma_take_next(nums@, i as int);
            }
            i = i + 1;
        }
        assert(nums@.take(nums@.len() as int) =~= nums@);
    }

    /// The candidates in `nums` of row `row`.
    fn collect_candidates_in_row(&self, nums: &[u8], row: usize) -> (res: RemovalResult)
        requires
            row < 9,
        ensures
            res.wf(),
            res@ == removal_only(row_hits(*self, nums@, row as int)),
    {
        let mut result = RemovalResult::empty();
        let mut col: usize = 0;
        while col < 9
            invariant
                row < 9,
                col <= 9,
                result@ == removal_only(result@.removed),
                result.wf(),
                forall|x: Candidate|
                    result.candidates_about_to_be_removed@.contains(x) <==> (x.row == row && x.col < col
                        && nums@.contains(x.num) && self.cand(row as int, x.col as int, x.num as int)),
            decreases 9 - col,
        {
            self.add_candidates_of(&mut result.candidates_about_to_be_removed, nums, row, col);
            col = col + 1;
        }
        assert(result@.removed =~= row_hits(*self, nums@, row as int));
        result
    }

    /// The candidates in `nums` of column `col`.
    fn collect_candidates_in_col(&self, nums: &[u8], col: usize) -> (res: RemovalResult)
        requires
            col < 9,
        ensures
            res.wf(),
            res@ == removal_only(col_hits(*self, nums@, col as int)),
    {
        let mut result = RemovalResult::empty();
        let mut row: usize = 0;
        while row < 9
            invariant
                col < 9,
                row <= 9,
                result@ == removal_only(result@.removed),
                result.wf(),
                forall|x: Candidate|
                    result.candidates_about_to_be_removed@.contains(x) <==> (x.col == col && x.row < row
                        && nums@.contains(x.num) && self.cand(x.row as int, col as int, x.num as int)),
            decreases 9 - row,
        {
            self.add_candidates_of(&mut result.candidates_about_to_be_removed, nums, row, col);
            row = row + 1;
        }
        assert(result@.removed =~= col_hits(*self, nums@, col as int));
        result
    }

    /// The candidates in `nums` of the box that holds `(row, col)`.
    fn collect_candidates_in_box(&self, nums: &[u8], row: usize, col: usize) -> (res: RemovalResult)
        requires
            row < 9,
            col < 9,
        ensures
            res.wf(),
            res@ == removal_only(box_hits(*self, nums@, row as int, col as int)),
    {
        let mut result = RemovalResult::empty();
        let start_row: usize = 3 * (row / 3);
        let start_col: usize = 3 * (col / 3);
        let mut k: usize = 0;
        while k < 9
            invariant
                row < 9,
                col < 9,
                start_row == 3 * (row / 3),
                start_col == 3 * (col / 3),
                k <= 9,
                result@ == removal_only(result@.removed),
                result.wf(),
                forall|x: Candidate|
                    result.candidates_about_to_be_removed@.contains(x) <==> (start_row <= x.row < start_row
                        + 3 && start_col <= x.col < start_col + 3 && 3 * (x.row - start_row) + (x.col
                        - start_col) < k && nums@.contains(x.num) && self.cand(
                        x.row as int,
                        x.col as int,
                        x.num as int,
                    )),
            decreases 9 - k,
        {
            let r = start_row + k / 3;
            let c = start_col + k % 3;
            self.add_candidates_of(&mut result.candidates_about_to_be_removed, nums, r, c);
            proof {
                assert forall|x: Candidate|
                    result.candidates_about_to_be_removed@.contains(x) <==> (start_row <= x.row < start_row
                        + 3 && start_col <= x.col < start_col + 3 && 3 * (x.row - start_row) + (x.col
                        - start_col) < k + 1 && nums@.contains(x.num) && self.cand(
                        x.row as int,
                        x.col as int,
                        x.num as int,
                    )) by {
                    if start_row <= x.row < start_row + 3 && start_col <= x.col < start_col + 3 && 3 * (x.row
                        - start_row) + (x.col - start_col) == k {
                        assert(x.row == r && x.col == c);
                    }
                }
            }
            k = k + 1;
        }
        assert(result@.removed =~= box_hits(*self, nums@, row as int, col as int));
        result
    }

    /// The candidates in `nums` of the row, the column and the box of `(row, col)`.
    fn collect_candidates(&self, nums: &[u8], row: usize, col: usize) -> (res: RemovalResult)
        requires
            row < 9,
            col < 9,
        ensures
            res.wf(),
            res@ == removal_only(
                row_hits(*self, nums@, row as int).union(col_hits(*self, nums@, col as int)).union(
                    box_hits(*self, nums@, row as int, col as int),
                ),
            ),
    {
        let mut result = RemovalResult::empty();
        let remove_in_row = self.collect_candidates_in_row(nums, row);
        let remove_in_col = self.collect_candidates_in_col(nums, col);
        let remove_in_box = self.collect_candidates_in_box(nums, row, col);
        let ghost target = row_hits(*self, nums@, row as int).union(col_hits(*self, nums@, col as int)).union(
            box_hits(*self, nums@, row as int, col as int),
        );
        let mut acc: Vec<Candidate> = Vec::new();
        let ghost s0 = acc@;
        extend_candidates(&mut acc, &remove_in_row.candidates_about_to_be_removed);
        let ghost s1 = acc@;
        extend_candidates(&mut acc, &remove_in_col.candidates_about_to_be_removed);
        let ghost s2 = acc@;
        extend_candidates(&mut acc, &remove_in_box.candidates_about_to_be_removed);
        result.candidates_about_to_be_removed = acc;
        proof {
            assert forall|x: Candidate| result@.removed.contains(x) <==> target.contains(x) by {
                if target.contains(x) {
                        assert(remove_in_row@.removed.contains(x) || remove_in_col@.removed.contains(x)
                        || remove_in_box@.removed.contains(x));
                }
                assert(!s0.contains(x));
                assert(s1.contains(x) <==> (s0.contains(x) || remove_in_row.candidates_about_to_be_removed@.contains(x)));
                assert(s2.contains(x) <==> (s1.contains(x) || remove_in_col.candidates_about_to_be_removed@.contains(x)));
                assert(result.candidates_about_to_be_removed@.contains(x) <==> (s2.contains(x) || remove_in_box.candidates_about_to_be_removed@.contains(x)));
                if false {
                }
            }
            assert(result@.removed =~= target);
        }
        result
    }

    /// What placing `num` at `(row, col)` would do: the cell is set, and `num` goes from
    /// the row, the column and the box, together with every candidate of the cell.
    pub fn collect_set_num(&self, num: u8, row: usize, col: usize) -> (res: RemovalResult)
        requires
            row < 9,
            col < 9,
        ensures
            res.wf(),
            res@ == set_num_view(*self, num, row as int, col as int),
    {
        let cell = Cell { row, col, num };
        let nums: [u8; 1] = [num];
        let removal_result = self.collect_candidates(nums.as_slice(), row, col);
        proof {
            assert(nums@ =~= seq![num]);
        }
        let mut candidates = removal_result.candidates_about_to_be_removed;
        insert_candidate(&mut candidates, Candidate { row, col, num });
        let ghost mid = candidates@;
        let mut n: u8 = 0;
        while n < 16
            invariant
                row < 9,
                col < 9,
                n <= 16,
                mid.contains(Candidate { row, col, num }),
                candidates@.no_duplicates(),
                forall|x: Candidate|
                    #[trigger] candidates@.contains(x) <==> (mid.contains(x) || (x.row == row && x.col == col
                        && x.num < n && self.cand(row as int, col as int, x.num as int))),
            decreases 16 - n,
        {
            let ghost prev = candidates@;
            if n != num {
                self.add_if_candidate(&mut candidates, row, col, n);
            }
            proof {
                assert forall|x: Candidate|
                    candidates@.contains(x) <==> (mid.contains(x) || (x.row == row && x.col == col && x.num
                        < n + 1 && self.cand(row as int, col as int, x.num as int))) by {
                    assert(prev.contains(x) <==> (mid.contains(x) || (x.row == row && x.col == col && x.num
                        < n && self.cand(row as int, col as int, x.num as int))));
                    if n != num {
                        assert(candidates@.contains(x) <==> (prev.contains(x) || (x == Candidate { row, col, num: n }
                            && self.cand(row as int, col as int, n as int))));
                    }
                    if x.row == row && x.col == col && x.num == n && self.cand(row as int, col as int, x.num as int) {
                        if n == num {
                            assert(x == Candidate { row, col, num });
                        } else {
                            assert(x == Candidate { row, col, num: n });
                        }
                    }
                }
            }
            n = n + 1;
        }
        let res = RemovalResult {
            sets_cell: Some(cell),
            cells_affected: vec![cell],
            candidates_affected: vec![Candidate { row, col, num }],
            candidates_about_to_be_removed: candidates,
            unit: None,
            unit_index: None,
        };
        proof {
            assert forall|x: Candidate| res@.removed.contains(x) <==> set_num_removed(*self, num, row as int, col as int).contains(x) by {
                assert(mid.to_set().contains(x) == mid.contains(x));
                if x.row == row && x.col == col && self.cand(row as int, col as int, x.num as int) {
                    assert(crate::digits::in_mask(self.candidates[row as int][col as int], x.num as int));
                    assert(x.num < 16);
                }
            }
            assert(res@.removed =~= set_num_removed(*self, num, row as int, col as int));
            assert(res@.cells_affected =~= seq![cell]);
            assert(res@.candidates_affected =~= seq![Candidate { row, col, num }]);
        }
        res
    }

    /// The candidates `num` in the cells of the region, as a set.
    pub fn collect_region(&self, g: Region, num: u8) -> (v: Vec<Candidate>)
        ensures
            v@.no_duplicates(),
            v@.to_set() == region_hits(*self, g, num),
            (v@.len() > 0) == region_has(*self, g, num),
    {
        let mut v: Vec<Candidate> = Vec::new();
        let mut t: usize = 0;
        while t < 81
            invariant
                t <= 81,
                v@.no_duplicates(),
                forall|x: Candidate|
                    #[trigger] v@.contains(x) <==> (x.num == num && x.row < 9 && x.col < 9 && 9 * x.row + x.col < t
                        && in_region(g, x.row as int, x.col as int) && self.cand(x.row as int, x.col as int, num as int)),
            decreases 81 - t,
        {
            let r = t / 9;
            let c = t % 9;
            if is_in_region(g, r, c) && mask_has(self.candidates[r][c], num) {
                insert_candidate(&mut v, Candidate { row: r, col: c, num });
            }
            proof {
                assert forall|x: Candidate|
                    #[trigger] v@.contains(x) <==> (x.num == num && x.row < 9 && x.col < 9 && 9 * x.row + x.col < t + 1
                        && in_region(g, x.row as int, x.col as int) && self.cand(x.row as int, x.col as int, num as int)) by {
                    if x.row < 9 && x.col < 9 && 9 * x.row + x.col == t {
                        assert(x.row == r && x.col == c);
                    }
                }
            }
            t = t + 1;
        }
        proof {
            assert(v@.to_set() =~= region_hits(*self, g, num));
            if v@.len() > 0 {
                let x = v@[0];
                assert(v@.contains(x));
                assert(in_grid(x.row as int, x.col as int) && in_region(g, x.row as int, x.col as int) && self.cand(x.row as int, x.col as int, num as int));
            }
            if region_has(*self, g, num) {
                let (r, c) = choose|r: int, c: int| in_grid(r, c) && in_region(g, r, c) && #[trigger] self.cand(r, c, num as int);
                assert(v@.contains(Candidate { row: r as usize, col: c as usize, num }));
            }
        }
        v
    }

    /// The candidates with a digit in `nums` of the cells of house `h` of kind `u` whose
    /// position is not in `skip`, as a set.
    pub fn collect_house(&self, u: Unit, h: usize, skip: u16, nums: u16) -> (v: Vec<Candidate>)
        ensures
            v@.no_duplicates(),
            v@.to_set() == house_hits(*self, u, h as int, skip, nums),
            (v@.len() > 0) == house_has(*self, u, h as int, skip, nums),
    {
        let mut v: Vec<Candidate> = Vec::new();
        let mut t: usize = 0;
        while t < 81
            invariant
                t <= 81,
                v@.no_duplicates(),
                forall|x: Candidate|
                    #[trigger] v@.contains(x) <==> (house_hits(*self, u, h as int, skip, nums).contains(x) && 16 * (9 * x.row + x.col) + x.num < 16 * t),
            decreases 81 - t,
        {
            let r = t / 9;
            let c = t % 9;
            if is_in_house(u, h, r, c) && !mask_has(skip, get_house_pos(u, r, c) as u8) {
                let mut n: u8 = 0;
                while n < 16
                    invariant
                        r == t / 9,
                        c == t % 9,
                        t < 81,
                        n <= 16,
                        in_house(u, h as int, r as int, c as int),
                        !in_mask(skip, house_pos(u, r as int, c as int)),
                        v@.no_duplicates(),
                        forall|x: Candidate|
                            #[trigger] v@.contains(x) <==> (house_hits(*self, u, h as int, skip, nums).contains(x) && 16 * (9 * x.row + x.col) + x.num < 16 * t + n),
                    decreases 16 - n,
                {
                    if mask_has(nums, n) && mask_has(self.candidates[r][c], n) {
                        insert_candidate(&mut v, Candidate { row: r, col: c, num: n });
                    }
                    proof {
                        assert forall|x: Candidate|
                            #[trigger] v@.contains(x) <==> (house_hits(*self, u, h as int, skip, nums).contains(x) && 16 * (9 * x.row + x.col) + x.num < 16 * t + n + 1) by {
                            if house_hits(*self, u, h as int, skip, nums).contains(x) && 16 * (9 * x.row + x.col) + x.num == 16 * t + n {
                                assert(x.row == r && x.col == c && x.num == n);
                            }
                        }
                    }
                    n = n + 1;
                }
            } else {
                proof {
                    assert forall|x: Candidate|
                        #[trigger] v@.contains(x) <==> (house_hits(*self, u, h as int, skip, nums).contains(x) && 16 * (9 * x.row + x.col) + x.num < 16 * (t + 1)) by {
                        if house_hits(*self, u, h as int, skip, nums).contains(x) && 16 * t <= 16 * (9 * x.row + x.col) + x.num < 16 * (t + 1) {
                            assert(x.row == r && x.col == c);
                        }
                    }
                }
            }
            t = t + 1;
        }
        proof {
            assert forall|x: Candidate| house_hits(*self, u, h as int, skip, nums).contains(x) implies 16 * (9 * x.row + x.col) + x.num < 16 * 81 by {
                assert(crate::digits::in_mask(self.candidates[x.row as int][x.col as int], x.num as int));
            }
            assert(v@.to_set() =~= house_hits(*self, u, h as int, skip, nums));
            if v@.len() > 0 {
                assert(v@.contains(v@[0]));
            }
            if house_has(*self, u, h as int, skip, nums) {
                let x = choose|x: Candidate| #[trigger] house_hits(*self, u, h as int, skip, nums).contains(x);
                assert(v@.contains(x));
            }
        }
        v
    }
}

} // verus!
