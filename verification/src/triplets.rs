//! Triplets: three cells of a house whose candidates together are three digits, and
//! three digits that only the same three cells of a row can take.

use vstd::prelude::*;

use crate::board::Sudoku;
use crate::collect::{house_has, house_hits};
use crate::digits::{lemma_not_mask, lemma_three_bits, lemma_union3, mask_digit_list, mask_digits, nums_of, three_bits};
use crate::fish::house_cand_at;
use crate::hidden::locs;
use crate::search::{first_from, ints, lemma_first_end, lemma_first_from, lemma_first_hit, lemma_first_skip};
use crate::singles::{unit_cell_col, unit_cell_row};
use crate::subsets::house_mask;
use crate::{empty_view, Candidate, RemovalResult, RemovalView, Strategy, StrategyResult, Unit, EMPTY};

verus! {

/// The cell at position `p` of house `h` is empty and has one to three candidates.
pub open spec fn triplet_cell_ok(s: Sudoku, u: Unit, h: int, p: int) -> bool {
    &&& s.board[unit_cell_row(u, 9 * h + p)][unit_cell_col(u, 9 * h + p)] == EMPTY
    &&& 1 <= mask_digits(house_mask(s, u, h, p)).len() <= 3
}

/// The candidates of the three cells together.
pub open spec fn triplet_union(s: Sudoku, u: Unit, h: int, i: int, j: int, k: int) -> u16 {
    house_mask(s, u, h, i) | house_mask(s, u, h, j) | house_mask(s, u, h, k)
}

/// Positions `i < j < k` of house `h` form an obvious triplet.
pub open spec fn triplet_found(s: Sudoku, u: Unit, h: int, i: int, j: int, k: int) -> bool {
    &&& i < j < k
    &&& triplet_cell_ok(s, u, h, i)
    &&& triplet_cell_ok(s, u, h, j)
    &&& triplet_cell_ok(s, u, h, k)
    &&& mask_digits(triplet_union(s, u, h, i, j, k)).len() == 3
}

/// The candidates of the cell at position `p`, in increasing order.
pub open spec fn cell_cands(u: Unit, h: int, p: int, m: u16) -> Seq<Candidate> {
    Seq::new(mask_digits(m).len(), |x: int| house_cand_at(u, h, p, mask_digits(m)[x]))
}

pub open spec fn triplet_cands(s: Sudoku, u: Unit, h: int, i: int, j: int, k: int) -> Seq<Candidate> {
    cell_cands(u, h, i, house_mask(s, u, h, i)) + cell_cands(u, h, j, house_mask(s, u, h, j)) + cell_cands(
        u,
        h,
        k,
        house_mask(s, u, h, k),
    )
}

/// Search position `t`: house `t / 729`, cells `(t / 81) % 9`, `(t / 9) % 9`, `t % 9`.
pub open spec fn triplet_found_at(s: Sudoku, u: Unit, t: int) -> bool {
    triplet_found(s, u, t / 729, (t / 81) % 9, (t / 9) % 9, t % 9)
}

/// The candidates of every obvious triplet met before position `t` of the search.
pub open spec fn triplet_affected(s: Sudoku, u: Unit, t: int) -> Seq<Candidate>
    decreases t,
{
    if t <= 0 {
        Seq::empty()
    } else if triplet_found_at(s, u, t - 1) {
        triplet_affected(s, u, t - 1) + triplet_cands(s, u, (t - 1) / 729, ((t - 1) / 81) % 9, ((t - 1) / 9) % 9, (t - 1) % 9)
    } else {
        triplet_affected(s, u, t - 1)
    }
}

pub open spec fn triplet_removes(s: Sudoku, u: Unit, h: int, i: int, j: int, k: int) -> bool {
    triplet_found(s, u, h, i, j, k) && house_has(s, u, h, three_bits(i as u16, j as u16, k as u16), triplet_union(s, u, h, i, j, k))
}

pub open spec fn first_triplet(s: Sudoku, u: Unit) -> Option<int> {
    first_from(|t: int| triplet_removes(s, u, t / 729, (t / 81) % 9, (t / 9) % 9, t % 9), 0, 6561)
}

/// Obvious triplets in the houses of kind `u`: the first whose digits are found in the rest
/// of the house is the result, and those digits go from there. The candidates of every
/// triplet met so far are kept, as is done when nothing is found.
pub open spec fn obvious_triplet_view(s: Sudoku, u: Unit) -> RemovalView {
    match first_triplet(s, u) {
        None => RemovalView { candidates_affected: triplet_affected(s, u, 6561), ..empty_view() },
        Some(t) => {
            let h = t / 729;
            let i = (t / 81) % 9;
            let j = (t / 9) % 9;
            let k = t % 9;
            RemovalView {
                candidates_affected: triplet_affected(s, u, t + 1),
                removed: house_hits(s, u, h, three_bits(i as u16, j as u16, k as u16), triplet_union(s, u, h, i, j, k)),
                unit: Some(u),
                unit_index: Some(seq![h as usize]),
                ..empty_view()
            }
        },
    }
}

/// Rows first, then columns, then boxes.
pub open spec fn obvious_triplet_strategy_view(s: Sudoku) -> RemovalView {
    if first_triplet(s, Unit::Row) is Some {
        obvious_triplet_view(s, Unit::Row)
    } else if first_triplet(s, Unit::Column) is Some {
        obvious_triplet_view(s, Unit::Column)
    } else {
        obvious_triplet_view(s, Unit::Box)
    }
}

/// Digits `d1 < d2 < d3` of `1..=9` each have exactly three places in row `h`, the same three.
pub open spec fn hidden_triplet_ok(s: Sudoku, h: int, d1: int, d2: int, d3: int) -> bool {
    &&& 1 <= d1 < d2 < d3 <= 9
    &&& locs(s, Unit::Row, h, d1).len() == 3
    &&& locs(s, Unit::Row, h, d2) == locs(s, Unit::Row, h, d1)
    &&& locs(s, Unit::Row, h, d3) == locs(s, Unit::Row, h, d1)
}

/// Search position `t`: row `t / 1000`, digits `(t / 100) % 10`, `(t / 10) % 10`, `t % 10`.
pub open spec fn hidden_triplet_at(s: Sudoku, t: int) -> bool {
    hidden_triplet_ok(s, t / 1000, (t / 100) % 10, (t / 10) % 10, t % 10)
}

/// The nine candidates of a hidden triplet: each place with each digit.
pub open spec fn hidden_triplet_cands(s: Sudoku, h: int, d1: int, d2: int, d3: int) -> Seq<Candidate> {
    let p = locs(s, Unit::Row, h, d1);
    seq![
        house_cand_at(Unit::Row, h, p[0], d1), house_cand_at(Unit::Row, h, p[0], d2), house_cand_at(Unit::Row, h, p[0], d3),
        house_cand_at(Unit::Row, h, p[1], d1), house_cand_at(Unit::Row, h, p[1], d2), house_cand_at(Unit::Row, h, p[1], d3),
        house_cand_at(Unit::Row, h, p[2], d1), house_cand_at(Unit::Row, h, p[2], d2), house_cand_at(Unit::Row, h, p[2], d3),
    ]
}

pub open spec fn hidden_triplet_affected(s: Sudoku, t: int) -> Seq<Candidate>
    decreases t,
{
    if t <= 0 {
        Seq::empty()
    } else if hidden_triplet_at(s, t - 1) {
        hidden_triplet_affected(s, t - 1) + hidden_triplet_cands(s, (t - 1) / 1000, ((t - 1) / 100) % 10, ((t - 1) / 10) % 10, (t - 1) % 10)
    } else {
        hidden_triplet_affected(s, t - 1)
    }
}

/// The other candidates of the triplet's three cells.
pub open spec fn hidden_triplet_removed(s: Sudoku, h: int, d1: int, d2: int, d3: int) -> Set<Candidate> {
    let p = locs(s, Unit::Row, h, d1);
    house_hits(s, Unit::Row, h, !three_bits(p[0] as u16, p[1] as u16, p[2] as u16), !three_bits(d1 as u16, d2 as u16, d3 as u16))
}

pub open spec fn hidden_triplet_removes(s: Sudoku, t: int) -> bool {
    let h = t / 1000;
    let d1 = (t / 100) % 10;
    let p = locs(s, Unit::Row, h, d1);
    hidden_triplet_at(s, t) && house_has(
        s,
        Unit::Row,
        h,
        !three_bits(p[0] as u16, p[1] as u16, p[2] as u16),
        !three_bits(d1 as u16, ((t / 10) % 10) as u16, (t % 10) as u16),
    )
}

pub open spec fn first_hidden_triplet(s: Sudoku) -> Option<int> {
    first_from(|t: int| hidden_triplet_removes(s, t), 0, 9000)
}

/// The rows looked at hold no candidate above 9 in their empty cells.
pub open spec fn hidden_triplet_defined(s: Sudoku) -> bool {
    let bound = match first_hidden_triplet(s) {
        Some(t) => t / 1000 + 1,
        None => 9,
    };
    forall|r: int, c: int, n: int|
        0 <= r < bound && 0 <= c < 9 && s.board[r][c] == EMPTY && #[trigger] s.cand(r, c, n) ==> n < 10
}

/// Hidden triplets in rows, rows in order and digit triples in increasing order: the first
/// whose cells have other candidates is the result, and those go. The candidates of every
/// triplet met so far are kept, as is done when nothing is found.
pub open spec fn hidden_triplet_view(s: Sudoku) -> RemovalView {
    match first_hidden_triplet(s) {
        None => RemovalView { candidates_affected: hidden_triplet_affected(s, 9000), ..empty_view() },
        Some(t) => RemovalView {
            candidates_affected: hidden_triplet_affected(s, t + 1),
            removed: hidden_triplet_removed(s, t / 1000, (t / 100) % 10, (t / 10) % 10, t % 10),
            unit: Some(Unit::Row),
            unit_index: Some(seq![(t / 1000) as usize]),
            ..empty_view()
        },
    }
}

impl Sudoku {
    /// The three places of digits `d1 < d2 < d3` when they form a hidden triplet in row `h`.
    fn hidden_triplet_places(&self, h: usize, d1: u8, d2: u8, d3: u8) -> (res: Option<(usize, usize, usize)>)
        requires
            h < 9,
        ensures
            res matches Some((a, b, c)) ==> hidden_triplet_ok(*self, h as int, d1 as int, d2 as int, d3 as int)
                && locs(*self, Unit::Row, h as int, d1 as int)[0] == a && locs(*self, Unit::Row, h as int, d1 as int)[1] == b
                && locs(*self, Unit::Row, h as int, d1 as int)[2] == c && a < 9 && b < 9 && c < 9,
            res is None ==> !hidden_triplet_ok(*self, h as int, d1 as int, d2 as int, d3 as int),
    {
        if !(1 <= d1 && d1 < d2 && d2 < d3 && d3 <= 9) {
            return None;
        }
        let l1 = self.empty_cells_with(Unit::Row, h, d1);
        let l2 = self.empty_cells_with(Unit::Row, h, d2);
        let l3 = self.empty_cells_with(Unit::Row, h, d3);
        proof {
            assert(ints(l1@).len() == l1@.len());
            assert(ints(l2@).len() == l2@.len());
            assert(ints(l3@).len() == l3@.len());
        }
        if l1.len() == 3 && l2.len() == 3 && l3.len() == 3 && l2[0] == l1[0] && l2[1] == l1[1] && l2[2] == l1[2]
            && l3[0] == l1[0] && l3[1] == l1[1] && l3[2] == l1[2] {
            proof {
                assert(ints(l2@) =~= ints(l1@));
                assert(ints(l3@) =~= ints(l1@));
            }
            return Some((l1[0], l1[1], l1[2]));
        }
        proof {
            if hidden_triplet_ok(*self, h as int, d1 as int, d2 as int, d3 as int) {
                assert(ints(l2@)[0] == ints(l1@)[0]);
                assert(ints(l2@)[1] == ints(l1@)[1]);
                assert(ints(l2@)[2] == ints(l1@)[2]);
                assert(ints(l3@)[0] == ints(l1@)[0]);
                assert(ints(l3@)[1] == ints(l1@)[1]);
                assert(ints(l3@)[2] == ints(l1@)[2]);
            }
        }
        None
    }

    /// Hidden triplets in rows; see `hidden_triplet_view`.
    pub fn find_hidden_triplet_in_rows(&self) -> (res: RemovalResult)
        requires
            hidden_triplet_defined(*self),
        ensures
            res.wf(),
            res@ == hidden_triplet_view(*self),
    {
        let ghost p = |t: int| hidden_triplet_removes(*self, t);
        let mut affected: Vec<Candidate> = Vec::new();
        let mut t: usize = 0;
        while t < 9000
            invariant
                t <= 9000,
                p == (|t: int| hidden_triplet_removes(*self, t)),
                first_hidden_triplet(*self) == first_from(p, t as int, 9000),
                affected@ == hidden_triplet_affected(*self, t as int),
            decreases 9000 - t,
        {
            let h = t / 1000;
            let d1: u8 = ((t / 100) % 10) as u8;
            let d2: u8 = ((t / 10) % 10) as u8;
            let d3: u8 = (t % 10) as u8;
            match self.hidden_triplet_places(h, d1, d2, d3) {
                Some((a, b, c)) => {
                    let ghost before = affected@;
                    affected.push(Candidate { row: h, col: a, num: d1 });
                    affected.push(Candidate { row: h, col: a, num: d2 });
                    affected.push(Candidate { row: h, col: a, num: d3 });
                    affected.push(Candidate { row: h, col: b, num: d1 });
                    affected.push(Candidate { row: h, col: b, num: d2 });
                    affected.push(Candidate { row: h, col: b, num: d3 });
                    affected.push(Candidate { row: h, col: c, num: d1 });
                    affected.push(Candidate { row: h, col: c, num: d2 });
                    affected.push(Candidate { row: h, col: c, num: d3 });
                    proof {
                        assert(hidden_triplet_at(*self, t as int));
                        assert(affected@ =~= before + hidden_triplet_cands(*self, h as int, d1 as int, d2 as int, d3 as int));
                    }
                    let outside: u16 = !((1u16 << (a as u16)) | (1u16 << (b as u16)) | (1u16 << (c as u16)));
                    let others: u16 = !((1u16 << (d1 as u16)) | (1u16 << (d2 as u16)) | (1u16 << (d3 as u16)));
                    let removed = self.collect_house(Unit::Row, h, outside, others);
                    if removed.len() > 0 {
                        proof {
                            assert(p(t as int));
                            lemma_first_hit(p, t as int, 9000);
                        }
                        let result = RemovalResult {
                            sets_cell: None,
                            cells_affected: Vec::new(),
                            candidates_affected: affected,
                            candidates_about_to_be_removed: removed,
                            unit: Some(Unit::Row),
                            unit_index: Some(vec![h]),
                        };
                        proof {
                            assert(result@.unit_index == Some(seq![h]));
                            assert(result@ =~= hidden_triplet_view(*self));
                        }
                        return result;
                    }
                },
                None => {
                    proof {
                        assert(!hidden_triplet_at(*self, t as int));
                    }
                },
            }
            proof {
                assert(!p(t as int));
                lemma_first_skip(p, t as int, 9000);
            }
            t = t + 1;
        }
        proof {
            lemma_first_end(p, 9000);
        }
        let mut result = RemovalResult::empty();
        result.candidates_affected = affected;
        proof {
            assert(result@ =~= hidden_triplet_view(*self));
        }
        result
    }

    /// The number of candidates of the cell at position `p`, when it is empty.
    fn triplet_cell_check(&self, u: Unit, h: usize, p: usize) -> (b: bool)
        requires
            h < 9,
            p < 9,
        ensures
            b == triplet_cell_ok(*self, u, h as int, p as int),
    {
        let (r, c) = Self::unit_cell(u, 9 * h + p);
        if self.board[r][c] != EMPTY {
            return false;
        }
        let d = mask_digit_list(self.candidates[r][c]);
        proof {
            assert(nums_of(d@).len() == d@.len());
        }
        1 <= d.len() && d.len() <= 3
    }

    /// The candidates of the three cells together, when they form an obvious triplet.
    fn triplet_union_of(&self, u: Unit, h: usize, i: usize, j: usize, k: usize) -> (res: Option<u16>)
        requires
            h < 9,
            i < 9,
            j < 9,
            k < 9,
        ensures
            res is Some <==> triplet_found(*self, u, h as int, i as int, j as int, k as int),
            res matches Some(m) ==> m == triplet_union(*self, u, h as int, i as int, j as int, k as int),
    {
        if !(i < j && j < k) {
            return None;
        }
        if !self.triplet_cell_check(u, h, i) || !self.triplet_cell_check(u, h, j) || !self.triplet_cell_check(u, h, k) {
            return None;
        }
        let (ri, ci) = Self::unit_cell(u, 9 * h + i);
        let (rj, cj) = Self::unit_cell(u, 9 * h + j);
        let (rk, ck) = Self::unit_cell(u, 9 * h + k);
        let m = self.candidates[ri][ci] | self.candidates[rj][cj] | self.candidates[rk][ck];
        let d = mask_digit_list(m);
        proof {
            assert(nums_of(d@).len() == d@.len());
        }
        if d.len() == 3 {
            Some(m)
        } else {
            None
        }
    }

    /// Append the candidates of the cell at position `p`, in increasing order.
    fn push_cell_cands(&self, v: &mut Vec<Candidate>, u: Unit, h: usize, p: usize)
        requires
            h < 9,
            p < 9,
        ensures
            final(v)@ == old(v)@ + cell_cands(u, h as int, p as int, house_mask(*self, u, h as int, p as int)),
    {
        let (r, c) = Self::unit_cell(u, 9 * h + p);
        let m = self.candidates[r][c];
        let d = mask_digit_list(m);
        let ghost start = v@;
        let mut x: usize = 0;
        while x < d.len()
            invariant
                x <= d@.len(),
                r == unit_cell_row(u, 9 * h + p),
                c == unit_cell_col(u, 9 * h + p),
                m == house_mask(*self, u, h as int, p as int),
                nums_of(d@) == mask_digits(m),
                v@ == start + cell_cands(u, h as int, p as int, m).take(x as int),
            decreases d@.len() - x,
        {
            v.push(Candidate { row: r, col: c, num: d[x] });
            proof {
                assert(nums_of(d@)[x as int] == d@[x as int]);
                assert(cell_cands(u, h as int, p as int, m).take(x + 1) =~= cell_cands(u, h as int, p as int, m).take(x as int).push(
                    Candidate { row: r, col: c, num: d@[x as int] },
                ));
                assert(v@ =~= start + cell_cands(u, h as int, p as int, m).take(x + 1));
            }
            x = x + 1;
        }
        proof {
            assert(cell_cands(u, h as int, p as int, m).take(d@.len() as int) =~= cell_cands(u, h as int, p as int, m));
        }
    }

    /// Obvious triplets in the houses of kind `u`; see `obvious_triplet_view`.
    fn find_obvious_triplet_in(&self, u: Unit) -> (res: RemovalResult)
        ensures
            res.wf(),
            res@ == obvious_triplet_view(*self, u),
    {
        let ghost p = |t: int| triplet_removes(*self, u, t / 729, (t / 81) % 9, (t / 9) % 9, t % 9);
        let mut affected: Vec<Candidate> = Vec::new();
        let mut t: usize = 0;
        while t < 6561
            invariant
                t <= 6561,
                p == (|t: int| triplet_removes(*self, u, t / 729, (t / 81) % 9, (t / 9) % 9, t % 9)),
                first_triplet(*self, u) == first_from(p, t as int, 6561),
                affected@ == triplet_affected(*self, u, t as int),
            decreases 6561 - t,
        {
            let h = t / 729;
            let i = (t / 81) % 9;
            let j = (t / 9) % 9;
            let k = t % 9;
            match self.triplet_union_of(u, h, i, j, k) {
                Some(m) => {
                    let ghost before = affected@;
                    self.push_cell_cands(&mut affected, u, h, i);
                    self.push_cell_cands(&mut affected, u, h, j);
                    self.push_cell_cands(&mut affected, u, h, k);
                    proof {
                        assert(triplet_found_at(*self, u, t as int));
                        assert(affected@ =~= before + triplet_cands(*self, u, h as int, i as int, j as int, k as int));
                    }
                    let skip: u16 = (1u16 << (i as u16)) | (1u16 << (j as u16)) | (1u16 << (k as u16));
                    let removed = self.collect_house(u, h, skip, m);
                    if removed.len() > 0 {
                        proof {
                            assert(p(t as int));
                            lemma_first_hit(p, t as int, 6561);
                        }
                        let result = RemovalResult {
                            sets_cell: None,
                            cells_affected: Vec::new(),
                            candidates_affected: affected,
                            candidates_about_to_be_removed: removed,
                            unit: Some(u),
                            unit_index: Some(vec![h]),
                        };
                        proof {
                            assert(result@.unit_index == Some(seq![h]));
                            assert(result@ =~= obvious_triplet_view(*self, u));
                        }
                        return result;
                    }
                },
                None => {
                    proof {
                        assert(!triplet_found_at(*self, u, t as int));
                    }
                },
            }
            proof {
                assert(!p(t as int));
                lemma_first_skip(p, t as int, 6561);
            }
            t = t + 1;
        }
        proof {
            lemma_first_end(p, 6561);
        }
        let mut result = RemovalResult::empty();
        result.candidates_affected = affected;
        proof {
            assert(result@ =~= obvious_triplet_view(*self, u));
        }
        result
    }

    /// Obvious triplets in rows.
    pub fn find_obvious_triplet_in_rows(&self) -> (res: RemovalResult)
        ensures
            res.wf(),
            res@ == obvious_triplet_view(*self, Unit::Row),
    {
        self.find_obvious_triplet_in(Unit::Row)
    }

    /// Obvious triplets in columns.
    pub fn find_obvious_triplet_in_cols(&self) -> (res: RemovalResult)
        ensures
            res.wf(),
            res@ == obvious_triplet_view(*self, Unit::Column),
    {
        self.find_obvious_triplet_in(Unit::Column)
    }

    /// Obvious triplets in boxes.
    pub fn find_obvious_triplet_in_boxes(&self) -> (res: RemovalResult)
        ensures
            res.wf(),
            res@ == obvious_triplet_view(*self, Unit::Box),
    {
        self.find_obvious_triplet_in(Unit::Box)
    }

    /// Obvious triplets: rows first, then columns, then boxes.
    pub fn find_obvious_triplet(&self) -> (res: StrategyResult)
        ensures
            res.strategy == Strategy::ObviousTriplet,
            res.removals.wf(),
            res.removals@ == obvious_triplet_strategy_view(*self),
    {
        proof {
            lemma_triplet_nonempty(*self, Unit::Row);
            lemma_triplet_nonempty(*self, Unit::Column);
        }
        let result = self.find_obvious_triplet_in_rows();
        if result.will_remove_candidates() {
            return StrategyResult { strategy: Strategy::ObviousTriplet, removals: result };
        }
        let result = self.find_obvious_triplet_in_cols();
        if result.will_remove_candidates() {
            return StrategyResult { strategy: Strategy::ObviousTriplet, removals: result };
        }
        let result = self.find_obvious_triplet_in_boxes();
        StrategyResult { strategy: Strategy::ObviousTriplet, removals: result }
    }
}

/// An obvious triplet result removes something exactly when one was found.
pub proof fn lemma_triplet_nonempty(s: Sudoku, u: Unit)
    ensures
        (obvious_triplet_view(s, u).removed != Set::<Candidate>::empty()) == (first_triplet(s, u) is Some),
{
    lemma_first_from(|t: int| triplet_removes(s, u, t / 729, (t / 81) % 9, (t / 9) % 9, t % 9), 0, 6561);
    if first_triplet(s, u) is Some {
        let t = first_triplet(s, u)->0;
        let h = t / 729;
        let i = (t / 81) % 9;
        let j = (t / 9) % 9;
        let k = t % 9;
        let x = choose|x: Candidate| #[trigger] house_hits(s, u, h, three_bits(i as u16, j as u16, k as u16), triplet_union(s, u, h, i, j, k)).contains(x);
        assert(obvious_triplet_view(s, u).removed.contains(x));
    }
}


/// The Obvious Triplet step agrees with the three searches: the rows' triplet when that
/// removes something, else the columns', else exactly what the boxes' search gives.
pub proof fn lemma_obvious_triplet_step(s: Sudoku)
    ensures
        obvious_triplet_view(s, Unit::Row).removed != Set::<Candidate>::empty() ==> obvious_triplet_strategy_view(s) == obvious_triplet_view(
            s,
            Unit::Row,
        ),
        obvious_triplet_view(s, Unit::Row).removed == Set::<Candidate>::empty() && obvious_triplet_view(s, Unit::Column).removed != Set::<Candidate>::empty()
            ==> obvious_triplet_strategy_view(s) == obvious_triplet_view(s, Unit::Column),
        obvious_triplet_view(s, Unit::Row).removed == Set::<Candidate>::empty() && obvious_triplet_view(s, Unit::Column).removed == Set::<Candidate>::empty()
            ==> obvious_triplet_strategy_view(s) == obvious_triplet_view(s, Unit::Box),
{
    lemma_triplet_nonempty(s, Unit::Row);
    lemma_triplet_nonempty(s, Unit::Column);
}

} // verus!
