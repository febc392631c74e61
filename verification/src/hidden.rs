//! Hidden pairs: two digits that, in a house, only two empty cells can take, and the
//! same two cells for both; those cells lose every other digit.

use vstd::prelude::*;

use crate::board::Sudoku;
use crate::collect::{house_has, house_hits};
use crate::digits::{two_bits, ALL_DIGITS};
use crate::fish::house_cand_at;
use crate::search::{first_from, ints, lemma_first_end, lemma_first_from, lemma_first_hit, lemma_first_skip, lemma_ints_push, select};
use crate::singles::{unit_cell_col, unit_cell_row};
use crate::{empty_view, Candidate, RemovalResult, RemovalView, Strategy, StrategyResult, Unit, EMPTY};

verus! {

/// The positions of house `h` of kind `u` whose cell is empty and has the candidate `d`.
pub open spec fn locs(s: Sudoku, u: Unit, h: int, d: int) -> Seq<int> {
    select(
        |p: int|
            s.board[unit_cell_row(u, 9 * h + p)][unit_cell_col(u, 9 * h + p)] == EMPTY && s.cand(
                unit_cell_row(u, 9 * h + p),
                unit_cell_col(u, 9 * h + p),
                d,
            ),
        0,
        9,
    )
}

/// Digits `d1 < d2` each have exactly two places in the house, the same two.
pub open spec fn hidden_pair_ok(s: Sudoku, u: Unit, h: int, d1: int, d2: int) -> bool {
    &&& d1 < d2
    &&& locs(s, u, h, d1).len() == 2
    &&& locs(s, u, h, d2) == locs(s, u, h, d1)
}

/// The four candidates of a hidden pair.
pub open spec fn hidden_pair_cands(s: Sudoku, u: Unit, h: int, d1: int, d2: int) -> Seq<Candidate> {
    let p = locs(s, u, h, d1);
    seq![
        house_cand_at(u, h, p[0], d1),
        house_cand_at(u, h, p[0], d2),
        house_cand_at(u, h, p[1], d1),
        house_cand_at(u, h, p[1], d2),
    ]
}

/// The candidates of the hidden pairs among the first `t` digit pairs (`d1 = t / 16`,
/// `d2 = t % 16`) of house `h`.
pub open spec fn hidden_pairs_upto(s: Sudoku, u: Unit, h: int, t: int) -> Seq<Candidate>
    decreases t,
{
    if t <= 0 {
        Seq::empty()
    } else if hidden_pair_ok(s, u, h, (t - 1) / 16, (t - 1) % 16) {
        hidden_pairs_upto(s, u, h, t - 1) + hidden_pair_cands(s, u, h, (t - 1) / 16, (t - 1) % 16)
    } else {
        hidden_pairs_upto(s, u, h, t - 1)
    }
}

/// The candidates of all hidden pairs of the first `h` houses.
pub open spec fn hidden_affected_upto(s: Sudoku, u: Unit, h: int) -> Seq<Candidate>
    decreases h,
{
    if h <= 0 {
        Seq::empty()
    } else {
        hidden_affected_upto(s, u, h - 1) + hidden_pairs_upto(s, u, h - 1, 256)
    }
}

/// The positions other than the pair's two places.
pub open spec fn outside_pair(s: Sudoku, u: Unit, h: int, d1: int) -> u16 {
    let p = locs(s, u, h, d1);
    !two_bits(p[0] as u16, p[1] as u16)
}

/// The digits `1..=9` other than the pair's.
pub open spec fn other_digits(d1: int, d2: int) -> u16 {
    ALL_DIGITS & !two_bits(d1 as u16, d2 as u16)
}

/// A hidden pair's two cells lose their other digits `1..=9`.
pub open spec fn hidden_pair_removed(s: Sudoku, u: Unit, h: int, d1: int, d2: int) -> Set<Candidate> {
    house_hits(s, u, h, outside_pair(s, u, h, d1), other_digits(d1, d2))
}

pub open spec fn hidden_pair_removes(s: Sudoku, u: Unit, h: int, d1: int, d2: int) -> bool {
    hidden_pair_ok(s, u, h, d1, d2) && house_has(s, u, h, outside_pair(s, u, h, d1), other_digits(d1, d2))
}

/// The first hidden pair of house `h` that removes something.
pub open spec fn first_hidden_pair(s: Sudoku, u: Unit, h: int) -> Option<int> {
    first_from(|t: int| hidden_pair_removes(s, u, h, t / 16, t % 16), 0, 256)
}

pub open spec fn first_hidden_pair_house(s: Sudoku, u: Unit) -> Option<int> {
    first_from(|h: int| first_hidden_pair(s, u, h) is Some, 0, 9)
}

/// Hidden pairs in the houses of kind `u`, houses in order and digit pairs in increasing
/// order: the first that removes something is the result. The candidates of every hidden
/// pair of the houses looked at are kept, whether they removed anything or not.
pub open spec fn hidden_pair_view(s: Sudoku, u: Unit) -> RemovalView {
    match first_hidden_pair_house(s, u) {
        None => RemovalView { candidates_affected: hidden_affected_upto(s, u, 9), ..empty_view() },
        Some(h) => {
            let t = first_hidden_pair(s, u, h)->0;
            RemovalView {
                candidates_affected: hidden_affected_upto(s, u, h + 1),
                removed: hidden_pair_removed(s, u, h, t / 16, t % 16),
                unit: Some(u),
                unit_index: Some(seq![h as usize]),
                ..empty_view()
            }
        },
    }
}

/// Rows first, then columns, then boxes.
pub open spec fn hidden_pair_strategy_view(s: Sudoku) -> RemovalView {
    if first_hidden_pair_house(s, Unit::Row) is Some {
        hidden_pair_view(s, Unit::Row)
    } else if first_hidden_pair_house(s, Unit::Column) is Some {
        hidden_pair_view(s, Unit::Column)
    } else {
        hidden_pair_view(s, Unit::Box)
    }
}

impl Sudoku {
    /// The positions of house `h` of kind `u` whose cell is empty and has the candidate `d`.
    pub(crate) fn empty_cells_with(&self, u: Unit, h: usize, d: u8) -> (v: Vec<usize>)
        requires
            h < 9,
        ensures
            ints(v@) == locs(*self, u, h as int, d as int),
            forall|j: int| 0 <= j < v@.len() ==> #[trigger] v@[j] < 9,
    {
        let ghost p = |p: int|
            self.board[unit_cell_row(u, 9 * h + p)][unit_cell_col(u, 9 * h + p)] == EMPTY && self.cand(
                unit_cell_row(u, 9 * h + p),
                unit_cell_col(u, 9 * h + p),
                d as int,
            );
        let mut v: Vec<usize> = Vec::new();
        let mut i: usize = 0;
        while i < 9
            invariant
                h < 9,
                i <= 9,
                p == (|p: int|
                    self.board[unit_cell_row(u, 9 * h + p)][unit_cell_col(u, 9 * h + p)] == EMPTY && self.cand(
                        unit_cell_row(u, 9 * h + p),
                        unit_cell_col(u, 9 * h + p),
                        d as int,
                    )),
                ints(v@) == select(p, 0, i as int),
                forall|j: int| 0 <= j < v@.len() ==> #[trigger] v@[j] < i,
            decreases 9 - i,
        {
            let (r, c) = Self::unit_cell(u, 9 * h + i);
            if self.board[r][c] == EMPTY && crate::digits::mask_has(self.candidates[r][c], d) {
                proof {
                    lemma_ints_push(v@, i);
                }
                v.push(i);
            }
            i = i + 1;
        }
        v
    }

    /// The two places of digits `d1 < d2` when they form a hidden pair in house `h`.
    fn hidden_pair_places(&self, u: Unit, h: usize, d1: u8, d2: u8) -> (res: Option<(usize, usize)>)
        requires
            h < 9,
        ensures
            res matches Some((a, b)) ==> hidden_pair_ok(*self, u, h as int, d1 as int, d2 as int) && locs(*self, u, h as int, d1 as int)[0] == a
                && locs(*self, u, h as int, d1 as int)[1] == b && a < 9 && b < 9,
            res is None ==> !hidden_pair_ok(*self, u, h as int, d1 as int, d2 as int),
    {
        if d1 >= d2 {
            return None;
        }
        let l1 = self.empty_cells_with(u, h, d1);
        let l2 = self.empty_cells_with(u, h, d2);
        proof {
            assert(ints(l1@).len() == l1@.len());
            assert(ints(l2@).len() == l2@.len());
        }
        if l1.len() == 2 && l2.len() == 2 && l2[0] == l1[0] && l2[1] == l1[1] {
            proof {
                assert(ints(l2@) =~= ints(l1@));
            }
            return Some((l1[0], l1[1]));
        }
        proof {
            if hidden_pair_ok(*self, u, h as int, d1 as int, d2 as int) {
                assert(ints(l2@)[0] == ints(l1@)[0]);
                assert(ints(l2@)[1] == ints(l1@)[1]);
            }
        }
        None
    }

    /// The candidates of all hidden pairs of house `h`, in digit-pair order.
    fn hidden_pairs_of_house(&self, u: Unit, h: usize) -> (v: Vec<Candidate>)
        requires
            h < 9,
        ensures
            v@ == hidden_pairs_upto(*self, u, h as int, 256),
    {
        let mut v: Vec<Candidate> = Vec::new();
        let mut t: usize = 0;
        while t < 256
            invariant
                h < 9,
                t <= 256,
                v@ == hidden_pairs_upto(*self, u, h as int, t as int),
            decreases 256 - t,
        {
            let d1: u8 = (t / 16) as u8;
            let d2: u8 = (t % 16) as u8;
            match self.hidden_pair_places(u, h, d1, d2) {
                Some((a, b)) => {
                    let (r1, c1) = Self::unit_cell(u, 9 * h + a);
                    let (r2, c2) = Self::unit_cell(u, 9 * h + b);
                    let ghost before = v@;
                    v.push(Candidate { row: r1, col: c1, num: d1 });
                    v.push(Candidate { row: r1, col: c1, num: d2 });
                    v.push(Candidate { row: r2, col: c2, num: d1 });
                    v.push(Candidate { row: r2, col: c2, num: d2 });
                    proof {
                        assert(v@ =~= before + hidden_pair_cands(*self, u, h as int, d1 as int, d2 as int));
                    }
                },
                None => {},
            }
            t = t + 1;
        }
        v
    }

    /// The candidates removed by the first hidden pair of house `h` that removes something.
    fn hidden_pair_in_house(&self, u: Unit, h: usize) -> (res: Option<Vec<Candidate>>)
        requires
            h < 9,
        ensures
            res is None <==> first_hidden_pair(*self, u, h as int) is None,
            res matches Some(v) ==> v@.no_duplicates() && v@.to_set() == hidden_pair_removed(
                *self,
                u,
                h as int,
                first_hidden_pair(*self, u, h as int)->0 / 16,
                first_hidden_pair(*self, u, h as int)->0 % 16,
            ),
    {
        let ghost p = |t: int| hidden_pair_removes(*self, u, h as int, t / 16, t % 16);
        let mut t: usize = 0;
        while t < 256
            invariant
                h < 9,
                t <= 256,
                p == (|t: int| hidden_pair_removes(*self, u, h as int, t / 16, t % 16)),
                first_hidden_pair(*self, u, h as int) == first_from(p, t as int, 256),
            decreases 256 - t,
        {
            let d1: u8 = (t / 16) as u8;
            let d2: u8 = (t % 16) as u8;
            match self.hidden_pair_places(u, h, d1, d2) {
                Some((a, b)) => {
                    let outside: u16 = !((1u16 << (a as u16)) | (1u16 << (b as u16)));
                    let others: u16 = ALL_DIGITS & !((1u16 << (d1 as u16)) | (1u16 << (d2 as u16)));
                    let removed = self.collect_house(u, h, outside, others);
                    if removed.len() > 0 {
                        proof {
                            assert(p(t as int));
                            lemma_first_hit(p, t as int, 256);
                        }
                        return Some(removed);
                    }
                },
                None => {},
            }
            proof {
                assert(!p(t as int));
                lemma_first_skip(p, t as int, 256);
            }
            t = t + 1;
        }
        proof {
            lemma_first_end(p, 256);
        }
        None
    }

    /// Hidden pairs in the houses of kind `u`; see `hidden_pair_view`.
    fn find_hidden_pair_in(&self, u: Unit) -> (res: RemovalResult)
        ensures
            res.wf(),
            res@ == hidden_pair_view(*self, u),
    {
        let ghost p = |h: int| first_hidden_pair(*self, u, h) is Some;
        let mut affected: Vec<Candidate> = Vec::new();
        let mut h: usize = 0;
        while h < 9
            invariant
                h <= 9,
                p == (|h: int| first_hidden_pair(*self, u, h) is Some),
                first_hidden_pair_house(*self, u) == first_from(p, h as int, 9),
                affected@ == hidden_affected_upto(*self, u, h as int),
            decreases 9 - h,
        {
            let mut pairs = self.hidden_pairs_of_house(u, h);
            affected.append(&mut pairs);
            match self.hidden_pair_in_house(u, h) {
                Some(removed) => {
                    proof {
                        lemma_first_hit(p, h as int, 9);
                    }
                    let result = RemovalResult {
                        sets_cell: None,
                        cells_affected: Vec::new(),
                        candidates_affected: affected,
                        candidates_about_to_be_removed: removed,
                        unit: Some(u),
                        unit_index: Some(vec![h]),
                    };
                    proof {
                        assert(result@.unit_index == Some(seq![h]));
                        assert(result@ =~= hidden_pair_view(*self, u));
                    }
                    return result;
                },
                None => {
                    proof {
                        lemma_first_skip(p, h as int, 9);
                    }
                },
            }
            h = h + 1;
        }
        proof {
            lemma_first_end(p, 9);
        }
        let mut result = RemovalResult::empty();
        result.candidates_affected = affected;
        proof {
            assert(result@ =~= hidden_pair_view(*self, u));
        }
        result
    }

    /// Hidden pairs in rows.
    pub fn find_hidden_pair_in_rows(&self) -> (res: RemovalResult)
        ensures
            res.wf(),
            res@ == hidden_pair_view(*self, Unit::Row),
    {
        self.find_hidden_pair_in(Unit::Row)
    }

    /// Hidden pairs in columns.
    pub fn find_hidden_pair_in_cols(&self) -> (res: RemovalResult)
        ensures
            res.wf(),
            res@ == hidden_pair_view(*self, Unit::Column),
    {
        self.find_hidden_pair_in(Unit::Column)
    }

    /// Hidden pairs in boxes.
    pub fn find_hidden_pair_in_boxes(&self) -> (res: RemovalResult)
        ensures
            res.wf(),
            res@ == hidden_pair_view(*self, Unit::Box),
    {
        self.find_hidden_pair_in(Unit::Box)
    }

    /// Hidden pairs: rows first, then columns, then boxes.
    pub fn find_hidden_pair(&self) -> (res: StrategyResult)
        ensures
            res.strategy == Strategy::HiddenPair,
            res.removals.wf(),
            res.removals@ == hidden_pair_strategy_view(*self),
    {
        proof {
            lemma_hidden_pair_nonempty(*self, Unit::Row);
            lemma_hidden_pair_nonempty(*self, Unit::Column);
        }
        let removal_result = self.find_hidden_pair_in_rows();
        if removal_result.will_remove_candidates() {
            return StrategyResult { strategy: Strategy::HiddenPair, removals: removal_result };
        }
        let removal_result = self.find_hidden_pair_in_cols();
        if removal_result.will_remove_candidates() {
            return StrategyResult { strategy: Strategy::HiddenPair, removals: removal_result };
        }
        let removal_result = self.find_hidden_pair_in_boxes();
        StrategyResult { strategy: Strategy::HiddenPair, removals: removal_result }
    }
}

/// A hidden pair result removes something exactly when one was found.
pub proof fn lemma_hidden_pair_nonempty(s: Sudoku, u: Unit)
    ensures
        (hidden_pair_view(s, u).removed != Set::<Candidate>::empty()) == (first_hidden_pair_house(s, u) is Some),
{
    lemma_first_from(|h: int| first_hidden_pair(s, u, h) is Some, 0, 9);
    if first_hidden_pair_house(s, u) is Some {
        let h = first_hidden_pair_house(s, u)->0;
        lemma_first_from(|t: int| hidden_pair_removes(s, u, h, t / 16, t % 16), 0, 256);
        let t = first_hidden_pair(s, u, h)->0;
        let x = choose|x: Candidate| #[trigger] house_hits(s, u, h, outside_pair(s, u, h, t / 16), other_digits(t / 16, t % 16)).contains(x);
        assert(hidden_pair_view(s, u).removed.contains(x));
    }
}


/// The Hidden Pair step agrees with the three searches: the rows' hidden pair when that
/// removes something, else the columns', else exactly what the boxes' search gives.
pub proof fn lemma_hidden_pair_step(s: Sudoku)
    ensures
        hidden_pair_view(s, Unit::Row).removed != Set::<Candidate>::empty() ==> hidden_pair_strategy_view(s) == hidden_pair_view(s, Unit::Row),
        hidden_pair_view(s, Unit::Row).removed == Set::<Candidate>::empty() && hidden_pair_view(s, Unit::Column).removed != Set::<
            Candidate,
        >::empty() ==> hidden_pair_strategy_view(s) == hidden_pair_view(s, Unit::Column),
        hidden_pair_view(s, Unit::Row).removed == Set::<Candidate>::empty() && hidden_pair_view(s, Unit::Column).removed == Set::<
            Candidate,
        >::empty() ==> hidden_pair_strategy_view(s) == hidden_pair_view(s, Unit::Box),
{
    lemma_hidden_pair_nonempty(s, Unit::Row);
    lemma_hidden_pair_nonempty(s, Unit::Column);
}

/// No hidden pair that removes something is missed: when two digits of a row, a column
/// or a box have the same two empty cells as their only places there, and those cells
/// hold another candidate, the Hidden Pair step removes something.
pub proof fn lemma_hidden_pair_seen(s: Sudoku, u: Unit, h: int, d1: int, d2: int)
    requires
        0 <= h < 9,
        0 <= d1 < 16,
        0 <= d2 < 16,
        hidden_pair_removes(s, u, h, d1, d2),
    ensures
        hidden_pair_strategy_view(s).removed != Set::<Candidate>::empty(),
{
    lemma_hidden_pair_search_finds(s, u, h, d1, d2);
    lemma_hidden_pair_nonempty(s, Unit::Row);
    lemma_hidden_pair_nonempty(s, Unit::Column);
    lemma_hidden_pair_nonempty(s, Unit::Box);
}


/// What the Hidden Pair step removes is the work of a real hidden pair: two digits whose
/// only places in a row, a column or a box are the same two cells, which lose their other
/// candidates.
pub proof fn lemma_hidden_pair_real(s: Sudoku)
    ensures
        hidden_pair_strategy_view(s).removed != Set::<Candidate>::empty() ==> exists|u: Unit, h: int, d1: int, d2: int|
            0 <= h < 9 && #[trigger] hidden_pair_removes(s, u, h, d1, d2) && hidden_pair_strategy_view(s).removed
                == hidden_pair_removed(s, u, h, d1, d2),
{
    lemma_hidden_pair_nonempty(s, Unit::Row);
    lemma_hidden_pair_nonempty(s, Unit::Column);
    lemma_hidden_pair_nonempty(s, Unit::Box);
    let u = if first_hidden_pair_house(s, Unit::Row) is Some {
        Unit::Row
    } else if first_hidden_pair_house(s, Unit::Column) is Some {
        Unit::Column
    } else {
        Unit::Box
    };
    if let Some(h) = first_hidden_pair_house(s, u) {
        lemma_first_from(|h: int| first_hidden_pair(s, u, h) is Some, 0, 9);
        lemma_first_from(|t: int| hidden_pair_removes(s, u, h, t / 16, t % 16), 0, 256);
        let t = first_hidden_pair(s, u, h)->0;
        assert(hidden_pair_removes(s, u, h, t / 16, t % 16));
    }
}


/// A hidden pair that removes something makes the search of its kind of houses find one.
pub proof fn lemma_hidden_pair_search_finds(s: Sudoku, u: Unit, h: int, d1: int, d2: int)
    requires
        0 <= h < 9,
        0 <= d1 < 16,
        0 <= d2 < 16,
        hidden_pair_removes(s, u, h, d1, d2),
    ensures
        first_hidden_pair_house(s, u) is Some,
{
    let t = 16 * d1 + d2;
    assert(t / 16 == d1 && t % 16 == d2 && 0 <= t < 256);
    let p = |t: int| hidden_pair_removes(s, u, h, t / 16, t % 16);
    assert(p(t));
    lemma_first_from(p, 0, 256);
    let ph = |h: int| first_hidden_pair(s, u, h) is Some;
    assert(ph(h));
    lemma_first_from(ph, 0, 9);
}

} // verus!
