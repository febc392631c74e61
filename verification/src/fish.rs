//! X-Wings: a digit with exactly the same two places in two rows (or columns) leaves
//! the rest of the two crossing columns (or rows).

use vstd::prelude::*;

use crate::board::Sudoku;
use crate::collect::{house_has, house_hits};
use crate::digits::{single_bit, two_bits};
use crate::pairs::{cand_at, cells_with_num};
use crate::search::{first_from, lemma_first_end, lemma_first_from, lemma_first_hit, lemma_first_skip};
use crate::singles::{unit_cell_col, unit_cell_row};
use crate::{empty_view, extend_candidates, Candidate, RemovalResult, RemovalView, Strategy, StrategyResult, Unit};

verus! {

/// Columns cross rows, and rows cross columns.
pub open spec fn cross(u: Unit) -> Unit {
    match u {
        Unit::Row => Unit::Column,
        _ => Unit::Row,
    }
}

/// The candidate `num` of the cell at position `p` of house `h` of kind `u`.
pub open spec fn house_cand_at(u: Unit, h: int, p: int, num: int) -> Candidate {
    cand_at(unit_cell_row(u, 9 * h + p), unit_cell_col(u, 9 * h + p), num)
}

/// The places of `num` in house `h` of kind `u`.
pub open spec fn places(s: Sudoku, u: Unit, h: int, num: int) -> Seq<int> {
    cells_with_num(s, u, h, num, 0, 9)
}

/// Houses `h1 < h2` of kind `u` have `num` in exactly the same two places.
pub open spec fn xwing_found(s: Sudoku, u: Unit, num: int, h1: int, h2: int) -> bool {
    &&& h1 < h2
    &&& places(s, u, h1, num).len() == 2
    &&& places(s, u, h2, num) == places(s, u, h1, num)
}

/// The candidates `num` of the two crossing houses, outside `h1` and `h2`.
pub open spec fn xwing_removed(s: Sudoku, u: Unit, num: int, h1: int, h2: int) -> Set<Candidate> {
    let p = places(s, u, h1, num);
    house_hits(s, cross(u), p[0], two_bits(h1 as u16, h2 as u16), single_bit(num as u16)).union(
        house_hits(s, cross(u), p[1], two_bits(h1 as u16, h2 as u16), single_bit(num as u16)),
    )
}

pub open spec fn xwing_removes(s: Sudoku, u: Unit, num: int, h1: int, h2: int) -> bool {
    let p = places(s, u, h1, num);
    xwing_found(s, u, num, h1, h2) && (house_has(s, cross(u), p[0], two_bits(h1 as u16, h2 as u16), single_bit(num as u16))
        || house_has(s, cross(u), p[1], two_bits(h1 as u16, h2 as u16), single_bit(num as u16)))
}

/// The four corners of the X-Wing.
pub open spec fn xwing_corners(s: Sudoku, u: Unit, num: int, h1: int, h2: int) -> Seq<Candidate> {
    let p = places(s, u, h1, num);
    seq![
        house_cand_at(u, h1, p[0], num),
        house_cand_at(u, h1, p[1], num),
        house_cand_at(u, h2, p[0], num),
        house_cand_at(u, h2, p[1], num),
    ]
}

pub open spec fn first_xwing(s: Sudoku, u: Unit) -> Option<int> {
    first_from(|t: int| xwing_removes(s, u, t / 81 + 1, (t / 9) % 9, t % 9), 0, 729)
}

/// X-Wings in the houses of kind `u`: digits in order, then the first house, then the
/// second. The first one that removes something is the result, with its four corners.
pub open spec fn xwing_view(s: Sudoku, u: Unit) -> RemovalView {
    match first_xwing(s, u) {
        None => empty_view(),
        Some(t) => RemovalView {
            candidates_affected: xwing_corners(s, u, t / 81 + 1, (t / 9) % 9, t % 9),
            removed: xwing_removed(s, u, t / 81 + 1, (t / 9) % 9, t % 9),
            unit: Some(u),
            unit_index: Some(seq![((t / 9) % 9) as usize, (t % 9) as usize]),
            ..empty_view()
        },
    }
}

/// Rows first, then columns; nothing at all when neither removes anything.
pub open spec fn xwing_strategy(s: Sudoku) -> (Strategy, RemovalView) {
    if first_xwing(s, Unit::Row) is Some {
        (Strategy::XWing, xwing_view(s, Unit::Row))
    } else if first_xwing(s, Unit::Column) is Some {
        (Strategy::XWing, xwing_view(s, Unit::Column))
    } else {
        (Strategy::NoStrategy, empty_view())
    }
}

impl Sudoku {
    /// X-Wings in the houses of kind `u`, rows or columns; see `xwing_view`.
    fn find_xwing_in(&self, u: Unit) -> (res: RemovalResult)
        requires
            u != Unit::Box,
        ensures
            res.wf(),
            res@ == xwing_view(*self, u),
    {
        let ghost p = |t: int| xwing_removes(*self, u, t / 81 + 1, (t / 9) % 9, t % 9);
        let cu = match u {
            Unit::Row => Unit::Column,
            _ => Unit::Row,
        };
        let mut t: usize = 0;
        while t < 729
            invariant
                t <= 729,
                cu == cross(u),
                p == (|t: int| xwing_removes(*self, u, t / 81 + 1, (t / 9) % 9, t % 9)),
                first_xwing(*self, u) == first_from(p, t as int, 729),
            decreases 729 - t,
        {
            let num: u8 = (t / 81 + 1) as u8;
            let h1 = (t / 9) % 9;
            let h2 = t % 9;
            match self.xwing_places(u, num, h1, h2) {
                Some((a, b)) => {
                    let removed = self.xwing_removals(u, cu, num, h1, h2, a, b);
                    if removed.len() > 0 {
                        let (a1, b1) = Self::unit_cell(u, 9 * h1 + a);
                        let (a2, b2) = Self::unit_cell(u, 9 * h1 + b);
                        let (a3, b3) = Self::unit_cell(u, 9 * h2 + a);
                        let (a4, b4) = Self::unit_cell(u, 9 * h2 + b);
                        let affected = vec![
                            Candidate { row: a1, col: b1, num },
                            Candidate { row: a2, col: b2, num },
                            Candidate { row: a3, col: b3, num },
                            Candidate { row: a4, col: b4, num },
                        ];
                        proof {
                            assert(p(t as int));
                            lemma_first_hit(p, t as int, 729);
                        }
                        let result = RemovalResult {
                            sets_cell: None,
                            cells_affected: Vec::new(),
                            candidates_affected: affected,
                            candidates_about_to_be_removed: removed,
                            unit: Some(u),
                            unit_index: Some(vec![h1, h2]),
                        };
                        proof {
                            assert(result@.unit_index == Some(seq![h1, h2]));
                            assert(result@ =~= xwing_view(*self, u));
                        }
                        return result;
                    }
                },
                None => {},
            }
            proof {
                assert(!p(t as int));
                lemma_first_skip(p, t as int, 729);
            }
            t = t + 1;
        }
        proof {
            lemma_first_end(p, 729);
        }
        RemovalResult::empty()
    }

    /// The two places of `num` in house `h1`, when houses `h1 < h2` of kind `u` have `num`
    /// in exactly the same two places.
    fn xwing_places(&self, u: Unit, num: u8, h1: usize, h2: usize) -> (res: Option<(usize, usize)>)
        requires
            h1 < 9,
            h2 < 9,
        ensures
            res matches Some((a, b)) ==> xwing_found(*self, u, num as int, h1 as int, h2 as int) && places(*self, u, h1 as int, num as int)[0] == a
                && places(*self, u, h1 as int, num as int)[1] == b && a < 9 && b < 9,
            res is None ==> !xwing_found(*self, u, num as int, h1 as int, h2 as int),
    {
        if h1 >= h2 {
            return None;
        }
        let p1 = self.cells_with(u, h1, num, 0, 9);
        let p2 = self.cells_with(u, h2, num, 0, 9);
        proof {
            assert(crate::search::ints(p1@).len() == p1@.len());
            assert(crate::search::ints(p2@).len() == p2@.len());
        }
        if p1.len() == 2 && p2.len() == 2 && p2[0] == p1[0] && p2[1] == p1[1] {
            proof {
                assert(crate::search::ints(p2@) =~= crate::search::ints(p1@));
            }
            return Some((p1[0], p1[1]));
        }
        proof {
            if xwing_found(*self, u, num as int, h1 as int, h2 as int) {
                assert(crate::search::ints(p2@)[0] == crate::search::ints(p1@)[0]);
                assert(crate::search::ints(p2@)[1] == crate::search::ints(p1@)[1]);
            }
        }
        None
    }

    /// The candidates an X-Wing removes; see `xwing_removed`.
    fn xwing_removals(&self, u: Unit, cu: Unit, num: u8, h1: usize, h2: usize, a: usize, b: usize) -> (v: Vec<Candidate>)
        requires
            cu == cross(u),
            num < 16,
            h1 < 9,
            h2 < 9,
            xwing_found(*self, u, num as int, h1 as int, h2 as int),
            places(*self, u, h1 as int, num as int)[0] == a,
            places(*self, u, h1 as int, num as int)[1] == b,
        ensures
            v@.no_duplicates(),
            v@.to_set() == xwing_removed(*self, u, num as int, h1 as int, h2 as int),
            (v@.len() > 0) == xwing_removes(*self, u, num as int, h1 as int, h2 as int),
    {
        let skip: u16 = (1u16 << (h1 as u16)) | (1u16 << (h2 as u16));
        let nums: u16 = 1u16 << (num as u16);
        let mut removed = self.collect_house(cu, a, skip, nums);
        let more = self.collect_house(cu, b, skip, nums);
        let ghost first_part = removed@;
        extend_candidates(&mut removed, &more);
        proof {
            assert(removed@.to_set() =~= first_part.to_set().union(more@.to_set()));
            if first_part.len() > 0 {
                assert(removed@.contains(first_part[0]));
            }
            if more@.len() > 0 {
                assert(removed@.contains(more@[0]));
            }
            if removed@.len() > 0 {
                assert(removed@.contains(removed@[0]));
            }
        }
        removed
    }

    /// X-Wings in rows.
    pub fn find_xwing_in_rows(&self) -> (res: RemovalResult)
        ensures
            res.wf(),
            res@ == xwing_view(*self, Unit::Row),
    {
        self.find_xwing_in(Unit::Row)
    }

    /// X-Wings in columns.
    pub fn find_xwing_in_cols(&self) -> (res: RemovalResult)
        ensures
            res.wf(),
            res@ == xwing_view(*self, Unit::Column),
    {
        self.find_xwing_in(Unit::Column)
    }

    /// X-Wings: rows first, then columns.
    pub fn find_xwing(&self) -> (res: StrategyResult)
        ensures
            res.strategy == xwing_strategy(*self).0,
            res.removals.wf(),
            res.removals@ == xwing_strategy(*self).1,
    {
        proof {
            lemma_xwing_nonempty(*self, Unit::Row);
            lemma_xwing_nonempty(*self, Unit::Column);
        }
        let result = self.find_xwing_in_rows();
        if result.will_remove_candidates() {
            return StrategyResult { strategy: Strategy::XWing, removals: result };
        }
        let result = self.find_xwing_in_cols();
        if result.will_remove_candidates() {
            return StrategyResult { strategy: Strategy::XWing, removals: result };
        }
        StrategyResult::empty()
    }
}

/// An X-Wing result removes something exactly when one was found.
pub proof fn lemma_xwing_nonempty(s: Sudoku, u: Unit)
    ensures
        (xwing_view(s, u).removed != Set::<Candidate>::empty()) == (first_xwing(s, u) is Some),
{
    lemma_first_from(|t: int| xwing_removes(s, u, t / 81 + 1, (t / 9) % 9, t % 9), 0, 729);
    if first_xwing(s, u) is Some {
        let t = first_xwing(s, u)->0;
        let num = t / 81 + 1;
        let h1 = (t / 9) % 9;
        let h2 = t % 9;
        let p = places(s, u, h1, num);
        let skip = two_bits(h1 as u16, h2 as u16);
        let nums = single_bit(num as u16);
        if house_has(s, cross(u), p[0], skip, nums) {
            let x = choose|x: Candidate| #[trigger] house_hits(s, cross(u), p[0], skip, nums).contains(x);
            assert(xwing_view(s, u).removed.contains(x));
        } else {
            let x = choose|x: Candidate| #[trigger] house_hits(s, cross(u), p[1], skip, nums).contains(x);
            assert(xwing_view(s, u).removed.contains(x));
        }
    }
}


/// The X-Wing step agrees with the two searches: it gives the rows' X-Wing when that
/// removes something, otherwise what the columns' X-Wing removes, and it is an X-Wing step
/// whenever either search removes something.
pub proof fn lemma_xwing_step(s: Sudoku)
    ensures
        xwing_view(s, Unit::Row).removed != Set::<Candidate>::empty() ==> xwing_strategy(s) == (Strategy::XWing, xwing_view(s, Unit::Row)),
        xwing_view(s, Unit::Row).removed == Set::<Candidate>::empty() ==> xwing_strategy(s).1.removed == xwing_view(s, Unit::Column).removed,
        xwing_view(s, Unit::Row).removed == Set::<Candidate>::empty() && xwing_view(s, Unit::Column).removed != Set::<Candidate>::empty()
            ==> xwing_strategy(s) == (Strategy::XWing, xwing_view(s, Unit::Column)),
        (xwing_strategy(s).0 == Strategy::XWing) == (xwing_strategy(s).1.removed != Set::<Candidate>::empty()),
{
    lemma_xwing_nonempty(s, Unit::Row);
    lemma_xwing_nonempty(s, Unit::Column);
}

pub(crate) proof fn lemma_index_parts(a: int, b: int, c: int)
    requires
        0 <= a < 9,
        0 <= b < 9,
        0 <= c < 9,
    ensures
        (81 * a + 9 * b + c) / 81 == a,
        ((81 * a + 9 * b + c) / 9) % 9 == b,
        (81 * a + 9 * b + c) % 9 == c,
        0 <= 81 * a + 9 * b + c < 729,
{
    assert((81 * a + 9 * b + c) / 9 == 9 * a + b);
}

/// No X-Wing that removes something is missed: when two rows (or two columns) hold the
/// digit in exactly the same two places, and a third cell of one of the two crossing lines
/// has it, the X-Wing step is taken and removes something.
pub proof fn lemma_xwing_seen(s: Sudoku, u: Unit, num: int, h1: int, h2: int)
    requires
        u != Unit::Box,
        1 <= num <= 9,
        0 <= h1 < 9,
        0 <= h2 < 9,
        xwing_removes(s, u, num, h1, h2),
    ensures
        xwing_strategy(s).0 == Strategy::XWing,
        xwing_strategy(s).1.removed != Set::<Candidate>::empty(),
{
    lemma_xwing_search_finds(s, u, num, h1, h2);
    lemma_xwing_nonempty(s, Unit::Row);
    lemma_xwing_nonempty(s, Unit::Column);
}


/// What the X-Wing step removes is the work of a real X-Wing: two rows (or columns) that
/// hold the digit in exactly the same two places, the digit leaving the rest of the two
/// crossing lines.
pub proof fn lemma_xwing_real(s: Sudoku)
    ensures
        xwing_strategy(s).1.removed != Set::<Candidate>::empty() ==> exists|u: Unit, num: int, h1: int, h2: int|
            u != Unit::Box && 1 <= num <= 9 && 0 <= h1 < 9 && 0 <= h2 < 9 && #[trigger] xwing_removes(s, u, num, h1, h2)
                && xwing_strategy(s).1.removed == xwing_removed(s, u, num, h1, h2),
{
    lemma_xwing_nonempty(s, Unit::Row);
    lemma_xwing_nonempty(s, Unit::Column);
    let u = if first_xwing(s, Unit::Row) is Some { Unit::Row } else { Unit::Column };
    if let Some(t) = first_xwing(s, u) {
        lemma_first_from(|t: int| xwing_removes(s, u, t / 81 + 1, (t / 9) % 9, t % 9), 0, 729);
        assert(xwing_removes(s, u, t / 81 + 1, (t / 9) % 9, t % 9));
    }
}


/// An X-Wing that removes something makes the search of its kind of houses find one.
pub proof fn lemma_xwing_search_finds(s: Sudoku, u: Unit, num: int, h1: int, h2: int)
    requires
        1 <= num <= 9,
        0 <= h1 < 9,
        0 <= h2 < 9,
        xwing_removes(s, u, num, h1, h2),
    ensures
        first_xwing(s, u) is Some,
{
    let t = 81 * (num - 1) + 9 * h1 + h2;
    lemma_index_parts(num - 1, h1, h2);
    let p = |t: int| xwing_removes(s, u, t / 81 + 1, (t / 9) % 9, t % 9);
    assert(p(t));
    lemma_first_from(p, 0, 729);
}

} // verus!
