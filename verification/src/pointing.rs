//! Pointing pairs of the first solver: every line is looked at in turn, each digit in
//! turn, and each pair found acts on the notes at once, so that later lines see what
//! earlier ones took away.

use vstd::prelude::*;

use crate::board::{box_of, in_grid, Sudoku as Puzzle};
use crate::collect::{house_hits, house_pos, in_house};
use crate::digits::{in_mask, lemma_single_bit, lemma_three_bits, single_bit, three_bits};
use crate::pairs::{cand_at, cells_with_num, house_cand};
use crate::resolve::took;
use crate::search::{ints, lemma_select, select};
use crate::singles::{unit_cell_col, unit_cell_row};
use crate::sudoku::{count_in, lemma_count_in_bound, lemma_count_in_ext, lemma_count_in_union, notes_removed, present, rule_hits, Rule, Sudoku};
use crate::{Candidate, Unit};

verus! {

/// Whether `(r, c)` still notes `n` once the notes `gone` are taken away.
pub open spec fn has(s: Puzzle, gone: Set<Candidate>, r: int, c: int, n: int) -> bool {
    s.cand(r, c, n) && !gone.contains(cand_at(r, c, n))
}

/// The positions of line `h` of kind `u` that still note `num`.
pub open spec fn line_places(s: Puzzle, gone: Set<Candidate>, u: Unit, h: int, num: int) -> Seq<int> {
    select(|p: int| has(s, gone, unit_cell_row(u, 9 * h + p), unit_cell_col(u, 9 * h + p), num), 0, 9)
}

/// Line `h` notes `num` in exactly two cells, and both lie in one box.
pub open spec fn pointing_at(s: Puzzle, gone: Set<Candidate>, u: Unit, h: int, num: int) -> bool {
    let p = line_places(s, gone, u, h, num);
    p.len() == 2 && p[0] / 3 == p[1] / 3
}

/// The box of the pair that line `h` holds.
pub open spec fn pointing_box(s: Puzzle, gone: Set<Candidate>, u: Unit, h: int, num: int) -> int {
    let p = line_places(s, gone, u, h, num);
    box_of(unit_cell_row(u, 9 * h + p[0]), unit_cell_col(u, 9 * h + p[0]))
}

/// The notes `num` of the pair's box outside line `h`.
pub open spec fn pointing_hits(s: Puzzle, gone: Set<Candidate>, u: Unit, h: int, num: int) -> Set<Candidate> {
    Set::new(
        |x: Candidate|
            x.row < 9 && x.col < 9 && x.num == num && box_of(x.row as int, x.col as int) == pointing_box(s, gone, u, h, num)
                && !in_house(u, h, x.row as int, x.col as int) && has(s, gone, x.row as int, x.col as int, num),
    )
}

/// The notes taken away by the first `t` looks: line `t / 9` and digit `t % 9 + 1` for the
/// look `t`, each made on the notes that the looks before it left.
pub open spec fn pointing_gone(s: Puzzle, u: Unit, t: int) -> Set<Candidate>
    decreases t,
{
    if t <= 0 {
        Set::empty()
    } else {
        let g = pointing_gone(s, u, t - 1);
        let h = (t - 1) / 9;
        let num = (t - 1) % 9 + 1;
        if pointing_at(s, g, u, h, num) {
            g.union(pointing_hits(s, g, u, h, num))
        } else {
            g
        }
    }
}

/// Selections with the same test on the range are the same.
pub proof fn lemma_select_ext(p: spec_fn(int) -> bool, q: spec_fn(int) -> bool, lo: int, hi: int)
    requires
        forall|i: int| lo <= i < hi ==> #[trigger] p(i) == q(i),
    ensures
        select(p, lo, hi) == select(q, lo, hi),
    decreases hi - lo,
{
    if hi > lo {
        lemma_select_ext(p, q, lo, hi - 1);
    }
}

/// The positions of a line in the current notes are those of the spec's notes.
proof fn lemma_places_now(cur: Puzzle, s: Puzzle, gone: Set<Candidate>, u: Unit, h: int, num: int)
    requires
        0 <= h < 9,
        u != Unit::Box,
        forall|i: int, j: int, m: int| in_grid(i, j) ==> #[trigger] cur.cand(i, j, m) == has(s, gone, i, j, m),
    ensures
        cells_with_num(cur, u, h, num, 0, 9) == line_places(s, gone, u, h, num),
{
    let p = house_cand(cur, u, h, num);
    let q = |p: int| has(s, gone, unit_cell_row(u, 9 * h + p), unit_cell_col(u, 9 * h + p), num);
    assert forall|i: int| 0 <= i < 9 implies #[trigger] p(i) == q(i) by {
        assert(in_grid(unit_cell_row(u, 9 * h + i), unit_cell_col(u, 9 * h + i)));
    }
    lemma_select_ext(p, q, 0, 9);
}

/// The notes that the box rule takes are the pair's hits.
proof fn lemma_hits_now(cur: Puzzle, s: Puzzle, gone: Set<Candidate>, u: Unit, h: int, num: u8, b: int, skip: u16)
    requires
        0 <= h < 9,
        1 <= num <= 9,
        u != Unit::Box,
        pointing_at(s, gone, u, h, num as int),
        b == pointing_box(s, gone, u, h, num as int),
        forall|k: int| #[trigger] in_mask(skip, k) == if u == Unit::Row {
            k == 3 * (h % 3) || k == 3 * (h % 3) + 1 || k == 3 * (h % 3) + 2
        } else {
            k == h % 3 || k == h % 3 + 3 || k == h % 3 + 6
        },
        forall|i: int, j: int, m: int| in_grid(i, j) ==> #[trigger] cur.cand(i, j, m) == has(s, gone, i, j, m),
    ensures
        house_hits(cur, Unit::Box, b, skip, single_bit(num as u16)) == pointing_hits(s, gone, u, h, num as int),
{
    lemma_single_bit(num as u16);
    let pl = line_places(s, gone, u, h, num as int);
    lemma_select(|p: int| has(s, gone, unit_cell_row(u, 9 * h + p), unit_cell_col(u, 9 * h + p), num as int), 0, 9);
    let p0 = pl[0];
    assert(0 <= p0 < 9);
    if u == Unit::Row {
        assert(unit_cell_row(u, 9 * h + p0) == h);
        assert(b / 3 == h / 3);
    } else {
        assert(unit_cell_col(u, 9 * h + p0) == h);
        assert(b % 3 == h / 3);
    }
    assert forall|x: Candidate| house_hits(cur, Unit::Box, b, skip, single_bit(num as u16)).contains(x)
        == pointing_hits(s, gone, u, h, num as int).contains(x) by {
        if x.row < 9 && x.col < 9 && box_of(x.row as int, x.col as int) == b {
            let r = x.row as int;
            let c = x.col as int;
            let hp = house_pos(Unit::Box, r, c);
            assert(hp == 3 * (r % 3) + c % 3);
            if u == Unit::Row {
                assert(r / 3 == h / 3);
                assert(in_mask(skip, hp) == (r % 3 == h % 3));
                assert((r % 3 == h % 3) == (r == h));
            } else {
                assert(c / 3 == h / 3);
                assert(in_mask(skip, hp) == (c % 3 == h % 3));
                assert((c % 3 == h % 3) == (c == h));
            }
            assert(cur.cand(r, c, x.num as int) == has(s, gone, r, c, x.num as int));
        }
    }
    assert(house_hits(cur, Unit::Box, b, skip, single_bit(num as u16)) =~= pointing_hits(s, gone, u, h, num as int));
}

impl Sudoku {
    /// Pointing pairs in the lines of kind `u`, rows or columns: for each line and each
    /// digit `1..=9`, when the line notes the digit in exactly two cells of one box, the
    /// digit goes from the rest of that box. Returns how many notes went.
    fn resolve_pointing_pair_in(&mut self, u: Unit) -> (n: usize)
        requires
            u != Unit::Box,
        ensures
            took(old(self).grid, final(self).grid, pointing_gone(old(self).grid, u, 81), n as int),
            final(self).rating == old(self).rating,
    {
        let ghost s0 = self.grid;
        let mut count: usize = 0;
        let mut t: usize = 0;
        proof {
            assert forall|i: int, j: int, m: int| in_grid(i, j) implies #[trigger] self.grid.cand(i, j, m) == (s0.cand(i, j, m)
                && !pointing_gone(s0, u, 0).contains(Candidate { row: i as usize, col: j as usize, num: m as u8 })) by {}
            crate::sudoku::lemma_count_in_none(pointing_gone(s0, u, 0), 1296);
        }
        while t < 81
            invariant
                u != Unit::Box,
                t <= 81,
                s0 == old(self).grid,
                self.rating == old(self).rating,
                notes_removed(s0, self.grid, pointing_gone(s0, u, t as int)),
                forall|x: Candidate| #[trigger] pointing_gone(s0, u, t as int).contains(x) ==> x.row < 9 && x.col < 9 && s0.cand(
                    x.row as int,
                    x.col as int,
                    x.num as int,
                ),
                count == count_in(pointing_gone(s0, u, t as int), 1296),
                count <= 1296,
            decreases 81 - t,
        {
            let ghost g = pointing_gone(s0, u, t as int);
            let ghost cur = self.grid;
            let h = t / 9;
            let num: u8 = (t % 9 + 1) as u8;
            proof {
                assert forall|i: int, j: int, m: int| in_grid(i, j) implies #[trigger] cur.cand(i, j, m) == has(s0, g, i, j, m) by {
                    assert(cur.cand(i, j, m) == (s0.cand(i, j, m) && !g.contains(Candidate { row: i as usize, col: j as usize, num: m as u8 })));
                    assert(cand_at(i, j, m) == Candidate { row: i as usize, col: j as usize, num: m as u8 });
                }
                lemma_places_now(cur, s0, g, u, h as int, num as int);
                assert(pointing_gone(s0, u, t + 1) == if pointing_at(s0, g, u, h as int, num as int) {
                    g.union(pointing_hits(s0, g, u, h as int, num as int))
                } else {
                    g
                });
            }
            let places = self.grid.cells_with(u, h, num, 0, 9);
            if places.len() == 2 && places[0] / 3 == places[1] / 3 {
                let p0 = places[0];
                proof {
                    assert(ints(places@)[0] == p0);
                    assert(ints(places@)[1] == places@[1]);
                    assert(pointing_at(s0, g, u, h as int, num as int));
                }
                let (r0, c0) = Puzzle::unit_cell(u, 9 * h + p0);
                let b: usize = 3 * (r0 / 3) + c0 / 3;
                let a: u16 = (h % 3) as u16;
                let skip: u16 = match u {
                    Unit::Row => (1u16 << (3 * a)) | (1u16 << (3 * a + 1)) | (1u16 << (3 * a + 2)),
                    _ => (1u16 << a) | (1u16 << (a + 3)) | (1u16 << (a + 6)),
                };
                proof {
                    if u == Unit::Row {
                        lemma_three_bits((3 * a) as u16, (3 * a + 1) as u16, (3 * a + 2) as u16);
                        assert(skip == three_bits((3 * a) as u16, (3 * a + 1) as u16, (3 * a + 2) as u16));
                    } else {
                        lemma_three_bits(a, (a + 3) as u16, (a + 6) as u16);
                        assert(skip == three_bits(a, (a + 3) as u16, (a + 6) as u16));
                    }
                    lemma_hits_now(cur, s0, g, u, h as int, num, b as int, skip);
                }
                let rule = Rule::House { u: Unit::Box, h: b, skip, nums: 1u16 << num };
                let removed = self.take_notes(rule);
                proof {
                    let hits = pointing_hits(s0, g, u, h as int, num as int);
                    assert(rule_hits(cur, rule) == hits);
                    assert(g.disjoint(hits));
                    lemma_count_in_union(g, hits, 1296);
                    lemma_count_in_bound(g.union(hits), 1296);
                    assert forall|i: int, j: int, m: int| in_grid(i, j) implies #[trigger] self.grid.cand(i, j, m) == (s0.cand(i, j, m)
                        && !g.union(hits).contains(Candidate { row: i as usize, col: j as usize, num: m as u8 })) by {
                        assert(cur.cand(i, j, m) == (s0.cand(i, j, m) && !g.contains(Candidate { row: i as usize, col: j as usize, num: m as u8 })));
                    }
                    assert forall|x: Candidate| #[trigger] g.union(hits).contains(x) implies x.row < 9 && x.col < 9 && s0.cand(
                        x.row as int,
                        x.col as int,
                        x.num as int,
                    ) by {
                        if hits.contains(x) {
                            assert(has(s0, g, x.row as int, x.col as int, num as int));
                        }
                    }
                }
                count = count + removed;
            } else {
                proof {
                    if pointing_at(s0, g, u, h as int, num as int) {
                        assert(ints(places@).len() == 2);
                        assert(ints(places@)[0] == places@[0]);
                        assert(ints(places@)[1] == places@[1]);
                    }
                }
            }
            t = t + 1;
        }
        proof {
            let g = pointing_gone(s0, u, 81);
            assert(present(s0, g) =~= g);
        }
        count
    }

    /// Pointing pairs in rows; see `pointing_gone`.
    pub fn resolve_pointing_pair_in_rows(&mut self) -> (n: usize)
        ensures
            took(old(self).grid, final(self).grid, pointing_gone(old(self).grid, Unit::Row, 81), n as int),
            final(self).rating == old(self).rating,
    {
        self.resolve_pointing_pair_in(Unit::Row)
    }

    /// Pointing pairs in columns; see `pointing_gone`.
    pub fn resolve_pointing_pair_in_cols(&mut self) -> (n: usize)
        ensures
            took(old(self).grid, final(self).grid, pointing_gone(old(self).grid, Unit::Column, 81), n as int),
            final(self).rating == old(self).rating,
    {
        self.resolve_pointing_pair_in(Unit::Column)
    }
}

} // verus!
