//! The grid, its candidates, and the operations that read or fill it.

use vstd::prelude::*;

use crate::digits::{
    in_mask, lemma_ext, lemma_empty_mask, lemma_has_empty, lemma_notes, mask_has, mask_insert, ALL_DIGITS,
};
use crate::{Strategy, EMPTY};

verus! {

broadcast use vstd::array::group_array_axioms;

pub type Grid = [[u8; 9]; 9];

pub type Notes = [[u16; 9]; 9];

/// A Sudoku: the current board, the board it started from, the candidates of each
/// cell, how many candidates each strategy removed so far, and the states to go back to.
#[derive(Debug)]
pub struct Sudoku {
    pub board: Grid,
    pub original_board: Grid,
    pub candidates: Notes,
    pub rating: [usize; 12],
    pub undo_stack: Vec<Sudoku>,
}

/// Whether the cells `(r1, c1)` and `(r2, c2)` lie in the same 3x3 box.
pub open spec fn same_box(r1: int, c1: int, r2: int, c2: int) -> bool {
    r1 / 3 == r2 / 3 && c1 / 3 == c2 / 3
}

/// Whether `(r1, c1)` and `(r2, c2)` are distinct cells that share a row, a column or a box.
pub open spec fn peers(r1: int, c1: int, r2: int, c2: int) -> bool {
    (r1 != r2 || c1 != c2) && (r1 == r2 || c1 == c2 || same_box(r1, c1, r2, c2))
}

pub open spec fn in_grid(r: int, c: int) -> bool {
    0 <= r < 9 && 0 <= c < 9
}

/// Index of the box that holds the cell `(r, c)`.
pub open spec fn box_of(r: int, c: int) -> int {
    3 * (r / 3) + c / 3
}

/// The digit `n` occurs in row `r` of `g`.
pub open spec fn in_row(g: Grid, r: int, n: int) -> bool {
    exists|c: int| 0 <= c < 9 && g[r][c] == n
}

/// The digit `n` occurs in column `c` of `g`.
pub open spec fn in_col(g: Grid, c: int, n: int) -> bool {
    exists|r: int| 0 <= r < 9 && g[r][c] == n
}

/// The digit `n` occurs in the box that holds `(r, c)`.
pub open spec fn in_box(g: Grid, r: int, c: int, n: int) -> bool {
    exists|r2: int, c2: int| in_grid(r2, c2) && same_box(r, c, r2, c2) && g[r2][c2] == n
}

/// `num` can go into the empty cell `(r, c)` of `g` without repeating a digit of its
/// row, column or box.
pub open spec fn placeable(g: Grid, r: int, c: int, num: int) -> bool {
    g[r][c] == EMPTY && !in_row(g, r, num) && !in_col(g, c, num) && !in_box(g, r, c, num)
}

/// `full` fills every empty cell of `base` with a digit `1..=9` that no other cell of its
/// row, column or box of `full` holds, and keeps the filled cells of `base`.
pub open spec fn valid_completion(base: Grid, full: Grid) -> bool {
    forall|r: int, c: int| in_grid(r, c) ==> #[trigger] completes_cell(base, full, r, c)
}

/// The cell `(r, c)` of `full` keeps the digit of `base`, or fills an empty cell of `base`
/// with a digit `1..=9` that its peers in `full` do not hold.
pub open spec fn completes_cell(base: Grid, full: Grid, r: int, c: int) -> bool {
    &&& base[r][c] != EMPTY ==> full[r][c] == base[r][c]
    &&& base[r][c] == EMPTY ==> {
        &&& 1 <= full[r][c] <= 9
        &&& forall|r2: int, c2: int|
            in_grid(r2, c2) && peers(r, c, r2, c2) ==> full[r2][c2] != full[r][c]
    }
}

/// Number of empty cells among the first `k` cells in row-major order.
pub open spec fn empty_below(g: Grid, k: int) -> nat
    decreases k,
{
    if k <= 0 {
        0
    } else {
        empty_below(g, k - 1) + if g[(k - 1) / 9][(k - 1) % 9] == EMPTY { 1nat } else { 0nat }
    }
}

pub open spec fn empty_cells(g: Grid) -> nat {
    empty_below(g, 81)
}

/// `g2` is `g` with the cell `(r, c)` set to `v`.
pub open spec fn grid_set(g: Grid, g2: Grid, r: int, c: int, v: u8) -> bool {
    forall|i: int, j: int|
        in_grid(i, j) ==> g2[i][j] == if i == r && j == c { v } else { g[i][j] }
}

pub open spec fn all_cells_zero(g: Grid) -> bool {
    forall|r: int, c: int| in_grid(r, c) ==> g[r][c] == 0
}

pub open spec fn all_notes_empty(n: Notes) -> bool {
    forall|r: int, c: int| in_grid(r, c) ==> n[r][c] == 0
}

pub open spec fn all_zero_rating(rt: [usize; 12]) -> bool {
    forall|i: int| 0 <= i < 12 ==> rt[i] == 0
}

pub(crate) proof fn lemma_empty_below_set(g: Grid, g2: Grid, r: int, c: int, v: u8, k: int)
    requires
        grid_set(g, g2, r, c, v),
        in_grid(r, c),
        0 <= k <= 81,
        g[r][c] == EMPTY,
        v != EMPTY,
    ensures
        9 * r + c < k ==> empty_below(g2, k) + 1 == empty_below(g, k),
        9 * r + c >= k ==> empty_below(g2, k) == empty_below(g, k),
    decreases k,
{
    if k > 0 {
        lemma_empty_below_set(g, g2, r, c, v, k - 1);
        let j = k - 1;
        assert(j / 9 == r && j % 9 == c <==> j == 9 * r + c);
        assert(in_grid(j / 9, j % 9));
        assert(g2[j / 9][j % 9] == if j / 9 == r && j % 9 == c { v } else { g[j / 9][j % 9] });
    }
}

/// The digit of the `k`-th cell in row-major order.
pub open spec fn cell_at(g: Grid, k: int) -> u8 {
    g[k / 9][k % 9]
}

/// `a` comes no later than `b` in row-major order: at the first cell where they differ,
/// `a` holds the smaller digit.
pub open spec fn lex_le(a: Grid, b: Grid) -> bool {
    forall|k: int|
        0 <= k < 81 && (forall|j: int| 0 <= j < k ==> cell_at(a, j) == cell_at(b, j)) ==> #[trigger] cell_at(a, k) <= cell_at(b, k)
}

/// Backtracking puts the smallest digit that works into the first empty cell: the first
/// completion after that digit comes no later than any completion of the board.
proof fn lemma_first_after_place(base: Grid, placed: Grid, full: Grid, row: int, col: int, num: u8)
    requires
        in_grid(row, col),
        base[row][col] == EMPTY,
        1 <= num,
        grid_set(base, placed, row, col, num),
        forall|k: int| 0 <= k < 9 * row + col ==> #[trigger] cell_at(base, k) != EMPTY,
        valid_completion(placed, full),
        forall|g: Grid| valid_completion(placed, g) ==> lex_le(full, g),
        forall|g: Grid| valid_completion(base, g) ==> g[row][col] >= num,
    ensures
        forall|g: Grid| valid_completion(base, g) ==> lex_le(full, g),
{
    assert forall|g: Grid| valid_completion(base, g) implies lex_le(full, g) by {
        assert forall|k: int|
            0 <= k < 81 && (forall|j: int| 0 <= j < k ==> cell_at(full, j) == cell_at(g, j)) implies #[trigger] cell_at(full, k) <= cell_at(
            g,
            k,
        ) by {
            let p = 9 * row + col;
            assert(p / 9 == row && p % 9 == col);
            assert(in_grid(k / 9, k % 9));
            if k < p {
                assert(cell_at(base, k) != EMPTY);
                assert(completes_cell(placed, full, k / 9, k % 9));
                assert(completes_cell(base, g, k / 9, k % 9));
            } else if k == p {
                assert(completes_cell(placed, full, row, col));
            } else {
                assert(cell_at(full, p) == cell_at(g, p));
                assert(completes_cell(placed, full, row, col));
                crate::solutions::lemma_completion_to_placed(base, placed, row, col, num, g);
                assert(lex_le(full, g));
            }
        }
    }
}

/// What a completion puts into an empty cell can be placed there.
pub(crate) proof fn lemma_completion_placeable(base: Grid, full: Grid, r: int, c: int)
    requires
        valid_completion(base, full),
        in_grid(r, c),
        base[r][c] == EMPTY,
    ensures
        placeable(base, r, c, full[r][c] as int),
{
    let num = full[r][c];
    assert(completes_cell(base, full, r, c));
    assert forall|c2: int| 0 <= c2 < 9 implies base[r][c2] != num by {
        assert(completes_cell(base, full, r, c2));
        if c2 != c && base[r][c2] != EMPTY {
            assert(peers(r, c, r, c2));
        }
    }
    assert forall|r2: int| 0 <= r2 < 9 implies base[r2][c] != num by {
        assert(completes_cell(base, full, r2, c));
        if r2 != r && base[r2][c] != EMPTY {
            assert(peers(r, c, r2, c));
        }
    }
    assert forall|r2: int, c2: int| in_grid(r2, c2) && same_box(r, c, r2, c2) implies base[r2][c2] != num by {
        assert(completes_cell(base, full, r2, c2));
        if (r2 != r || c2 != c) && base[r2][c2] != EMPTY {
            assert(peers(r, c, r2, c2));
        }
    }
}

/// The strategy whose count sits at slot `i` of a rating.
pub open spec fn strategy_at(i: int) -> Strategy {
    if i == 0 {
        Strategy::NoStrategy
    } else if i == 1 {
        Strategy::LastDigit
    } else if i == 2 {
        Strategy::ObviousSingle
    } else if i == 3 {
        Strategy::HiddenSingle
    } else if i == 4 {
        Strategy::ObviousPair
    } else if i == 5 {
        Strategy::HiddenPair
    } else if i == 6 {
        Strategy::LockedPair
    } else if i == 7 {
        Strategy::PointingPair
    } else if i == 8 {
        Strategy::ClaimingPair
    } else if i == 9 {
        Strategy::ObviousTriplet
    } else if i == 10 {
        Strategy::Skyscraper
    } else {
        Strategy::XWing
    }
}

/// The candidates counted in the first `k` slots of a rating.
pub open spec fn removed_upto(rt: [usize; 12], k: int) -> int
    decreases k,
{
    if k <= 0 {
        0
    } else {
        removed_upto(rt, k - 1) + rt[k - 1]
    }
}

/// The candidates counted in the first `k` slots of a rating, each weighted by the
/// difficulty of its strategy.
pub open spec fn weighted_upto(rt: [usize; 12], k: int) -> int
    decreases k,
{
    if k <= 0 {
        0
    } else {
        weighted_upto(rt, k - 1) + crate::strategy_difficulty(strategy_at(k - 1)) * rt[k - 1]
    }
}

/// The strategy whose count sits at slot `i`.
fn strategy_of_slot(i: usize) -> (s: Strategy)
    requires
        i < 12,
    ensures
        s == strategy_at(i as int),
{
    if i == 0 {
        Strategy::NoStrategy
    } else if i == 1 {
        Strategy::LastDigit
    } else if i == 2 {
        Strategy::ObviousSingle
    } else if i == 3 {
        Strategy::HiddenSingle
    } else if i == 4 {
        Strategy::ObviousPair
    } else if i == 5 {
        Strategy::HiddenPair
    } else if i == 6 {
        Strategy::LockedPair
    } else if i == 7 {
        Strategy::PointingPair
    } else if i == 8 {
        Strategy::ClaimingPair
    } else if i == 9 {
        Strategy::ObviousTriplet
    } else if i == 10 {
        Strategy::Skyscraper
    } else {
        Strategy::XWing
    }
}

impl Sudoku {
    /// The two terms of the effort of a solve: how many candidates the strategies removed,
    /// and that count with each candidate weighted by the difficulty of the strategy that
    /// removed it. The effort is the second divided by the first.
    pub fn effort_terms(&self) -> (res: (u128, u128))
        ensures
            res.0 == removed_upto(self.rating, 12),
            res.1 == weighted_upto(self.rating, 12),
    {
        let mut removed: u128 = 0;
        let mut weighted: u128 = 0;
        let mut i: usize = 0;
        while i < 12
            invariant
                i <= 12,
                removed == removed_upto(self.rating, i as int),
                weighted == weighted_upto(self.rating, i as int),
                removed <= i * 0x1_0000_0000_0000_0000,
                weighted <= i * 140 * 0x1_0000_0000_0000_0000,
            decreases 12 - i,
        {
            let d = strategy_of_slot(i).difficulty();
            let n = self.rating[i];
            assert(0 <= d <= 140);
            assert(n < 0x1_0000_0000_0000_0000);
            assert((d as u128) * (n as u128) <= 140 * 0x1_0000_0000_0000_0000) by (nonlinear_arith)
                requires
                    0 <= d <= 140,
                    n < 0x1_0000_0000_0000_0000,
            ;
            removed = removed + n as u128;
            weighted = weighted + (d as u128) * (n as u128);
            i = i + 1;
        }
        (removed, weighted)
    }
}

impl Sudoku {
    /// Whether `n` is a candidate of the cell `(r, c)`.
    pub open spec fn cand(&self, r: int, c: int, n: int) -> bool {
        in_mask(self.candidates[r][c], n)
    }

    /// The rating of the strategy: how many candidates it removed so far.
    pub open spec fn rated(&self, s: Strategy) -> int {
        self.rating[crate::strategy_index(s)] as int
    }

    /// A grid with no cell, no candidate and no rating; the original board is empty too.
    pub fn new() -> (s: Sudoku)
        ensures
            all_cells_zero(s.board),
            all_cells_zero(s.original_board),
            all_notes_empty(s.candidates),
            all_zero_rating(s.rating),
            s.undo_stack@ == Seq::<Sudoku>::empty(),
    {
        Sudoku {
            board: [[0u8; 9]; 9],
            original_board: [[0u8; 9]; 9],
            candidates: [[0u16; 9]; 9],
            rating: [0usize; 12],
            undo_stack: Vec::new(),
        }
    }

    /// Empty the board, the candidates and the rating; the original board and the
    /// undo stack stay.
    pub fn clear(&mut self)
        ensures
            all_cells_zero(final(self).board),
            all_notes_empty(final(self).candidates),
            all_zero_rating(final(self).rating),
            final(self).original_board == old(self).original_board,
            final(self).undo_stack == old(self).undo_stack,
    {
        self.candidates = [[0u16; 9]; 9];
        self.board = [[0u8; 9]; 9];
        self.rating = [0usize; 12];
    }

    /// A copy of the board, the candidates and the rating, with an empty undo stack.
    pub fn snapshot(&self) -> (s: Sudoku)
        ensures
            s.board == self.board,
            s.original_board == self.original_board,
            s.candidates == self.candidates,
            s.rating == self.rating,
            s.undo_stack@ == Seq::<Sudoku>::empty(),
    {
        Sudoku {
            board: self.board,
            original_board: self.original_board,
            candidates: self.candidates,
            rating: self.rating,
            undo_stack: Vec::new(),
        }
    }

    /// Whether some cell is still empty.
    pub fn unsolved(&self) -> (b: bool)
        ensures
            b == exists|r: int, c: int| in_grid(r, c) && self.board[r][c] == EMPTY,
    {
        let mut r: usize = 0;
        while r < 9
            invariant
                r <= 9,
                forall|i: int, j: int| 0 <= i < r && 0 <= j < 9 ==> self.board[i][j] != EMPTY,
            decreases 9 - r,
        {
            let mut c: usize = 0;
            while c < 9
                invariant
                    r < 9,
                    c <= 9,
                    forall|i: int, j: int| 0 <= i < r && 0 <= j < 9 ==> self.board[i][j] != EMPTY,
                    forall|j: int| 0 <= j < c ==> self.board[r as int][j] != EMPTY,
                decreases 9 - c,
            {
                if self.board[r][c] == EMPTY {
                    assert(in_grid(r as int, c as int) && self.board[r as int][c as int] == EMPTY);
                    return true;
                }
                c = c + 1;
            }
            r = r + 1;
        }
        false
    }

    /// Whether every cell is filled.
    pub fn is_solved(&self) -> (b: bool)
        ensures
            b == forall|r: int, c: int| in_grid(r, c) ==> self.board[r][c] != EMPTY,
    {
        !self.unsolved()
    }

    /// How many candidates each strategy removed, indexed by `Strategy::index`.
    pub fn rating(&self) -> (r: [usize; 12])
        ensures
            r == self.rating,
    {
        self.rating
    }

    /// Whether some cell has a candidate.
    pub fn has_candidates(&self) -> (b: bool)
        ensures
            b == exists|r: int, c: int, n: int| in_grid(r, c) && self.cand(r, c, n),
    {
        let mut r: usize = 0;
        while r < 9
            invariant
                r <= 9,
                forall|i: int, j: int| 0 <= i < r && 0 <= j < 9 ==> self.candidates[i][j] == 0,
            decreases 9 - r,
        {
            let mut c: usize = 0;
            while c < 9
                invariant
                    r < 9,
                    c <= 9,
                    forall|i: int, j: int| 0 <= i < r && 0 <= j < 9 ==> self.candidates[i][j] == 0,
                    forall|j: int| 0 <= j < c ==> self.candidates[r as int][j] == 0,
                decreases 9 - c,
            {
                if self.candidates[r][c] != 0 {
                    proof {
                        let m = self.candidates[r as int][c as int];
                        if forall|k: int| 0 <= k < 16 ==> in_mask(m, k) == in_mask(0u16, k) {
                            lemma_ext(m, 0u16);
                        }
                        let k = choose|k: int| 0 <= k < 16 && in_mask(m, k) != in_mask(0u16, k);
                        lemma_has_empty(k as u16);
                        assert(self.cand(r as int, c as int, k));
                    }
                    return true;
                }
                c = c + 1;
            }
            r = r + 1;
        }
        proof {
            assert forall|i: int, j: int, n: int| in_grid(i, j) implies !self.cand(i, j, n) by {
                if 0 <= n < 16 {
                    lemma_has_empty(n as u16);
                }
            }
        }
        false
    }

    /// The digit in the cell, `EMPTY` if there is none.
    pub fn get_num(&self, row: usize, col: usize) -> (n: u8)
        requires
            row < 9,
            col < 9,
        ensures
            n == self.board[row as int][col as int],
    {
        self.board[row][col]
    }

    /// The candidates of the cell, in increasing order.
    pub fn get_candidates(&self, row: usize, col: usize) -> (v: Vec<u8>)
        requires
            row < 9,
            col < 9,
        ensures
            forall|i: int, j: int| 0 <= i < j < v@.len() ==> v@[i] < v@[j],
            forall|n: u8| v@.contains(n) <==> self.cand(row as int, col as int, n as int),
    {
        let mask = self.candidates[row][col];
        let mut v: Vec<u8> = Vec::new();
        let mut n: u8 = 0;
        while n < 16
            invariant
                n <= 16,
                mask == self.candidates[row as int][col as int],
                forall|i: int, j: int| 0 <= i < j < v@.len() ==> v@[i] < v@[j],
                forall|i: int| 0 <= i < v@.len() ==> v@[i] < n,
                forall|k: u8| v@.contains(k) <==> (k < n && in_mask(mask, k as int)),
            decreases 16 - n,
        {
            let ghost before = v@;
            if mask_has(mask, n) {
                v.push(n);
                proof {
                    assert forall|k: u8| v@.contains(k) <==> (k < n + 1 && in_mask(mask, k as int)) by {
                        if v@.contains(k) {
                            let i = choose|i: int| 0 <= i < v@.len() && v@[i] == k;
                            if i < before.len() {
                                assert(before.contains(k));
                            }
                        }
                        if k < n && in_mask(mask, k as int) {
                            let i = choose|i: int| 0 <= i < before.len() && before[i] == k;
                            assert(v@[i] == k);
                        }
                        if k == n {
                            assert(v@[v@.len() - 1] == k);
                        }
                    }
                }
            }
            n = n + 1;
        }
        v
    }

    /// The values `1..16` that occur in row `row`, as a bit set.
    pub(crate) fn calc_nums_in_row(&self, row: usize) -> (m: u16)
        requires
            row < 9,
        ensures
            forall|n: int| 0 <= n < 16 ==> in_mask(m, n) == (n != EMPTY && in_row(self.board, row as int, n)),
    {
        let mut m: u16 = 0;
        proof {
            lemma_empty_mask();
        }
        let mut col: usize = 0;
        while col < 9
            invariant
                row < 9,
                col <= 9,
                forall|n: int|
                    0 <= n < 16 ==> in_mask(m, n) == (n != EMPTY && exists|j: int|
                        0 <= j < col && self.board[row as int][j] == n),
            decreases 9 - col,
        {
            let v = self.board[row][col];
            if v != EMPTY && v < 16 {
                m = mask_insert(m, v);
            }
            proof {
                assert forall|n: int| 0 <= n < 16 implies in_mask(m, n) == (n != EMPTY && exists|j: int|
                    0 <= j < col + 1 && self.board[row as int][j] == n) by {
                    if n != EMPTY && self.board[row as int][col as int] == n {
                        assert(0 <= col < col + 1);
                    }
                }
            }
            col = col + 1;
        }
        m
    }

    /// The values `1..16` that occur in column `col`, as a bit set.
    pub(crate) fn calc_nums_in_col(&self, col: usize) -> (m: u16)
        requires
            col < 9,
        ensures
            forall|n: int| 0 <= n < 16 ==> in_mask(m, n) == (n != EMPTY && in_col(self.board, col as int, n)),
    {
        let mut m: u16 = 0;
        proof {
            lemma_empty_mask();
        }
        let mut row: usize = 0;
        while row < 9
            invariant
                col < 9,
                row <= 9,
                forall|n: int|
                    0 <= n < 16 ==> in_mask(m, n) == (n != EMPTY && exists|i: int|
                        0 <= i < row && self.board[i][col as int] == n),
            decreases 9 - row,
        {
            let v = self.board[row][col];
            if v != EMPTY && v < 16 {
                m = mask_insert(m, v);
            }
            proof {
                assert forall|n: int| 0 <= n < 16 implies in_mask(m, n) == (n != EMPTY && exists|i: int|
                    0 <= i < row + 1 && self.board[i][col as int] == n) by {
                    if n != EMPTY && self.board[row as int][col as int] == n {
                        assert(0 <= row < row + 1);
                    }
                }
            }
            row = row + 1;
        }
        m
    }

    /// The values `1..16` that occur in box `box_index` (boxes are numbered row-major),
    /// as a bit set.
    pub(crate) fn calc_nums_in_box(&self, box_index: usize) -> (m: u16)
        requires
            box_index < 9,
        ensures
            forall|n: int|
                0 <= n < 16 ==> in_mask(m, n) == (n != EMPTY && in_box(
                    self.board,
                    3 * (box_index / 3),
                    3 * (box_index % 3),
                    n,
                )),
    {
        let start_row: usize = 3 * (box_index / 3);
        let start_col: usize = 3 * (box_index % 3);
        let mut m: u16 = 0;
        proof {
            lemma_empty_mask();
        }
        let mut k: usize = 0;
        while k < 9
            invariant
                start_row == 3 * (box_index / 3),
                start_col == 3 * (box_index % 3),
                box_index < 9,
                k <= 9,
                forall|n: int|
                    0 <= n < 16 ==> in_mask(m, n) == (n != EMPTY && exists|r2: int, c2: int|
                        start_row <= r2 < start_row + 3 && start_col <= c2 < start_col + 3 && 3 * (r2
                            - start_row) + (c2 - start_col) < k && self.board[r2][c2] == n),
            decreases 9 - k,
        {
            let r = start_row + k / 3;
            let c = start_col + k % 3;
            let v = self.board[r][c];
            if v != EMPTY && v < 16 {
                m = mask_insert(m, v);
            }
            proof {
                assert forall|n: int| 0 <= n < 16 implies in_mask(m, n) == (n != EMPTY && exists|r2: int, c2: int|
                    start_row <= r2 < start_row + 3 && start_col <= c2 < start_col + 3 && 3 * (r2
                        - start_row) + (c2 - start_col) < k + 1 && self.board[r2][c2] == n) by {
                    if n != EMPTY && v == n {
                        assert(3 * (r - start_row) + (c - start_col) == k);
                    }
                    if n != EMPTY && (exists|r2: int, c2: int|
                        start_row <= r2 < start_row + 3 && start_col <= c2 < start_col + 3 && 3 * (r2
                            - start_row) + (c2 - start_col) < k + 1 && self.board[r2][c2] == n) {
                        let (r2, c2) = choose|r2: int, c2: int|
                            start_row <= r2 < start_row + 3 && start_col <= c2 < start_col + 3 && 3 * (r2
                                - start_row) + (c2 - start_col) < k + 1 && self.board[r2][c2] == n;
                        if 3 * (r2 - start_row) + (c2 - start_col) == k {
                            assert(r2 == r && c2 == c);
                        }
                    }
                }
            }
            k = k + 1;
        }
        proof {
            assert forall|n: int| 0 <= n < 16 implies in_mask(m, n) == (n != EMPTY && in_box(
                self.board,
                start_row as int,
                start_col as int,
                n,
            )) by {
                if n != EMPTY && in_box(self.board, start_row as int, start_col as int, n) {
                    let (r2, c2) = choose|r2: int, c2: int|
                        in_grid(r2, c2) && same_box(start_row as int, start_col as int, r2, c2)
                            && self.board[r2][c2] == n;
                    assert(start_row <= r2 < start_row + 3 && start_col <= c2 < start_col + 3);
                }
                if in_mask(m, n) {
                    let (r2, c2) = choose|r2: int, c2: int|
                        start_row <= r2 < start_row + 3 && start_col <= c2 < start_col + 3 && 3 * (r2
                            - start_row) + (c2 - start_col) < 9 && self.board[r2][c2] == n;
                    assert(in_grid(r2, c2) && same_box(start_row as int, start_col as int, r2, c2));
                }
            }
        }
        m
    }

    /// Compute the notes of every empty cell: the digits `1..=9` that its row, column
    /// and box do not hold yet. Filled cells keep their candidates.
    pub fn calc_candidates(&mut self)
        ensures
            forall|r: int, c: int|
                in_grid(r, c) && old(self).board[r][c] != EMPTY ==> final(self).candidates[r][c]
                    == old(self).candidates[r][c],
            forall|r: int, c: int, n: int|
                in_grid(r, c) && old(self).board[r][c] == EMPTY ==> final(self).cand(r, c, n) == (1 <= n
                    <= 9 && !in_row(old(self).board, r, n) && !in_col(old(self).board, c, n) && !in_box(
                    old(self).board,
                    r,
                    c,
                    n,
                )),
            final(self).board == old(self).board,
            final(self).original_board == old(self).original_board,
            final(self).rating == old(self).rating,
            final(self).undo_stack == old(self).undo_stack,
    {
        let mut rows: [u16; 9] = [0u16; 9];
        let mut cols: [u16; 9] = [0u16; 9];
        let mut boxes: [u16; 9] = [0u16; 9];
        let mut i: usize = 0;
        while i < 9
            invariant
                i <= 9,
                self.board == old(self).board,
                forall|j: int, n: int|
                    0 <= j < i && 0 <= n < 16 ==> #[trigger] in_mask(rows[j], n) == (n != EMPTY && in_row(old(self).board, j, n)),
                forall|j: int, n: int|
                    0 <= j < i && 0 <= n < 16 ==> #[trigger] in_mask(cols[j], n) == (n != EMPTY && in_col(old(self).board, j, n)),
                forall|j: int, n: int|
                    0 <= j < i && 0 <= n < 16 ==> #[trigger] in_mask(boxes[j], n) == (n != EMPTY && in_box(old(self).board,
                        3 * (j / 3),
                        3 * (j % 3),
                        n,
                    )),
            decreases 9 - i,
        {
            rows[i] = self.calc_nums_in_row(i);
            cols[i] = self.calc_nums_in_col(i);
            boxes[i] = self.calc_nums_in_box(i);
            i = i + 1;
        }
        let mut row: usize = 0;
        while row < 9
            invariant
                row <= 9,
                self.board == old(self).board,
                self.original_board == old(self).original_board,
                self.rating == old(self).rating,
                self.undo_stack == old(self).undo_stack,
                forall|j: int, n: int|
                    0 <= j < 9 && 0 <= n < 16 ==> #[trigger] in_mask(rows[j], n) == (n != EMPTY && in_row(old(self).board, j, n)),
                forall|j: int, n: int|
                    0 <= j < 9 && 0 <= n < 16 ==> #[trigger] in_mask(cols[j], n) == (n != EMPTY && in_col(old(self).board, j, n)),
                forall|j: int, n: int|
                    0 <= j < 9 && 0 <= n < 16 ==> #[trigger] in_mask(boxes[j], n) == (n != EMPTY && in_box(old(self).board,
                        3 * (j / 3),
                        3 * (j % 3),
                        n,
                    )),
                forall|r: int, c: int|
                    in_grid(r, c) && (r >= row || old(self).board[r][c] != EMPTY) ==> self.candidates[r][c]
                        == old(self).candidates[r][c],
                forall|r: int, c: int, n: int|
                    in_grid(r, c) && r < row && old(self).board[r][c] == EMPTY ==> self.cand(r, c, n) == (1
                        <= n <= 9 && !in_row(old(self).board, r, n) && !in_col(old(self).board, c, n) && !in_box(old(self).board,
                        r,
                        c,
                        n,
                    )),
            decreases 9 - row,
        {
            let mut col: usize = 0;
            while col < 9
                invariant
                    row < 9,
                    col <= 9,
                    self.board == old(self).board,
                    self.original_board == old(self).original_board,
                    self.rating == old(self).rating,
                    self.undo_stack == old(self).undo_stack,
                    forall|j: int, n: int|
                        0 <= j < 9 && 0 <= n < 16 ==> #[trigger] in_mask(rows[j], n) == (n != EMPTY && in_row(old(self).board,
                            j,
                            n,
                        )),
                    forall|j: int, n: int|
                        0 <= j < 9 && 0 <= n < 16 ==> #[trigger] in_mask(cols[j], n) == (n != EMPTY && in_col(old(self).board,
                            j,
                            n,
                        )),
                    forall|j: int, n: int|
                        0 <= j < 9 && 0 <= n < 16 ==> #[trigger] in_mask(boxes[j], n) == (n != EMPTY && in_box(old(self).board,
                            3 * (j / 3),
                            3 * (j % 3),
                            n,
                        )),
                    forall|r: int, c: int|
                        in_grid(r, c) && (r > row || (r == row && c >= col) || old(self).board[r][c] != EMPTY)
                            ==> self.candidates[r][c] == old(self).candidates[r][c],
                    forall|r: int, c: int, n: int|
                        in_grid(r, c) && (r < row || (r == row && c < col)) && old(self).board[r][c] == EMPTY
                            ==> self.cand(r, c, n) == (1 <= n <= 9 && !in_row(old(self).board, r, n) && !in_col(old(self).board,
                            c,
                            n,
                        ) && !in_box(old(self).board, r, c, n)),
                decreases 9 - col,
            {
                let ghost before = self.candidates;
                let ghost start = *self;
                if self.board[row][col] == EMPTY {
                    let box_idx: usize = 3 * (row / 3) + col / 3;
                    let notes: u16 = ALL_DIGITS & !(rows[row] | cols[col] | boxes[box_idx]);
                    let ghost prev = self.candidates;
                    self.candidates[row][col] = notes;
                    proof {
                        assert forall|r: int, c: int| in_grid(r, c) && (r != row || c != col) implies self.candidates[r][c]
                            == prev[r][c] by {}
                        assert forall|n: int|
                            self.cand(row as int, col as int, n) == (1 <= n <= 9 && !in_row(old(self).board,
                                row as int,
                                n,
                            ) && !in_col(old(self).board, col as int, n) && !in_box(old(self).board,
                                row as int,
                                col as int,
                                n,
                            )) by {
                            if 0 <= n < 16 {
                                lemma_notes(rows[row as int], cols[col as int], boxes[box_idx as int], n as u16);
                                assert(3 * (box_idx / 3) == 3 * (row / 3));
                                assert(3 * (box_idx % 3) == 3 * (col / 3));
                                assert(in_box(old(self).board, row as int, col as int, n) == in_box(old(self).board,
                                    3 * (box_idx / 3),
                                    3 * (box_idx % 3),
                                    n,
                                )) by {
                                    if in_box(old(self).board, row as int, col as int, n) {
                                        let (r2, c2) = choose|r2: int, c2: int|
                                            in_grid(r2, c2) && same_box(row as int, col as int, r2, c2)
                                                && self.board[r2][c2] == n;
                                        assert(same_box(3 * (box_idx / 3), 3 * (box_idx % 3), r2, c2));
                                    }
                                    if in_box(old(self).board, 3 * (box_idx / 3), 3 * (box_idx % 3), n) {
                                        let (r2, c2) = choose|r2: int, c2: int|
                                            in_grid(r2, c2) && same_box(
                                                3 * (box_idx / 3),
                                                3 * (box_idx % 3),
                                                r2,
                                                c2,
                                            ) && self.board[r2][c2] == n;
                                        assert(same_box(row as int, col as int, r2, c2));
                                    }
                                }
                            }
                        }
                    }
                }
                proof {
                    assert forall|r: int, c: int, n: int|
                        in_grid(r, c) && (r < row || (r == row && c < col + 1)) && old(self).board[r][c]
                            == EMPTY implies #[trigger] self.cand(r, c, n) == (1 <= n <= 9 && !in_row(
                        old(self).board,
                        r,
                        n,
                    ) && !in_col(old(self).board, c, n) && !in_box(old(self).board, r, c, n)) by {
                        if r != row || c != col {
                            assert(self.candidates[r][c] == before[r][c]);
                            assert(start.cand(r, c, n) == (1 <= n <= 9 && !in_row(old(self).board, r, n)
                                && !in_col(old(self).board, c, n) && !in_box(old(self).board, r, c, n)));
                        }
                    }
                }
                col = col + 1;
            }
            row = row + 1;
        }
    }

    /// Whether `num` can be placed into `(row, col)`: the cell is empty and its row,
    /// column and box do not hold `num`.
    pub fn can_place(&self, row: usize, col: usize, num: u8) -> (b: bool)
        requires
            row < 9,
            col < 9,
        ensures
            b == placeable(self.board, row as int, col as int, num as int),
    {
        if self.board[row][col] != EMPTY {
            return false;
        }
        let br: usize = 3 * (row / 3);
        let bc: usize = 3 * (col / 3);
        let mut i: usize = 0;
        while i < 9
            invariant
                row < 9,
                col < 9,
                br == 3 * (row / 3),
                bc == 3 * (col / 3),
                i <= 9,
                forall|j: int| 0 <= j < i ==> self.board[row as int][j] != num,
                forall|j: int| 0 <= j < i ==> self.board[j][col as int] != num,
                forall|r2: int, c2: int|
                    br <= r2 < br + 3 && bc <= c2 < bc + 3 && 3 * (r2 - br) + (c2 - bc) < i
                        ==> self.board[r2][c2] != num,
            decreases 9 - i,
        {
            if self.board[row][i] == num {
                assert(in_row(self.board, row as int, num as int));
                return false;
            }
            if self.board[i][col] == num {
                assert(in_col(self.board, col as int, num as int));
                return false;
            }
            if self.board[br + i / 3][bc + i % 3] == num {
                proof {
                    let r2 = br + i / 3;
                    let c2 = bc + i % 3;
                    assert(same_box(row as int, col as int, r2 as int, c2 as int));
                    assert(in_grid(r2 as int, c2 as int) && self.board[r2 as int][c2 as int] == num);
                    assert(in_box(self.board, row as int, col as int, num as int));
                }
                return false;
            }
            i = i + 1;
        }
        proof {
            assert forall|r2: int, c2: int|
                in_grid(r2, c2) && same_box(row as int, col as int, r2, c2) implies self.board[r2][c2] != num by {
                assert(br <= r2 < br + 3 && bc <= c2 < bc + 3);
            }
        }
        true
    }

    /// The first empty cell in row-major order.
    pub(crate) fn find_empty(&self) -> (res: Option<(usize, usize)>)
        ensures
            res is None ==> forall|r: int, c: int| in_grid(r, c) ==> self.board[r][c] != EMPTY,
            res matches Some((r, c)) ==> r < 9 && c < 9 && self.board[r as int][c as int] == EMPTY,
            res matches Some((r, c)) ==> forall|k: int| 0 <= k < 9 * r + c ==> #[trigger] cell_at(self.board, k) != EMPTY,
    {
        let mut r: usize = 0;
        while r < 9
            invariant
                r <= 9,
                forall|i: int, j: int| 0 <= i < r && 0 <= j < 9 ==> self.board[i][j] != EMPTY,
            decreases 9 - r,
        {
            let mut c: usize = 0;
            while c < 9
                invariant
                    r < 9,
                    c <= 9,
                    forall|i: int, j: int| 0 <= i < r && 0 <= j < 9 ==> self.board[i][j] != EMPTY,
                    forall|j: int| 0 <= j < c ==> self.board[r as int][j] != EMPTY,
                decreases 9 - c,
            {
                if self.board[r][c] == EMPTY {
                    proof {
                        assert forall|k: int| 0 <= k < 9 * r + c implies #[trigger] cell_at(self.board, k) != EMPTY by {
                            if k / 9 < r {
                            } else {
                                assert(k / 9 == r && k % 9 < c);
                            }
                        }
                    }
                    return Some((r, c));
                }
                c = c + 1;
            }
            r = r + 1;
        }
        None
    }

    /// Fill the empty cells by backtracking: true when a completion was found, which then
    /// stands on the board; false when none exists, and the board is unchanged.
    fn solve(&mut self) -> (solved: bool)
        ensures
            solved ==> valid_completion(old(self).board, final(self).board),
            solved ==> forall|full: Grid| valid_completion(old(self).board, full) ==> lex_le(final(self).board, full),
            !solved ==> final(self).board == old(self).board,
            !solved ==> forall|full: Grid| !valid_completion(old(self).board, full),
            final(self).candidates == old(self).candidates,
            final(self).original_board == old(self).original_board,
            final(self).rating == old(self).rating,
            final(self).undo_stack == old(self).undo_stack,
        decreases empty_cells(old(self).board),
    {
        let found = self.find_empty();
        let (row, col) = match found {
            None => {
                proof {
                    assert forall|r: int, c: int| in_grid(r, c) implies #[trigger] completes_cell(
                        self.board,
                        self.board,
                        r,
                        c,
                    ) by {}
                    assert forall|full: Grid| valid_completion(self.board, full) implies lex_le(self.board, full) by {
                        assert forall|k: int| 0 <= k < 81 implies #[trigger] cell_at(self.board, k) == cell_at(full, k) by {
                            assert(in_grid(k / 9, k % 9));
                            assert(completes_cell(self.board, full, k / 9, k % 9));
                        }
                    }
                }
                return true;
            },
            Some(rc) => rc,
        };
        let ghost base = self.board;
        proof {
            assert forall|full: Grid| valid_completion(base, full) implies full[row as int][col as int] >= 1 by {
                assert(completes_cell(base, full, row as int, col as int));
            }
        }
        let mut num: u8 = 1;
        while num <= 9
            invariant
                row < 9,
                col < 9,
                1 <= num <= 10,
                self.board == base,
                base[row as int][col as int] == EMPTY,
                self.candidates == old(self).candidates,
                self.original_board == old(self).original_board,
                self.rating == old(self).rating,
                self.undo_stack == old(self).undo_stack,
                base == old(self).board,
                forall|k: int| 0 <= k < 9 * row + col ==> #[trigger] cell_at(base, k) != EMPTY,
                forall|full: Grid| valid_completion(base, full) ==> full[row as int][col as int] >= num,
            decreases 10 - num,
        {
            if self.can_place(row, col, num) {
                self.board[row][col] = num;
                let ghost placed = self.board;
                proof {
                    assert(grid_set(base, placed, row as int, col as int, num));
                    lemma_empty_below_set(base, placed, row as int, col as int, num, 81);
                }
                if self.solve() {
                    proof {
                        let full = self.board;
                        lemma_first_after_place(base, placed, full, row as int, col as int, num);
                        assert forall|r: int, c: int| in_grid(r, c) implies #[trigger] completes_cell(
                            base,
                            full,
                            r,
                            c,
                        ) by {
                            assert(completes_cell(placed, full, r, c));
                            if r == row && c == col {
                                assert forall|r2: int, c2: int|
                                    in_grid(r2, c2) && peers(r, c, r2, c2) implies full[r2][c2] != full[r][c] by {
                                    assert(completes_cell(placed, full, r2, c2));
                                    if placed[r2][c2] == EMPTY {
                                        assert(peers(r2, c2, r, c));
                                    } else {
                                        assert(base[r2][c2] == placed[r2][c2]);
                                        if base[r2][c2] == num {
                                            if r2 == r {
                                                assert(in_row(base, r, num as int));
                                            } else if c2 == c {
                                                assert(in_col(base, c, num as int));
                                            } else {
                                                assert(in_box(base, r, c, num as int));
                                            }
                                        }
                                    }
                                }
                            }
                        }
                    }
                    return true;
                }
                self.board[row][col] = EMPTY;
                proof {
                    assert forall|i: int| 0 <= i < 9 implies self.board[i] =~= base[i] by {}
                    assert(self.board =~= base);
                    assert forall|full: Grid| valid_completion(base, full) implies full[row as int][col as int]
                        >= num + 1 by {
                        if full[row as int][col as int] == num {
                            assert forall|r: int, c: int| in_grid(r, c) implies #[trigger] completes_cell(
                                placed,
                                full,
                                r,
                                c,
                            ) by {
                                assert(completes_cell(base, full, r, c));
                            }
                            assert(valid_completion(placed, full));
                        }
                    }
                }
            } else {
                proof {
                    assert forall|full: Grid| valid_completion(base, full) implies full[row as int][col as int]
                        != num by {
                        if full[row as int][col as int] == num {
                            lemma_completion_placeable(base, full, row as int, col as int);
                        }
                    }
                }
            }
            num = num + 1;
        }
        proof {
            assert forall|full: Grid| !valid_completion(base, full) by {
                if valid_completion(base, full) {
                    assert(completes_cell(base, full, row as int, col as int));
                }
            }
        }
        false
    }

    /// Fill the board by backtracking; see `solve`. The completion found is the first in
    /// row-major order: the first empty cell takes the smallest digit with which the board
    /// can still be completed, and so on.
    pub fn solve_by_backtracking(&mut self) -> (solved: bool)
        ensures
            solved ==> valid_completion(old(self).board, final(self).board),
            solved ==> forall|full: Grid| valid_completion(old(self).board, full) ==> lex_le(final(self).board, full),
            !solved ==> final(self).board == old(self).board,
            !solved ==> forall|full: Grid| !valid_completion(old(self).board, full),
            final(self).candidates == old(self).candidates,
            final(self).original_board == old(self).original_board,
            final(self).rating == old(self).rating,
            final(self).undo_stack == old(self).undo_stack,
    {
        self.solve()
    }
}

} // verus!
