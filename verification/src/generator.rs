//! Generating puzzles: fill a grid, then empty cells for as long as the puzzle keeps
//! exactly one solution.

use vstd::prelude::*;

use crate::board::{empty_below, empty_cells, in_grid, lemma_empty_below_set, peers, placeable, Grid, Sudoku};
use crate::solutions::unique_completion;
use crate::EMPTY;

verus! {

broadcast use vstd::array::group_array_axioms;

#[verifier::external_type_specification]
#[verifier::external_body]
pub struct ExThreadRng(rand::rngs::ThreadRng);

/// `rand::rng`: the random number generator of the thread. Nothing is said of it.
#[verifier::external_body]
fn thread_rng() -> rand::rngs::ThreadRng {
    rand::rng()
}

/// `SliceRandom::shuffle` on the items of the vector: the contract claims that the
/// vector afterwards holds the same items, each as often as before; their order is
/// left to chance.
#[verifier::external_body]
fn shuffle<T>(v: &mut Vec<T>, rng: &mut rand::rngs::ThreadRng)
    ensures
        final(v)@.to_multiset() == old(v)@.to_multiset(),
{
    rand::seq::SliceRandom::shuffle(v.as_mut_slice(), rng);
}

/// `Rng::random_range` over `lo..=hi`: the contract claims a number in that range; which
/// one is left to chance.
#[verifier::external_body]
fn random_in(rng: &mut rand::rngs::ThreadRng, lo: u8, hi: u8) -> (d: u8)
    requires
        lo <= hi,
    ensures
        lo <= d <= hi,
{
    rand::Rng::random_range(rng, lo..=hi)
}

/// How a full grid is made.
#[derive(Debug, Clone, Copy, PartialEq, Eq, Structural)]
pub enum FillAlgorithm {
    DiagonalThinOut,
    Incremental,
    Mask,
}

impl FillAlgorithm {
    /// The name used on the command line.
    pub fn name(&self) -> (s: &'static str)
        ensures
            s@ == match *self {
                FillAlgorithm::DiagonalThinOut => "diagonal-thin-out"@,
                FillAlgorithm::Incremental => "incremental"@,
                FillAlgorithm::Mask => "mask"@,
            },
    {
        match self {
            FillAlgorithm::DiagonalThinOut => "diagonal-thin-out",
            FillAlgorithm::Incremental => "incremental",
            FillAlgorithm::Mask => "mask",
        }
    }
}

/// How cells are emptied: one at a time, or a cell and its mirror through the centre.
#[derive(Debug, Clone, Copy, PartialEq, Eq, Structural)]
pub enum ThinningAlgorithm {
    Single,
    Mirrored,
}

impl ThinningAlgorithm {
    /// The name used on the command line.
    pub fn name(&self) -> (s: &'static str)
        ensures
            s@ == match *self {
                ThinningAlgorithm::Single => "single"@,
                ThinningAlgorithm::Mirrored => "mirrored"@,
            },
    {
        match self {
            ThinningAlgorithm::Single => "single",
            ThinningAlgorithm::Mirrored => "mirrored",
        }
    }
}

/// The board `g` with the cell `(r, c)` emptied.
pub open spec fn cleared(g: Grid, r: int, c: int) -> Grid {
    vstd::array::spec_array_update(g, r, vstd::array::spec_array_update(g[r], c, EMPTY))
}

/// A board that differs from `g` only by the empty cell `(r, c)` is `cleared(g, r, c)`.
pub proof fn lemma_cleared(g: Grid, b: Grid, r: int, c: int)
    requires
        in_grid(r, c),
        forall|i: int, j: int| in_grid(i, j) ==> b[i][j] == if i == r && j == c { EMPTY } else { g[i][j] },
    ensures
        b == cleared(g, r, c),
{
    let inner = vstd::array::spec_array_update(g[r], c, EMPTY);
    assert(inner@ == g[r]@.update(c, EMPTY));
    assert forall|j: int| 0 <= j < 9 implies b[r]@[j] == inner@[j] by {
        assert(in_grid(r, j));
        assert(b[r][j] == if j == c { EMPTY } else { g[r][j] });
    }
    assert(b[r]@ =~= inner@);
    assert(b[r] =~= inner);
    let outer = vstd::array::spec_array_update(g, r, inner);
    assert(outer@ == g@.update(r, inner));
    assert forall|i: int| 0 <= i < 9 implies b@[i] == outer@[i] by {
        if i != r {
            assert forall|j: int| 0 <= j < 9 implies b[i]@[j] == g[i]@[j] by {
                assert(in_grid(i, j));
                assert(b[i][j] == g[i][j]);
            }
            assert(b[i]@ =~= g[i]@);
            assert(b[i] =~= g[i]);
        }
    }
    assert(b@ =~= outer@);
    assert(b =~= outer);
}

/// The cells of the grid, each once.
pub open spec fn is_cell_order(cells: Seq<(usize, usize)>) -> bool {
    &&& cells.no_duplicates()
    &&& cells.len() == 81
    &&& forall|i: int| 0 <= i < cells.len() ==> (#[trigger] cells[i]).0 < 9 && cells[i].1 < 9
}

/// Thinning out `g`, taking the cells from the end of `cells`: each cell is emptied (with
/// its mirror through the centre when `mirrored`), and kept empty when the board still has
/// exactly one completion, which counts one (or two) fewer filled cells. As soon as the
/// count reaches `max`, that board is the result; when the cells run out first, there is
/// none.
pub open spec fn thin_result(g: Grid, cells: Seq<(usize, usize)>, mirrored: bool, filled: int, max: int) -> Option<Grid>
    decreases cells.len(),
{
    if cells.len() == 0 {
        None
    } else {
        let r = cells.last().0 as int;
        let c = cells.last().1 as int;
        let rest = cells.drop_last();
        let g2 = if mirrored { cleared(cleared(g, r, c), 8 - r, 8 - c) } else { cleared(g, r, c) };
        let step: int = if mirrored { 2 } else { 1 };
        if unique_completion(g2) {
            if filled - step <= max {
                Some(g2)
            } else {
                thin_result(g2, rest, mirrored, filled - step, max)
            }
        } else {
            thin_result(g, rest, mirrored, filled, max)
        }
    }
}

/// Thinning out only empties cells and keeps exactly one completion: the board it gives
/// has one solution, and each of its filled cells holds the digit of `g`.
pub proof fn lemma_thin_result(g: Grid, cells: Seq<(usize, usize)>, mirrored: bool, filled: int, max: int)
    requires
        forall|i: int| 0 <= i < cells.len() ==> (#[trigger] cells[i]).0 < 9 && cells[i].1 < 9,
    ensures
        thin_result(g, cells, mirrored, filled, max) matches Some(b) ==> {
            &&& unique_completion(b)
            &&& forall|r: int, c: int| in_grid(r, c) ==> b[r][c] == EMPTY || b[r][c] == g[r][c]
        },
    decreases cells.len(),
{
    if cells.len() > 0 {
        let r = cells.last().0 as int;
        let c = cells.last().1 as int;
        let rest = cells.drop_last();
        assert(cells[cells.len() - 1] == cells.last());
        let g1 = cleared(g, r, c);
        let g2 = if mirrored { cleared(g1, 8 - r, 8 - c) } else { g1 };
        assert forall|i: int, j: int| in_grid(i, j) implies g1[i][j] == if i == r && j == c { EMPTY } else { g[i][j] } by {}
        assert forall|i: int, j: int| in_grid(i, j) implies g2[i][j] == EMPTY || g2[i][j] == g[i][j] by {
            if mirrored {
                assert(g2[i][j] == if i == 8 - r && j == 8 - c { EMPTY } else { g1[i][j] });
            }
        }
        let step: int = if mirrored { 2 } else { 1 };
        assert forall|i: int| 0 <= i < rest.len() implies (#[trigger] rest[i]).0 < 9 && rest[i].1 < 9 by {
            assert(rest[i] == cells[i]);
        }
        lemma_thin_result(g2, rest, mirrored, filled - step, max);
        lemma_thin_result(g, rest, mirrored, filled, max);
    }
}

/// Thin out the board of `sudoku` along `cells`; see `thin_result`. The board found
/// becomes the original board too.
#[verifier::loop_isolation(false)]
pub fn thin_out(sudoku: Sudoku, cells: Vec<(usize, usize)>, thinning: Option<ThinningAlgorithm>, max_filled_cells: usize) -> (res: Option<Sudoku>)
    requires
        forall|i: int| 0 <= i < cells@.len() ==> (#[trigger] cells@[i]).0 < 9 && cells@[i].1 < 9,
        cells@.len() <= 81,
        thinning == Some(ThinningAlgorithm::Mirrored) ==> max_filled_cells >= 1,
    ensures
        thin_result(sudoku.board, cells@, thinning == Some(ThinningAlgorithm::Mirrored), 81, max_filled_cells as int) matches Some(b)
            ==> res matches Some(s) && s.board == b && s.original_board == b && s.candidates == sudoku.candidates && s.rating
            == sudoku.rating,
        thin_result(sudoku.board, cells@, thinning == Some(ThinningAlgorithm::Mirrored), 81, max_filled_cells as int) is None
            ==> res is None,
{
    let mirrored = match thinning {
        Some(ThinningAlgorithm::Mirrored) => true,
        _ => false,
    };
    let ghost max = max_filled_cells as int;
    let ghost goal = thin_result(sudoku.board, cells@, mirrored, 81, max);
    let mut sudoku = sudoku;
    let ghost start = sudoku;
    let mut cells = cells;
    let mut filled_cells: usize = 81;
    while cells.len() > 0
        invariant
            mirrored == (thinning == Some(ThinningAlgorithm::Mirrored)),
            mirrored ==> max_filled_cells >= 1,
            max == max_filled_cells as int,
            goal == thin_result(sudoku.board, cells@, mirrored, filled_cells as int, max),
            forall|i: int| 0 <= i < cells@.len() ==> (#[trigger] cells@[i]).0 < 9 && cells@[i].1 < 9,
            filled_cells > max_filled_cells || filled_cells == 81,
            filled_cells <= 81,
            sudoku.candidates == start.candidates,
            sudoku.rating == start.rating,
        decreases cells@.len(),
    {
        let ghost before = sudoku.board;
        let ghost list = cells@;
        let ghost f0 = filled_cells as int;
        let (row, col) = cells.pop().unwrap();
        proof {
            assert(list.last() == (row, col));
            assert(cells@ == list.drop_last());
            assert(list[list.len() - 1] == (row, col));
        }
        if mirrored {
            let mirror_row = 8 - row;
            let mirror_col = 8 - col;
            let cell1 = sudoku.board[row][col];
            let cell2 = sudoku.board[mirror_row][mirror_col];
            sudoku.board[row][col] = EMPTY;
            let ghost once = sudoku.board;
            sudoku.board[mirror_row][mirror_col] = EMPTY;
            proof {
                lemma_cleared(before, once, row as int, col as int);
                lemma_cleared(once, sudoku.board, mirror_row as int, mirror_col as int);
            }
            if sudoku.has_unique_solution() {
                filled_cells = filled_cells - 2;
                if filled_cells <= max_filled_cells {
                    proof {
                        assert(thin_result(before, list, mirrored, f0, max) == Some(sudoku.board));
                        assert(goal == Some(sudoku.board));
                    }
                    sudoku.original_board = sudoku.board;
                    return Some(sudoku);
                }
            } else {
                sudoku.board[row][col] = cell1;
                sudoku.board[mirror_row][mirror_col] = cell2;
                proof {
                    assert forall|i: int| 0 <= i < 9 implies sudoku.board[i] =~= before[i] by {}
                    assert(sudoku.board =~= before);
                }
            }
        } else {
            let cell = sudoku.board[row][col];
            sudoku.board[row][col] = EMPTY;
            proof {
                lemma_cleared(before, sudoku.board, row as int, col as int);
            }
            if sudoku.has_unique_solution() {
                filled_cells = filled_cells - 1;
                if filled_cells <= max_filled_cells {
                    proof {
                        assert(thin_result(before, list, mirrored, f0, max) == Some(sudoku.board));
                        assert(goal == Some(sudoku.board));
                    }
                    sudoku.original_board = sudoku.board;
                    return Some(sudoku);
                }
            } else {
                sudoku.board[row][col] = cell;
                proof {
                    assert forall|i: int| 0 <= i < 9 implies sudoku.board[i] =~= before[i] by {}
                    assert(sudoku.board =~= before);
                }
            }
        }
    }
    None
}

/// The cells of the grid, row by row.
pub open spec fn grid_cells() -> Seq<(usize, usize)> {
    Seq::new(81, |i: int| ((i / 9) as usize, (i % 9) as usize))
}

/// The cells of the grid, row by row.
fn all_cells() -> (v: Vec<(usize, usize)>)
    ensures
        v@ == grid_cells(),
{
    let mut v: Vec<(usize, usize)> = Vec::new();
    let mut k: usize = 0;
    while k < 81
        invariant
            k <= 81,
            v@ == grid_cells().take(k as int),
        decreases 81 - k,
    {
        v.push((k / 9, k % 9));
        proof {
            assert(grid_cells().take(k + 1) =~= grid_cells().take(k as int).push((k / 9, k % 9)));
        }
        k = k + 1;
    }
    proof {
        assert(grid_cells().take(81) =~= grid_cells());
    }
    v
}

/// A reordering of the cells of the grid is an order of the cells.
pub proof fn lemma_shuffled_cells(v: Seq<(usize, usize)>)
    requires
        v.to_multiset() == grid_cells().to_multiset(),
    ensures
        is_cell_order(v),
{
    let g = grid_cells();
    assert(g.no_duplicates()) by {
        assert forall|i: int, j: int| 0 <= i < g.len() && 0 <= j < g.len() && i != j implies g[i] != g[j] by {
            if g[i] == g[j] {
                assert(i == 9 * (i / 9) + i % 9);
                assert(j == 9 * (j / 9) + j % 9);
            }
        }
    }
    g.lemma_multiset_has_no_duplicates();
    v.to_multiset_ensures();
    g.to_multiset_ensures();
    v.lemma_multiset_has_no_duplicates_conv();
    assert forall|i: int| 0 <= i < v.len() implies (#[trigger] v[i]).0 < 9 && v[i].1 < 9 by {
        assert(v.contains(v[i]));
        assert(v.to_multiset().count(v[i]) > 0);
        assert(g.to_multiset().count(v[i]) > 0);
        assert(g.contains(v[i]));
        let k = choose|k: int| 0 <= k < g.len() && g[k] == v[i];
    }
}

/// The digits `1..=9` in order.
pub open spec fn one_to_nine() -> Seq<u8> {
    seq![1u8, 2, 3, 4, 5, 6, 7, 8, 9]
}

/// The digits of the diagonal box `b` (`0`, `1` or `2` down the diagonal), cell by cell.
pub open spec fn diagonal_box(g: Grid, b: int) -> Seq<u8> {
    Seq::new(9, |i: int| g[3 * b + i / 3][3 * b + i % 3])
}

/// The three boxes on the diagonal each hold the digits `1..=9`, each once, and every
/// other cell is empty.
pub open spec fn diagonal_board(g: Grid) -> bool {
    &&& forall|b: int| 0 <= b < 3 ==> (#[trigger] diagonal_box(g, b)).to_multiset() == one_to_nine().to_multiset()
    &&& forall|r: int, c: int| in_grid(r, c) && r / 3 != c / 3 ==> g[r][c] == EMPTY
}

/// A board whose three diagonal boxes are filled with the digits in an order left to chance.
fn random_diagonal_board(rng: &mut rand::rngs::ThreadRng) -> (s: Sudoku)
    ensures
        diagonal_board(s.board),
        s.original_board == s.board,
        crate::board::all_notes_empty(s.candidates),
        crate::board::all_zero_rating(s.rating),
{
    let mut all_digits: Vec<u8> = vec![1u8, 2, 3, 4, 5, 6, 7, 8, 9];
    let mut sudoku = Sudoku::new();
    proof {
        assert(all_digits@ =~= one_to_nine());
    }
    let mut box_idx: usize = 0;
    while box_idx < 3
        invariant
            box_idx <= 3,
            all_digits@.to_multiset() == one_to_nine().to_multiset(),
            forall|b: int| 0 <= b < box_idx ==> (#[trigger] diagonal_box(sudoku.board, b)).to_multiset() == one_to_nine().to_multiset(),
            forall|r: int, c: int| in_grid(r, c) && (r / 3 != c / 3 || r / 3 >= box_idx) ==> sudoku.board[r][c] == EMPTY,
            crate::board::all_notes_empty(sudoku.candidates),
            crate::board::all_zero_rating(sudoku.rating),
        decreases 3 - box_idx,
    {
        shuffle(&mut all_digits, rng);
        proof {
            all_digits@.to_multiset_ensures();
            one_to_nine().to_multiset_ensures();
        }
        let start = box_idx * 3;
        let ghost before = sudoku.board;
        let mut i: usize = 0;
        while i < 9
            invariant
                box_idx < 3,
                start == box_idx * 3,
                i <= 9,
                all_digits@.len() == 9,
                forall|j: int| 0 <= j < i ==> sudoku.board[3 * box_idx + j / 3][3 * box_idx + j % 3] == all_digits@[j],
                forall|r: int, c: int|
                    in_grid(r, c) && !(r / 3 == box_idx && c / 3 == box_idx && 3 * (r - 3 * box_idx) + (c - 3 * box_idx) < i)
                        ==> sudoku.board[r][c] == before[r][c],
                crate::board::all_notes_empty(sudoku.candidates),
                crate::board::all_zero_rating(sudoku.rating),
            decreases 9 - i,
        {
            sudoku.board[start + i / 3][start + i % 3] = all_digits[i];
            i = i + 1;
        }
        proof {
            assert(diagonal_box(sudoku.board, box_idx as int) =~= all_digits@);
            assert forall|b: int| 0 <= b < box_idx + 1 implies (#[trigger] diagonal_box(sudoku.board, b)).to_multiset()
                == one_to_nine().to_multiset() by {
                if b < box_idx {
                    assert forall|j: int| 0 <= j < 9 implies #[trigger] diagonal_box(sudoku.board, b)[j] == diagonal_box(before, b)[j] by {
                        let r = 3 * b + j / 3;
                        let c = 3 * b + j % 3;
                        assert(r / 3 == b && c / 3 == b);
                        assert(in_grid(r, c));
                    }
                    assert(diagonal_box(sudoku.board, b) =~= diagonal_box(before, b));
                }
            }
        }
        box_idx = box_idx + 1;
    }
    sudoku.original_board = sudoku.board;
    sudoku
}

/// Every filled cell holds a digit `1..=9` that none of its peers holds.
pub open spec fn consistent(g: Grid) -> bool {
    forall|r: int, c: int|
        in_grid(r, c) && g[r][c] != EMPTY ==> 1 <= g[r][c] <= 9 && forall|r2: int, c2: int|
            in_grid(r2, c2) && peers(r, c, r2, c2) ==> #[trigger] g[r2][c2] != g[r][c]
}

/// Placing a digit where it can go keeps the board consistent.
proof fn lemma_place_consistent(g: Grid, g2: Grid, row: int, col: int, d: u8)
    requires
        consistent(g),
        in_grid(row, col),
        1 <= d <= 9,
        placeable(g, row, col, d as int),
        crate::board::grid_set(g, g2, row, col, d),
    ensures
        consistent(g2),
{
    assert forall|r: int, c: int| in_grid(r, c) && g2[r][c] != EMPTY implies 1 <= g2[r][c] <= 9 && forall|r2: int, c2: int|
        in_grid(r2, c2) && peers(r, c, r2, c2) ==> #[trigger] g2[r2][c2] != g2[r][c] by {
        assert forall|r2: int, c2: int| in_grid(r2, c2) && peers(r, c, r2, c2) implies #[trigger] g2[r2][c2] != g2[r][c] by {
            if r == row && c == col {
                if g[r2][c2] == d {
                    if r2 == r {
                        assert(crate::board::in_row(g, row, d as int));
                    } else if c2 == c {
                        assert(crate::board::in_col(g, col, d as int));
                    } else {
                        assert(crate::board::in_box(g, row, col, d as int));
                    }
                }
            } else if r2 == row && c2 == col {
                if g[r][c] == d {
                    if r2 == r {
                        assert(crate::board::in_row(g, row, d as int));
                    } else if c2 == c {
                        assert(crate::board::in_col(g, col, d as int));
                    } else {
                        assert(crate::board::same_box(row, col, r, c));
                        assert(crate::board::in_box(g, row, col, d as int));
                    }
                }
            }
        }
    }
}

/// An empty board has 81 empty cells.
proof fn lemma_empty_below_zero(g: Grid, k: int)
    requires
        crate::board::all_cells_zero(g),
        0 <= k <= 81,
    ensures
        empty_below(g, k) == k,
    decreases k,
{
    if k > 0 {
        lemma_empty_below_zero(g, k - 1);
        assert(in_grid((k - 1) / 9, (k - 1) % 9));
    }
}

/// What a puzzle made by filling cells one at a time is: a consistent board with exactly
/// one completion, `filled` cells filled, which is its own original board, with no
/// candidate and no rating.
pub open spec fn incremental_puzzle(s: Sudoku, filled: int) -> bool {
    &&& unique_completion(s.board)
    &&& consistent(s.board)
    &&& empty_cells(s.board) == 81 - filled
    &&& s.original_board == s.board
    &&& crate::board::all_notes_empty(s.candidates)
    &&& crate::board::all_zero_rating(s.rating)
}

/// The board `g` with the cell `(r, c)` set to `v`.
pub open spec fn with_cell(g: Grid, r: int, c: int, v: u8) -> Grid {
    vstd::array::spec_array_update(g, r, vstd::array::spec_array_update(g[r], c, v))
}

/// A board that differs from `g` only by `v` in the cell `(r, c)` is `with_cell(g, r, c, v)`.
proof fn lemma_with_cell(g: Grid, b: Grid, r: int, c: int, v: u8)
    requires
        in_grid(r, c),
        forall|i: int, j: int| in_grid(i, j) ==> b[i][j] == if i == r && j == c { v } else { g[i][j] },
    ensures
        b == with_cell(g, r, c, v),
{
    let inner = vstd::array::spec_array_update(g[r], c, v);
    assert(inner@ == g[r]@.update(c, v));
    assert forall|j: int| 0 <= j < 9 implies b[r]@[j] == inner@[j] by {
        assert(in_grid(r, j));
    }
    assert(b[r]@ =~= inner@);
    assert(b[r] =~= inner);
    let outer = vstd::array::spec_array_update(g, r, inner);
    assert(outer@ == g@.update(r, inner));
    assert forall|i: int| 0 <= i < 9 implies b@[i] == outer@[i] by {
        if i != r {
            assert forall|j: int| 0 <= j < 9 implies b[i]@[j] == g[i]@[j] by {
                assert(in_grid(i, j));
            }
            assert(b[i]@ =~= g[i]@);
            assert(b[i] =~= g[i]);
        }
    }
    assert(b@ =~= outer@);
    assert(b =~= outer);
}

/// The board with every cell empty.
pub open spec fn empty_grid() -> Grid {
    vstd::array::spec_array_fill_for_copy_type::<[u8; 9], 9>(vstd::array::spec_array_fill_for_copy_type::<u8, 9>(EMPTY))
}

/// A board with every cell empty is the empty board.
proof fn lemma_empty_grid(g: Grid)
    requires
        crate::board::all_cells_zero(g),
    ensures
        g == empty_grid(),
{
    let z = vstd::array::spec_array_fill_for_copy_type::<u8, 9>(EMPTY);
    let e = empty_grid();
    assert forall|i: int| 0 <= i < 9 implies g@[i] == e@[i] by {
        assert(e@[i] == z);
        assert forall|j: int| 0 <= j < 9 implies g[i]@[j] == z@[j] by {
            assert(in_grid(i, j));
        }
        assert(g[i]@ =~= z@);
        assert(g[i] =~= z);
    }
    assert(g@ =~= e@);
    assert(g =~= e);
}

/// Filling cells one at a time from the board `g` that has `filled` cells filled: the
/// `k`-th cell taken is `cells[len - 1 - k]`, from the end, and it gets `digits[k]` where
/// that digit can go. Once `max` cells are filled, the board; when the cells run out
/// first, none.
pub open spec fn fill_from(g: Grid, cells: Seq<(usize, usize)>, digits: Seq<u8>, k: int, filled: int, max: int) -> Option<Grid>
    decreases cells.len() - k,
{
    if filled >= max {
        Some(g)
    } else if k < 0 || k >= cells.len() {
        None
    } else {
        let r = cells[cells.len() - 1 - k].0 as int;
        let c = cells[cells.len() - 1 - k].1 as int;
        let d = digits[k];
        if placeable(g, r, c, d as int) {
            fill_from(with_cell(g, r, c, d), cells, digits, k + 1, filled + 1, max)
        } else {
            fill_from(g, cells, digits, k + 1, filled, max)
        }
    }
}

/// What filling the empty board cell by cell gives: the filled board, when it has
/// exactly one completion.
pub open spec fn incremental_outcome(cells: Seq<(usize, usize)>, digits: Seq<u8>, max: int) -> Option<Grid> {
    match fill_from(empty_grid(), cells, digits, 0, 0, max) {
        Some(g) => if unique_completion(g) {
            Some(g)
        } else {
            None
        },
        None => None,
    }
}

/// Make a puzzle by filling the empty board cell by cell: the cells are taken from the end
/// of `cells`, the `k`-th taken gets `digits[k]` where that digit can go, until
/// `max_cells_to_fill` cells are filled. The puzzle is returned exactly when that board has
/// exactly one solution; `None` also when the cells run out first.
pub fn fill_incrementally(cells: Vec<(usize, usize)>, digits: Vec<u8>, max_cells_to_fill: usize) -> (res: Option<Sudoku>)
    requires
        forall|i: int| 0 <= i < cells@.len() ==> (#[trigger] cells@[i]).0 < 9 && cells@[i].1 < 9,
        digits@.len() >= cells@.len(),
        forall|i: int| 0 <= i < digits@.len() ==> 1 <= #[trigger] digits@[i] <= 9,
    ensures
        res is Some <==> incremental_outcome(cells@, digits@, max_cells_to_fill as int) is Some,
        res matches Some(s) ==> s.board == incremental_outcome(cells@, digits@, max_cells_to_fill as int)->0 && incremental_puzzle(
            s,
            max_cells_to_fill as int,
        ),
{
    let mut sudoku = Sudoku::new();
    proof {
        lemma_empty_below_zero(sudoku.board, 81);
        lemma_empty_grid(sudoku.board);
    }
    let ghost goal = fill_from(empty_grid(), cells@, digits@, 0, 0, max_cells_to_fill as int);
    let n = cells.len();
    let mut filled: usize = 0;
    let mut k: usize = 0;
    while filled < max_cells_to_fill
        invariant
            n == cells@.len(),
            k <= n,
            filled <= k,
            filled <= max_cells_to_fill,
            forall|i: int| 0 <= i < cells@.len() ==> (#[trigger] cells@[i]).0 < 9 && cells@[i].1 < 9,
            digits@.len() >= cells@.len(),
            forall|i: int| 0 <= i < digits@.len() ==> 1 <= #[trigger] digits@[i] <= 9,
            goal == fill_from(empty_grid(), cells@, digits@, 0, 0, max_cells_to_fill as int),
            goal == fill_from(sudoku.board, cells@, digits@, k as int, filled as int, max_cells_to_fill as int),
            empty_cells(sudoku.board) == 81 - filled,
            consistent(sudoku.board),
            crate::board::all_notes_empty(sudoku.candidates),
            crate::board::all_zero_rating(sudoku.rating),
        decreases n - k,
    {
        if k == n {
            return None;
        }
        let (row, col) = cells[n - 1 - k];
        let digit = digits[k];
        if sudoku.can_place(row, col, digit) {
            let ghost before = sudoku.board;
            sudoku.board[row][col] = digit;
            proof {
                assert(crate::board::grid_set(before, sudoku.board, row as int, col as int, digit));
                lemma_place_consistent(before, sudoku.board, row as int, col as int, digit);
                lemma_empty_below_set(before, sudoku.board, row as int, col as int, digit, 81);
                lemma_with_cell(before, sudoku.board, row as int, col as int, digit);
            }
            filled = filled + 1;
        }
        k = k + 1;
    }
    sudoku.original_board = sudoku.board;
    if sudoku.has_unique_solution() {
        Some(sudoku)
    } else {
        None
    }
}

/// Make a puzzle by filling cells: the cells in an order left to chance, each with a
/// digit left to chance, kept where the digit can go, until `max_cells_to_fill` cells are
/// filled (see `fill_incrementally`, which is given the cells and the digits drawn). The
/// puzzle is returned only when it has exactly one solution; `None` also when the cells run
/// out first.
pub fn generate_incrementally(max_cells_to_fill: usize) -> (res: Option<Sudoku>)
    requires
        17 <= max_cells_to_fill <= 81,
    ensures
        res matches Some(s) ==> incremental_puzzle(s, max_cells_to_fill as int),
        exists|cells: Seq<(usize, usize)>, digits: Seq<u8>|
            #![trigger incremental_outcome(cells, digits, max_cells_to_fill as int)]
            {
                &&& is_cell_order(cells)
                &&& digits.len() == 81
                &&& forall|i: int| 0 <= i < digits.len() ==> 1 <= #[trigger] digits[i] <= 9
                &&& match res {
                    Some(s) => incremental_outcome(cells, digits, max_cells_to_fill as int) == Some(s.board),
                    None => incremental_outcome(cells, digits, max_cells_to_fill as int) is None,
                }
            },
{
    let mut rng = thread_rng();
    let mut available_cells = all_cells();
    shuffle(&mut available_cells, &mut rng);
    proof {
        lemma_shuffled_cells(available_cells@);
    }
    let mut digits: Vec<u8> = Vec::new();
    while digits.len() < 81
        invariant
            digits@.len() <= 81,
            forall|i: int| 0 <= i < digits@.len() ==> 1 <= #[trigger] digits@[i] <= 9,
        decreases 81 - digits@.len(),
    {
        let d = random_in(&mut rng, 1, 9);
        digits.push(d);
    }
    let ghost cells_drawn = available_cells@;
    let ghost digits_drawn = digits@;
    let res = fill_incrementally(available_cells, digits, max_cells_to_fill);
    proof {
        assert(is_cell_order(cells_drawn));
        assert(res matches Some(s) ==> incremental_outcome(cells_drawn, digits_drawn, max_cells_to_fill as int) == Some(s.board));
        assert(res is None ==> incremental_outcome(cells_drawn, digits_drawn, max_cells_to_fill as int) is None);
    }
    res
}

/// `sols` are completions of `d`, each once; all of them unless the search stopped at
/// `usize::MAX`.
pub open spec fn completions_of(d: Grid, sols: Seq<Grid>) -> bool {
    &&& sols.no_duplicates()
    &&& forall|i: int| 0 <= i < sols.len() ==> crate::board::valid_completion(d, #[trigger] sols[i])
    &&& sols.len() < usize::MAX ==> forall|full: Grid| crate::board::valid_completion(d, full) ==> sols.contains(full)
}

/// `b` is `g` with every cell emptied whose position, row by row, holds `'0'` in the mask.
pub open spec fn masked(g: Grid, mask: Option<String>, b: Grid) -> bool {
    forall|r: int, c: int|
        in_grid(r, c) ==> b[r][c] == if mask matches Some(m) && 9 * r + c < m@.len() && m@[9 * r + c] == '0' {
            EMPTY
        } else {
            g[r][c]
        }
}

/// The mask leaves a board of `g` with exactly one completion.
pub open spec fn mask_works(g: Grid, mask: Option<String>) -> bool {
    exists|b: Grid| masked(g, mask, b) && unique_completion(b)
}

/// A generator of puzzles: the grids it starts from, and how it makes puzzles of them.
pub struct SudokuGenerator {
    pub fill_algorithm: FillAlgorithm,
    pub thinning_algorithm: Option<ThinningAlgorithm>,
    pub max_filled_cells: usize,
    pub solutions: Vec<Grid>,
    pub next_solution: usize,
    pub mask: Option<String>,
}

impl SudokuGenerator {
    /// The generator can run: filling one cell at a time needs 17 to 81 filled cells,
    /// and mirrored thinning at least one.
    pub open spec fn wf(&self) -> bool {
        &&& self.fill_algorithm == FillAlgorithm::Incremental ==> 17 <= self.max_filled_cells <= 81
        &&& self.thinning_algorithm == Some(ThinningAlgorithm::Mirrored) ==> self.max_filled_cells >= 1
        &&& self.next_solution <= self.solutions@.len()
    }

    /// A generator. With a mask it fills by mask and does not thin. Filling by mask or by
    /// the diagonal starts from all completions of a board whose three diagonal boxes hold
    /// the digits in an order left to chance; filling one cell at a time starts from one
    /// such puzzle, if one came out.
    pub fn new(
        fill_algorithm: FillAlgorithm,
        thinning_algorithm: Option<ThinningAlgorithm>,
        max_filled_cells: usize,
        mask: Option<String>,
    ) -> (g: Self)
        requires
            mask is None && fill_algorithm == FillAlgorithm::Incremental ==> 17 <= max_filled_cells <= 81,
            mask is None && thinning_algorithm == Some(ThinningAlgorithm::Mirrored) ==> max_filled_cells >= 1,
        ensures
            g.wf(),
            g.fill_algorithm == if mask is Some { FillAlgorithm::Mask } else { fill_algorithm },
            g.thinning_algorithm == if mask is Some { None } else { thinning_algorithm },
            g.max_filled_cells == max_filled_cells,
            g.mask == mask,
            g.next_solution == 0,
            g.fill_algorithm != FillAlgorithm::Incremental ==> exists|d: Grid| diagonal_board(d) && completions_of(d, g.solutions@),
            g.fill_algorithm == FillAlgorithm::Incremental ==> g.solutions@.len() <= 1 && forall|i: int|
                0 <= i < g.solutions@.len() ==> exists|s: Sudoku| incremental_puzzle(s, max_filled_cells as int) && s.board == #[trigger] g.solutions@[i],
    {
        let mut fill_algorithm = fill_algorithm;
        let mut thinning_algorithm = thinning_algorithm;
        if mask.is_some() {
            fill_algorithm = FillAlgorithm::Mask;
            thinning_algorithm = None;
        }
        let solutions = match fill_algorithm {
            FillAlgorithm::Incremental => {
                match generate_incrementally(max_filled_cells) {
                    Some(solution) => {
                        let v = vec![solution.board];
                        proof {
                            assert(v@[0] == solution.board);
                        }
                        v
                    },
                    None => Vec::new(),
                }
            },
            _ => {
                let mut rng = thread_rng();
                let sudoku = random_diagonal_board(&mut rng);
                let v = sudoku.all_solutions();
                proof {
                    assert(diagonal_board(sudoku.board) && completions_of(sudoku.board, v@));
                }
                v
            },
        };
        SudokuGenerator { fill_algorithm, thinning_algorithm, max_filled_cells, solutions, next_solution: 0, mask }
    }

    /// Thin out the board of `sudoku` along the cells in an order left to chance; see
    /// `thin_out`.
    fn try_thin_out_puzzle(&mut self, sudoku: Sudoku) -> (res: Option<Sudoku>)
        requires
            old(self).thinning_algorithm == Some(ThinningAlgorithm::Mirrored) ==> old(self).max_filled_cells >= 1,
        ensures
            *final(self) == *old(self),
            exists|cells: Seq<(usize, usize)>| {
                &&& is_cell_order(cells)
                &&& thin_result(sudoku.board, cells, old(self).thinning_algorithm == Some(ThinningAlgorithm::Mirrored), 81, old(self).max_filled_cells as int)
                    matches Some(b) ==> res matches Some(s) && s.board == b && s.original_board == b
                &&& thin_result(sudoku.board, cells, old(self).thinning_algorithm == Some(ThinningAlgorithm::Mirrored), 81, old(self).max_filled_cells as int)
                    is None ==> res is None
            },
    {
        let mut available_cells = all_cells();
        let mut rng = thread_rng();
        shuffle(&mut available_cells, &mut rng);
        proof {
            lemma_shuffled_cells(available_cells@);
        }
        let ghost cells = available_cells@;
        let res = thin_out(sudoku, available_cells, self.thinning_algorithm, self.max_filled_cells);
        proof {
            assert(is_cell_order(cells));
        }
        res
    }
}

/// Nothing but the position in the grids changes.
pub open spec fn same_setup(a: SudokuGenerator, b: SudokuGenerator) -> bool {
    &&& b.fill_algorithm == a.fill_algorithm
    &&& b.thinning_algorithm == a.thinning_algorithm
    &&& b.max_filled_cells == a.max_filled_cells
    &&& b.solutions == a.solutions
    &&& b.mask == a.mask
}

impl SudokuGenerator {
    /// Empty the cells of the board that the mask marks with `'0'`.
    fn apply_mask(&self, board: Grid) -> (b: Grid)
        ensures
            masked(board, self.mask, b),
    {
        let mut b = board;
        match &self.mask {
            Some(mask) => {
                let mut i: usize = 0;
                for ch in it: mask.chars()
                    invariant
                        it.seq() == mask@,
                        i == if it.index() < 81 { it.index() as int } else { 81 },
                        forall|r: int, c: int|
                            in_grid(r, c) ==> b[r][c] == if 9 * r + c < i && mask@[9 * r + c] == '0' {
                                EMPTY
                            } else {
                                board[r][c]
                            },
                {
                    if i < 81 {
                        if ch == '0' {
                            b[i / 9][i % 9] = EMPTY;
                        }
                        proof {
                            assert forall|r: int, c: int| in_grid(r, c) implies b[r][c] == if 9 * r + c < i + 1 && mask@[9 * r + c] == '0' {
                                EMPTY
                            } else {
                                board[r][c]
                            } by {
                                if 9 * r + c == i {
                                    assert(r == i / 9 && c == i % 9);
                                    assert(mask@[i as int] == ch);
                                } else {
                                    assert(r != i / 9 || c != i % 9);
                                }
                            }
                        }
                        i = i + 1;
                    }
                }
                proof {
                    assert forall|r: int, c: int| in_grid(r, c) implies b[r][c] == if 9 * r + c < mask@.len() && mask@[9 * r + c] == '0' {
                        EMPTY
                    } else {
                        board[r][c]
                    } by {
                        assert(9 * r + c < 81);
                    }
                }
            },
            None => {},
        }
        b
    }

    /// The next puzzle, if there is one more.
    ///
    /// Filling by the diagonal thins out the grids in turn, each along the cells in an
    /// order left to chance, and gives the first puzzle that comes out. Filling by mask
    /// gives the first grid in turn that the mask leaves with exactly one solution.
    /// Filling one cell at a time makes a new such puzzle.
    pub fn next(&mut self) -> (res: Option<Sudoku>)
        requires
            old(self).wf(),
        ensures
            final(self).wf(),
            same_setup(*old(self), *final(self)),
            old(self).next_solution <= final(self).next_solution,
            old(self).fill_algorithm == FillAlgorithm::DiagonalThinOut ==> {
                &&& res is None ==> final(self).next_solution == old(self).solutions@.len()
                &&& res matches Some(s) ==> s.original_board == s.board && exists|i: int, cells: Seq<(usize, usize)>|
                    old(self).next_solution <= i < final(self).next_solution && is_cell_order(cells) && thin_result(
                        old(self).solutions@[i],
                        cells,
                        old(self).thinning_algorithm == Some(ThinningAlgorithm::Mirrored),
                        81,
                        old(self).max_filled_cells as int,
                    ) == Some(s.board)
            },
            old(self).fill_algorithm == FillAlgorithm::Mask ==> {
                &&& forall|j: int|
                    old(self).next_solution <= j < final(self).next_solution - if res is Some { 1int } else { 0int }
                        ==> !mask_works(#[trigger] old(self).solutions@[j], old(self).mask)
                &&& res is None ==> final(self).next_solution == old(self).solutions@.len()
                &&& res matches Some(s) ==> {
                    &&& final(self).next_solution >= 1
                    &&& masked(old(self).solutions@[final(self).next_solution - 1], old(self).mask, s.board)
                    &&& unique_completion(s.board)
                    &&& s.original_board == s.board
                }
            },
            old(self).fill_algorithm == FillAlgorithm::Incremental ==> {
                &&& final(self).next_solution == old(self).next_solution
                &&& res matches Some(s) ==> incremental_puzzle(s, old(self).max_filled_cells as int)
            },
            res matches Some(s) ==> unique_completion(s.board),
    {
        match self.fill_algorithm {
            FillAlgorithm::DiagonalThinOut => {
                while self.next_solution < self.solutions.len()
                    invariant
                        self.wf(),
                        same_setup(*old(self), *self),
                        old(self).next_solution <= self.next_solution,
                        self.fill_algorithm == FillAlgorithm::DiagonalThinOut,
                    decreases self.solutions@.len() - self.next_solution,
                {
                    let board = self.solutions[self.next_solution];
                    let ghost i = self.next_solution as int;
                    self.next_solution = self.next_solution + 1;
                    let sudoku = Sudoku::from_board(board);
                    let reduced = self.try_thin_out_puzzle(sudoku);
                    if let Some(r) = reduced {
                        proof {
                            let cells = choose|cells: Seq<(usize, usize)>| {
                                &&& is_cell_order(cells)
                                &&& thin_result(board, cells, self.thinning_algorithm == Some(ThinningAlgorithm::Mirrored), 81, self.max_filled_cells as int)
                                    matches Some(b) ==> reduced matches Some(s) && s.board == b && s.original_board == b
                                &&& thin_result(board, cells, self.thinning_algorithm == Some(ThinningAlgorithm::Mirrored), 81, self.max_filled_cells as int)
                                    is None ==> reduced is None
                            };
                            assert(old(self).solutions@[i] == board);
                            assert(thin_result(old(self).solutions@[i], cells, old(self).thinning_algorithm == Some(ThinningAlgorithm::Mirrored), 81, old(self).max_filled_cells as int) == Some(r.board));
                            lemma_thin_result(
                                old(self).solutions@[i],
                                cells,
                                old(self).thinning_algorithm == Some(ThinningAlgorithm::Mirrored),
                                81,
                                old(self).max_filled_cells as int,
                            );
                        }
                        return Some(r);
                    }
                }
                None
            },
            FillAlgorithm::Mask => {
                while self.next_solution < self.solutions.len()
                    invariant
                        self.wf(),
                        same_setup(*old(self), *self),
                        old(self).next_solution <= self.next_solution,
                        self.fill_algorithm == FillAlgorithm::Mask,
                        forall|j: int| old(self).next_solution <= j < self.next_solution ==> !mask_works(#[trigger] old(self).solutions@[j], old(self).mask),
                    decreases self.solutions@.len() - self.next_solution,
                {
                    let board = self.solutions[self.next_solution];
                    let ghost i = self.next_solution as int;
                    self.next_solution = self.next_solution + 1;
                    let mut masked_sudoku = Sudoku::from_board(self.apply_mask(board));
                    if masked_sudoku.has_unique_solution() {
                        masked_sudoku.original_board = masked_sudoku.board;
                        return Some(masked_sudoku);
                    }
                    proof {
                        assert(old(self).solutions@[i] == board);
                        assert forall|b: Grid| masked(board, old(self).mask, b) implies !unique_completion(b) by {
                            assert(b =~= masked_sudoku.board) by {
                                assert forall|r: int| 0 <= r < 9 implies b[r] =~= masked_sudoku.board[r] by {
                                    assert forall|c: int| 0 <= c < 9 implies b[r][c] == masked_sudoku.board[r][c] by {
                                        assert(in_grid(r, c));
                                    }
                                }
                            }
                        }
                    }
                }
                None
            },
            FillAlgorithm::Incremental => generate_incrementally(self.max_filled_cells),
        }
    }
}

} // verus!
