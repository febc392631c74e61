//! Why solving as a human would gives the solution: every step that the solver takes keeps
//! the completions of the board, as long as the candidates keep every digit that a
//! completion puts into a cell.

use vstd::prelude::*;

use crate::board::{lemma_completion_placeable, completes_cell, grid_set, in_box, in_col, in_grid, in_row, peers, same_box, valid_completion, Grid, Sudoku};
use crate::generator::consistent;
use crate::elimination::{
    lemma_claiming_pair_safe, lemma_hidden_pair_safe, lemma_obvious_pair_safe, lemma_obvious_triplet_safe, lemma_pointing_pair_safe,
    lemma_skyscraper_safe, lemma_xwing_safe,
};
use crate::solver::{calculated, counted, first_step, human_step, is_human_run, is_next_step, step_found, step_view, strategy_defined};
use crate::solutions::{lemma_completion_of_placed, lemma_completion_to_placed};
use crate::steps::{applied, can_apply, removes};
use crate::collect::{house_pos, in_house, box_hits, col_hits, row_hits, set_num_view};
use crate::singles::{
    first_hidden_cell, first_single_cell, hidden_at, hidden_num, hidden_single_strategy_view, hidden_single_view, obvious_single_defined,
    obvious_single_view, other_in_unit, unit_cell_col, unit_cell_row,
};
use crate::lastdigit::{
    box_cell_col, box_cell_row, box_last_digit, first_empty_in_box, first_last_digit_box, first_sole_empty_col, first_sole_empty_row,
    last_digit_boxes_view, last_digit_cols_defined, last_digit_cols_view, last_digit_defined, last_digit_rows_defined,
    last_digit_rows_view, last_digit_view, sole_empty_in_col, sole_empty_in_row, sole_missing_in_box, sole_missing_in_col,
    sole_missing_in_row,
};
use crate::digits::{in_mask, sole_in_mask};
use crate::search::lemma_first_from;
use crate::{Candidate, RemovalView, Strategy, StrategyResult, Unit, EMPTY};

verus! {

/// Every completion of the board puts into each empty cell one of its candidates.
pub open spec fn sound(s: Sudoku) -> bool {
    forall|full: Grid, r: int, c: int|
        valid_completion(s.board, full) && in_grid(r, c) && s.board[r][c] == EMPTY ==> #[trigger] s.cand(r, c, full[r][c] as int)
}

/// The candidates of every empty cell are digits from 1 to 9 and leave out the digits of
/// its filled peers.
pub open spec fn clean(s: Sudoku) -> bool {
    &&& forall|r: int, c: int, n: int| in_grid(r, c) && s.board[r][c] == EMPTY && #[trigger] s.cand(r, c, n) ==> 1 <= n <= 9
    &&& forall|r: int, c: int, r2: int, c2: int|
        in_grid(r, c) && in_grid(r2, c2) && peers(r, c, r2, c2) && s.board[r][c] == EMPTY && s.board[r2][c2] != EMPTY ==> !#[trigger] s.cand(
            r,
            c,
            s.board[r2][c2] as int,
        )
}

/// The filled cells have no candidates.
pub open spec fn bare(s: Sudoku) -> bool {
    forall|r: int, c: int, n: int| in_grid(r, c) && s.board[r][c] != EMPTY ==> !#[trigger] s.cand(r, c, n)
}

/// The board can still be solved: its filled cells agree, and it has a completion.
pub open spec fn solvable(g: Grid) -> bool {
    consistent(g) && exists|full: Grid| valid_completion(g, full)
}

/// The view's candidate `x` lies in the cell that the view fills.
pub open spec fn in_filled_cell(v: RemovalView, x: Candidate) -> bool {
    v.sets_cell matches Some(cell) && x.row == cell.row && x.col == cell.col
}

/// A step is safe on `s`: no completion puts into an empty cell that stays empty a digit
/// that the step removes from it; and the cell that the step fills is empty, every
/// completion fills it the same way, and the step removes every candidate of that cell
/// and that digit from the empty peers that have it.
pub open spec fn safe_view(s: Sudoku, v: RemovalView) -> bool {
    &&& forall|full: Grid, x: Candidate|
        #[trigger] valid_completion(s.board, full) && #[trigger] v.removed.contains(x) && x.row < 9 && x.col < 9 && s.board[x.row as int][x.col as int]
            == EMPTY && !in_filled_cell(v, x) ==> full[x.row as int][x.col as int] != x.num
    &&& v.sets_cell matches Some(cell) ==> {
        &&& cell.row < 9 && cell.col < 9
        &&& s.board[cell.row as int][cell.col as int] == EMPTY
        &&& forall|full: Grid| #[trigger] valid_completion(s.board, full) ==> full[cell.row as int][cell.col as int] == cell.num
        &&& forall|n: int|
            #[trigger] s.cand(cell.row as int, cell.col as int, n) ==> v.removed.contains(
                Candidate { row: cell.row, col: cell.col, num: n as u8 },
            )
        &&& forall|r2: int, c2: int|
            in_grid(r2, c2) && peers(cell.row as int, cell.col as int, r2, c2) && s.board[r2][c2] == EMPTY && #[trigger] s.cand(
                r2,
                c2,
                cell.num as int,
            ) ==> v.removed.contains(Candidate { row: r2 as usize, col: c2 as usize, num: cell.num })
    }
}

/// In a completion of a consistent board, two cells that are peers hold different digits,
/// each from 1 to 9.
pub proof fn lemma_completion_distinct(g: Grid, full: Grid, r: int, c: int, r2: int, c2: int)
    requires
        consistent(g),
        valid_completion(g, full),
        in_grid(r, c),
        in_grid(r2, c2),
        peers(r, c, r2, c2),
    ensures
        full[r][c] != full[r2][c2],
        1 <= full[r][c] <= 9,
{
    assert(completes_cell(g, full, r, c));
    assert(completes_cell(g, full, r2, c2));
    if g[r][c] != EMPTY && g[r2][c2] != EMPTY {
        assert(g[r2][c2] != g[r][c]);
    } else if g[r2][c2] == EMPTY {
        assert(peers(r2, c2, r, c));
    }
}

/// The candidates that the solver computes are sound and clean for a consistent board.
pub proof fn lemma_computed_candidates(s: Sudoku, t: Sudoku)
    requires
        consistent(s.board),
        t.board == s.board,
        forall|r: int, c: int, n: int|
            in_grid(r, c) && s.board[r][c] == EMPTY ==> t.cand(r, c, n) == (1 <= n <= 9 && !in_row(s.board, r, n) && !in_col(s.board, c, n)
                && !in_box(s.board, r, c, n)),
    ensures
        sound(t),
        clean(t),
{
    let g = s.board;
    assert forall|full: Grid, r: int, c: int| valid_completion(t.board, full) && in_grid(r, c) && t.board[r][c] == EMPTY implies #[trigger] t.cand(
        r,
        c,
        full[r][c] as int,
    ) by {
        let n = full[r][c] as int;
        assert(g == t.board);
        assert(completes_cell(g, full, r, c));
        assert(1 <= n <= 9);
        if in_row(g, r, n) {
            let c2 = choose|c2: int| 0 <= c2 < 9 && g[r][c2] == n;
            assert(completes_cell(g, full, r, c2));
            assert(full[r][c2] == n);
            assert(c2 != c);
            assert(peers(r, c, r, c2));
            assert(in_grid(r, c2));
        }
        if in_col(g, c, n) {
            let r2 = choose|r2: int| 0 <= r2 < 9 && g[r2][c] == n;
            assert(completes_cell(g, full, r2, c));
            assert(full[r2][c] == n);
            assert(r2 != r);
            assert(peers(r, c, r2, c));
            assert(in_grid(r2, c));
        }
        if in_box(g, r, c, n) {
            let (r2, c2) = choose|r2: int, c2: int| in_grid(r2, c2) && same_box(r, c, r2, c2) && g[r2][c2] == n;
            assert(completes_cell(g, full, r2, c2));
            assert(full[r2][c2] == n);
            assert(r2 != r || c2 != c);
            assert(peers(r, c, r2, c2));
        }
    }
    assert forall|r: int, c: int, r2: int, c2: int|
        in_grid(r, c) && in_grid(r2, c2) && peers(r, c, r2, c2) && t.board[r][c] == EMPTY && t.board[r2][c2] != EMPTY implies !#[trigger] t.cand(
        r,
        c,
        t.board[r2][c2] as int,
    ) by {
        let n = g[r2][c2] as int;
        if r2 == r {
            assert(in_row(g, r, n));
        } else if c2 == c {
            assert(in_col(g, c, n));
        } else {
            assert(in_box(g, r, c, n));
        }
    }
}

/// Filling an empty cell of a solvable board with the digit that every completion puts
/// there keeps the completions, and the board stays solvable.
pub proof fn lemma_place_board(g: Grid, g2: Grid, row: int, col: int, num: u8)
    requires
        solvable(g),
        in_grid(row, col),
        g[row][col] == EMPTY,
        grid_set(g, g2, row, col, num),
        forall|full: Grid| #[trigger] valid_completion(g, full) ==> full[row][col] == num,
    ensures
        forall|full: Grid| valid_completion(g2, full) <==> valid_completion(g, full),
        solvable(g2),
{
    let full0 = choose|full: Grid| valid_completion(g, full);
    assert(full0[row][col] == num);
    assert(completes_cell(g, full0, row, col));
    lemma_completion_placeable(g, full0, row, col);
    assert forall|full: Grid| valid_completion(g2, full) <==> valid_completion(g, full) by {
        if valid_completion(g, full) {
            lemma_completion_to_placed(g, g2, row, col, num, full);
        }
        if valid_completion(g2, full) {
            lemma_completion_of_placed(g, g2, row, col, num, full);
        }
    }
    assert(valid_completion(g2, full0));
    assert(consistent(g2)) by {
        assert forall|rr: int, cc: int| in_grid(rr, cc) && g2[rr][cc] != EMPTY implies 1 <= g2[rr][cc] <= 9 && forall|r2: int, c2: int|
            in_grid(r2, c2) && peers(rr, cc, r2, c2) ==> #[trigger] g2[r2][c2] != g2[rr][cc] by {
            assert forall|r2: int, c2: int| in_grid(r2, c2) && peers(rr, cc, r2, c2) implies #[trigger] g2[r2][c2] != g2[rr][cc] by {
                if g2[r2][c2] != EMPTY {
                    assert(completes_cell(g2, full0, rr, cc));
                    assert(completes_cell(g2, full0, r2, c2));
                    lemma_completion_distinct(g, full0, rr, cc, r2, c2);
                }
            }
            if rr == row && cc == col {
                lemma_completion_distinct(g, full0, rr, cc, rr, if cc == 0 { 1 } else { 0 });
            }
        }
    }
}

/// Applying a safe step keeps the completions of a solvable board, keeps the board
/// consistent, and keeps its candidates sound and clean.
pub proof fn lemma_apply_safe(s: Sudoku, t: Sudoku, r: StrategyResult)
    requires
        solvable(s.board),
        sound(s),
        clean(s),
        bare(s),
        applied(s, t, r),
        safe_view(s, r.removals@),
    ensures
        forall|full: Grid| valid_completion(t.board, full) <==> valid_completion(s.board, full),
        solvable(t.board),
        sound(t),
        clean(t),
        bare(t),
{
    let v = r.removals@;
    assert(v.removed == r.removals.candidates_about_to_be_removed@.to_set());
    match r.removals.sets_cell {
        None => {
            assert(t.board == s.board);
            assert forall|full: Grid, rr: int, cc: int| valid_completion(t.board, full) && in_grid(rr, cc) && t.board[rr][cc] == EMPTY implies #[trigger] t.cand(
                rr,
                cc,
                full[rr][cc] as int,
            ) by {
                let x = Candidate { row: rr as usize, col: cc as usize, num: full[rr][cc] };
                assert(s.cand(rr, cc, full[rr][cc] as int));
                if removes(r, rr, cc, full[rr][cc] as int) {
                    assert(v.removed.contains(x));
                    assert(!in_filled_cell(v, x));
                }
            }
            assert forall|rr: int, cc: int, r2: int, c2: int|
                in_grid(rr, cc) && in_grid(r2, c2) && peers(rr, cc, r2, c2) && t.board[rr][cc] == EMPTY && t.board[r2][c2] != EMPTY implies !#[trigger] t.cand(
                rr,
                cc,
                t.board[r2][c2] as int,
            ) by {
                assert(!s.cand(rr, cc, s.board[r2][c2] as int));
            }
        },
        Some(cell) => {
            let row = cell.row as int;
            let col = cell.col as int;
            let num = cell.num;
            assert(grid_set(s.board, t.board, row, col, num));
            lemma_place_board(s.board, t.board, row, col, num);
            assert forall|full: Grid, rr: int, cc: int| valid_completion(t.board, full) && in_grid(rr, cc) && t.board[rr][cc] == EMPTY implies #[trigger] t.cand(
                rr,
                cc,
                full[rr][cc] as int,
            ) by {
                let x = Candidate { row: rr as usize, col: cc as usize, num: full[rr][cc] };
                assert(s.board[rr][cc] == EMPTY);
                assert(s.cand(rr, cc, full[rr][cc] as int));
                if removes(r, rr, cc, full[rr][cc] as int) {
                    assert(v.removed.contains(x));
                    assert(!in_filled_cell(v, x));
                }
            }
            assert forall|rr: int, cc: int, r2: int, c2: int|
                in_grid(rr, cc) && in_grid(r2, c2) && peers(rr, cc, r2, c2) && t.board[rr][cc] == EMPTY && t.board[r2][c2] != EMPTY implies !#[trigger] t.cand(
                rr,
                cc,
                t.board[r2][c2] as int,
            ) by {
                if r2 == row && c2 == col {
                    if s.cand(rr, cc, num as int) {
                        assert(peers(row, col, rr, cc));
                        assert(v.removed.contains(Candidate { row: rr as usize, col: cc as usize, num }));
                        assert(removes(r, rr, cc, num as int));
                    }
                } else {
                    assert(!s.cand(rr, cc, s.board[r2][c2] as int));
                }
            }
            assert forall|rr: int, cc: int, n: int| in_grid(rr, cc) && t.board[rr][cc] != EMPTY implies !#[trigger] t.cand(rr, cc, n) by {
                if rr == row && cc == col && s.cand(rr, cc, n) {
                    assert(0 <= n < 16);
                    assert(v.removed.contains(Candidate { row: cell.row, col: cell.col, num: n as u8 }));
                    assert(removes(r, rr, cc, n));
                }
            }
        },
    }
}

/// Two positions of a house are two cells of the grid that are peers.
pub proof fn lemma_house_peers(u: Unit, h: int, p: int, q: int)
    requires
        0 <= h < 9,
        0 <= p < 9,
        0 <= q < 9,
    ensures
        in_grid(unit_cell_row(u, 9 * h + p), unit_cell_col(u, 9 * h + p)),
        p != q ==> peers(
            unit_cell_row(u, 9 * h + p),
            unit_cell_col(u, 9 * h + p),
            unit_cell_row(u, 9 * h + q),
            unit_cell_col(u, 9 * h + q),
        ),
{
    assert((9 * h + p) / 9 == h && (9 * h + p) % 9 == p);
    assert((9 * h + q) / 9 == h && (9 * h + q) % 9 == q);
}

/// The digit at position `p` of house `h` of kind `u`.
pub open spec fn house_at(g: Grid, u: Unit, h: int, p: int) -> u8 {
    g[unit_cell_row(u, 9 * h + p)][unit_cell_col(u, 9 * h + p)]
}

/// In a completion of a consistent board, every house holds every digit from 1 to 9.
pub proof fn lemma_house_covers(g: Grid, full: Grid, u: Unit, h: int, n: int)
    requires
        consistent(g),
        valid_completion(g, full),
        0 <= h < 9,
        1 <= n <= 9,
    ensures
        exists|p: int| 0 <= p < 9 && #[trigger] house_at(full, u, h, p) == n,
{
    let f = |p: int| full[unit_cell_row(u, 9 * h + p)][unit_cell_col(u, 9 * h + p)] as int;
    let pos = vstd::set_lib::set_int_range(0, 9);
    let digits = vstd::set_lib::set_int_range(1, 10);
    vstd::set_lib::lemma_int_range(0, 9);
    vstd::set_lib::lemma_int_range(1, 10);
    assert(vstd::relations::injective_on(f, pos)) by {
        assert forall|p: int, q: int| pos.contains(p) && pos.contains(q) && #[trigger] f(p) == #[trigger] f(q) implies p == q by {
            if p != q {
                lemma_house_peers(u, h, p, q);
                lemma_house_peers(u, h, q, p);
                lemma_completion_distinct(
                    g,
                    full,
                    unit_cell_row(u, 9 * h + p),
                    unit_cell_col(u, 9 * h + p),
                    unit_cell_row(u, 9 * h + q),
                    unit_cell_col(u, 9 * h + q),
                );
            }
        }
    }
    let img = pos.map(f);
    vstd::set_lib::lemma_map_size(pos, img, f);
    assert(img.subset_of(digits)) by {
        assert forall|d: int| img.contains(d) implies digits.contains(d) by {
            let p = choose|p: int| pos.contains(p) && d == f(p);
            lemma_house_peers(u, h, p, if p == 0 { 1 } else { 0 });
            lemma_completion_distinct(
                g,
                full,
                unit_cell_row(u, 9 * h + p),
                unit_cell_col(u, 9 * h + p),
                unit_cell_row(u, 9 * h + if p == 0 { 1int } else { 0int }),
                unit_cell_col(u, 9 * h + if p == 0 { 1int } else { 0int }),
            );
        }
    }
    vstd::set_lib::lemma_subset_equality(img, digits);
    assert(digits.contains(n));
    assert(img.contains(n));
    let p = choose|p: int| pos.contains(p) && n == f(p);
    assert(0 <= p < 9 && house_at(full, u, h, p) == n);
}

/// Placing a digit that every completion puts into an empty cell is safe.
pub proof fn lemma_set_num_safe(s: Sudoku, num: u8, row: int, col: int)
    requires
        in_grid(row, col),
        s.board[row][col] == EMPTY,
        forall|full: Grid| #[trigger] valid_completion(s.board, full) ==> full[row][col] == num,
    ensures
        safe_view(s, set_num_view(s, num, row, col)),
{
    let v = set_num_view(s, num, row, col);
    assert forall|full: Grid, x: Candidate|
        #[trigger] valid_completion(s.board, full) && #[trigger] v.removed.contains(x) && x.row < 9 && x.col < 9 && s.board[x.row as int][x.col as int]
            == EMPTY && !in_filled_cell(v, x) implies full[x.row as int][x.col as int] != x.num by {
        let xr = x.row as int;
        let xc = x.col as int;
        assert(full[row][col] == num);
        assert(x.num == num);
        assert(peers(xr, xc, row, col));
        assert(completes_cell(s.board, full, xr, xc));
    }
    assert forall|r2: int, c2: int|
        in_grid(r2, c2) && peers(row, col, r2, c2) && s.board[r2][c2] == EMPTY && #[trigger] s.cand(r2, c2, num as int) implies v.removed.contains(
        Candidate { row: r2 as usize, col: c2 as usize, num },
    ) by {
        let x = Candidate { row: r2 as usize, col: c2 as usize, num };
        assert(seq![num][0] == num);
        assert(seq![num].contains(num));
        if r2 == row {
            assert(row_hits(s, seq![num], row).contains(x));
        } else if c2 == col {
            assert(col_hits(s, seq![num], col).contains(x));
        } else {
            assert(box_hits(s, seq![num], row, col).contains(x));
        }
    }
    assert forall|n: int| #[trigger] s.cand(row, col, n) implies v.removed.contains(Candidate { row: row as usize, col: col as usize, num: n as u8 }) by {
        assert(0 <= n < 16);
    }
}

/// An empty cell does not get the digit of a filled peer.
proof fn lemma_peer_digit(g: Grid, full: Grid, r: int, c: int, r2: int, c2: int)
    requires
        valid_completion(g, full),
        in_grid(r, c),
        in_grid(r2, c2),
        peers(r, c, r2, c2),
        g[r][c] == EMPTY,
        g[r2][c2] != EMPTY,
    ensures
        full[r][c] != g[r2][c2],
{
    assert(completes_cell(g, full, r, c));
    assert(completes_cell(g, full, r2, c2));
}

/// The missing digit of the first row with a single empty cell is what every completion
/// puts there.
proof fn lemma_last_digit_rows_safe(s: Sudoku)
    requires
        solvable(s.board),
        last_digit_rows_defined(s.board),
        first_sole_empty_row(s.board) is Some,
    ensures
        safe_view(s, last_digit_rows_view(s)),
{
    let g = s.board;
    let r = first_sole_empty_row(g)->0;
    lemma_first_from(|r: int| exists|c: int| sole_empty_in_row(g, r, c), 0, 9);
    let c = choose|c: int| sole_empty_in_row(g, r, c);
    let n = choose|n: int| sole_missing_in_row(g, r, n);
    assert forall|full: Grid| #[trigger] valid_completion(g, full) implies full[r][c] == n as u8 by {
        assert(completes_cell(g, full, r, c));
        let m = full[r][c] as int;
        if m != n {
            assert(in_row(g, r, m));
            let c2 = choose|c2: int| 0 <= c2 < 9 && g[r][c2] == m;
            lemma_peer_digit(g, full, r, c, r, c2);
        }
    }
    lemma_set_num_safe(s, n as u8, r, c);
    assert(last_digit_rows_view(s).removed == set_num_view(s, n as u8, r, c).removed);
    assert(last_digit_rows_view(s).sets_cell == set_num_view(s, n as u8, r, c).sets_cell);
}

/// The missing digit of the first column with a single empty cell is what every
/// completion puts there.
proof fn lemma_last_digit_cols_safe(s: Sudoku)
    requires
        solvable(s.board),
        last_digit_cols_defined(s.board),
        first_sole_empty_col(s.board) is Some,
    ensures
        safe_view(s, last_digit_cols_view(s)),
{
    let g = s.board;
    let c = first_sole_empty_col(g)->0;
    lemma_first_from(|c: int| exists|r: int| sole_empty_in_col(g, c, r), 0, 9);
    let r = choose|r: int| sole_empty_in_col(g, c, r);
    let n = choose|n: int| sole_missing_in_col(g, c, n);
    assert forall|full: Grid| #[trigger] valid_completion(g, full) implies full[r][c] == n as u8 by {
        assert(completes_cell(g, full, r, c));
        let m = full[r][c] as int;
        if m != n {
            assert(in_col(g, c, m));
            let r2 = choose|r2: int| 0 <= r2 < 9 && g[r2][c] == m;
            lemma_peer_digit(g, full, r, c, r2, c);
        }
    }
    lemma_set_num_safe(s, n as u8, r, c);
    assert(last_digit_cols_view(s).removed == set_num_view(s, n as u8, r, c).removed);
    assert(last_digit_cols_view(s).sets_cell == set_num_view(s, n as u8, r, c).sets_cell);
}

/// The missing digit of the first box that lacks one goes into its first empty cell in
/// every completion.
proof fn lemma_last_digit_boxes_safe(s: Sudoku)
    requires
        solvable(s.board),
    ensures
        safe_view(s, last_digit_boxes_view(s)),
{
    let g = s.board;
    match first_last_digit_box(g) {
        None => {},
        Some(b) => {
            lemma_first_from(|b: int| box_last_digit(g, b), 0, 9);
            let k = first_empty_in_box(g, b)->0;
            lemma_first_from(|k: int| g[box_cell_row(b, k)][box_cell_col(b, k)] == EMPTY, 0, 9);
            let n = choose|n: int| sole_missing_in_box(g, b, n);
            let r = box_cell_row(b, k);
            let c = box_cell_col(b, k);
            assert(0 <= r < 9 && 0 <= c < 9);
            assert(same_box(3 * (b / 3), 3 * (b % 3), r, c));
            assert forall|full: Grid| #[trigger] valid_completion(g, full) implies full[r][c] == n as u8 by {
                assert(completes_cell(g, full, r, c));
                let m = full[r][c] as int;
                if m != n {
                    assert(in_box(g, 3 * (b / 3), 3 * (b % 3), m));
                    let (r2, c2) = choose|r2: int, c2: int|
                        in_grid(r2, c2) && same_box(3 * (b / 3), 3 * (b % 3), r2, c2) && g[r2][c2] == m;
                    assert(same_box(r, c, r2, c2));
                    lemma_peer_digit(g, full, r, c, r2, c2);
                }
            }
            lemma_set_num_safe(s, n as u8, r, c);
            assert(last_digit_boxes_view(s).removed == set_num_view(s, n as u8, r, c).removed);
            assert(last_digit_boxes_view(s).sets_cell == set_num_view(s, n as u8, r, c).sets_cell);
        },
    }
}

/// Last digit is safe on a solvable board.
pub proof fn lemma_last_digit_safe(s: Sudoku)
    requires
        solvable(s.board),
        last_digit_defined(s.board),
    ensures
        safe_view(s, last_digit_view(s)),
{
    if first_sole_empty_row(s.board) is Some {
        lemma_last_digit_rows_safe(s);
    } else if first_sole_empty_col(s.board) is Some {
        lemma_last_digit_cols_safe(s);
    } else {
        lemma_last_digit_boxes_safe(s);
    }
}

/// Obvious single is safe when the candidates are sound.
pub proof fn lemma_obvious_single_safe(s: Sudoku)
    requires
        solvable(s.board),
        sound(s),
        obvious_single_defined(s),
    ensures
        safe_view(s, obvious_single_view(s)),
{
    match first_single_cell(s) {
        None => {},
        Some(k) => {
            lemma_first_from(|k: int| exists|n: int| #[trigger] sole_in_mask(s.candidates[k / 9][k % 9], n), 0, 81);
            let r = k / 9;
            let c = k % 9;
            let n = choose|n: int| #[trigger] sole_in_mask(s.candidates[r][c], n);
            assert(sole_in_mask(s.candidates[r][c], n));
            assert(0 <= n < 16);
            assert forall|full: Grid| #[trigger] valid_completion(s.board, full) implies full[r][c] == n as u8 by {
                assert(s.cand(r, c, full[r][c] as int));
                assert(in_mask(s.candidates[r][c], full[r][c] as int));
            }
            lemma_set_num_safe(s, n as u8, r, c);
        },
    }
}

/// Another cell of the same house.
proof fn lemma_unit_other(u: Unit, k: int, p: int)
    requires
        0 <= k < 81,
        0 <= p < 9,
    ensures
        p == k % 9 ==> unit_cell_row(u, 9 * (k / 9) + p) == unit_cell_row(u, k) && unit_cell_col(u, 9 * (k / 9) + p) == unit_cell_col(u, k),
        p != k % 9 ==> other_in_unit(
            u,
            unit_cell_row(u, k),
            unit_cell_col(u, k),
            unit_cell_row(u, 9 * (k / 9) + p),
            unit_cell_col(u, 9 * (k / 9) + p),
        ),
        p != k % 9 ==> peers(
            unit_cell_row(u, k),
            unit_cell_col(u, k),
            unit_cell_row(u, 9 * (k / 9) + p),
            unit_cell_col(u, 9 * (k / 9) + p),
        ),
{
    let h = k / 9;
    let q = k % 9;
    assert(k == 9 * h + q);
    assert((9 * h + p) / 9 == h && (9 * h + p) % 9 == p);
    lemma_house_peers(u, h, q, p);
}

/// The hidden single of a house is what every completion puts there.
pub(crate) proof fn lemma_hidden_single_house_safe(s: Sudoku, u: Unit)
    requires
        solvable(s.board),
        sound(s),
        clean(s),
    ensures
        safe_view(s, hidden_single_view(s, u)),
{
    match first_hidden_cell(s, u) {
        None => {},
        Some(k) => {
            lemma_first_from(|k: int| hidden_num(s, u, k) is Some, 0, 81);
            let r = unit_cell_row(u, k);
            let c = unit_cell_col(u, k);
            lemma_first_from(|n: int| hidden_at(s, u, r, c, n), 0, 16);
            let n = hidden_num(s, u, k)->0;
            assert(hidden_at(s, u, r, c, n));
            lemma_house_peers(u, k / 9, k % 9, k % 9);
            assert(k == 9 * (k / 9) + k % 9);
            assert(in_grid(r, c));
            assert(1 <= n <= 9);
            assert forall|full: Grid| #[trigger] valid_completion(s.board, full) implies full[r][c] == n as u8 by {
                lemma_house_covers(s.board, full, u, k / 9, n);
                let p = choose|p: int| 0 <= p < 9 && #[trigger] house_at(full, u, k / 9, p) == n;
                lemma_unit_other(u, k, p);
                if p != k % 9 {
                    let r2 = unit_cell_row(u, 9 * (k / 9) + p);
                    let c2 = unit_cell_col(u, 9 * (k / 9) + p);
                    assert(!s.cand(r2, c2, n));
                    assert(completes_cell(s.board, full, r2, c2));
                    if s.board[r2][c2] == EMPTY {
                        assert(s.cand(r2, c2, full[r2][c2] as int));
                    } else {
                        assert(!s.cand(r, c, s.board[r2][c2] as int));
                    }
                }
            }
            lemma_set_num_safe(s, n as u8, r, c);
            assert(hidden_single_view(s, u).removed == set_num_view(s, n as u8, r, c).removed);
            assert(hidden_single_view(s, u).sets_cell == set_num_view(s, n as u8, r, c).sets_cell);
        },
    }
}

/// Hidden single is safe when the candidates are sound and clean.
pub proof fn lemma_hidden_single_safe(s: Sudoku)
    requires
        solvable(s.board),
        sound(s),
        clean(s),
    ensures
        safe_view(s, hidden_single_strategy_view(s)),
{
    lemma_hidden_single_house_safe(s, Unit::Box);
    lemma_hidden_single_house_safe(s, Unit::Row);
    lemma_hidden_single_house_safe(s, Unit::Column);
}

/// The cell at position `p` of house `h` lies in that house, at that position.
pub(crate) proof fn lemma_house_coords(u: Unit, h: int, p: int)
    requires
        0 <= h < 9,
        0 <= p < 9,
    ensures
        in_grid(unit_cell_row(u, 9 * h + p), unit_cell_col(u, 9 * h + p)),
        in_house(u, h, unit_cell_row(u, 9 * h + p), unit_cell_col(u, 9 * h + p)),
        house_pos(u, unit_cell_row(u, 9 * h + p), unit_cell_col(u, 9 * h + p)) == p,
{
    assert((9 * h + p) / 9 == h && (9 * h + p) % 9 == p);
}

/// A cell of a house is the cell at its position in the house.
pub(crate) proof fn lemma_house_index(u: Unit, h: int, r: int, c: int)
    requires
        in_grid(r, c),
        in_house(u, h, r, c),
    ensures
        0 <= h < 9,
        0 <= house_pos(u, r, c) < 9,
        unit_cell_row(u, 9 * h + house_pos(u, r, c)) == r,
        unit_cell_col(u, 9 * h + house_pos(u, r, c)) == c,
{
    let p = house_pos(u, r, c);
    assert((9 * h + p) / 9 == h && (9 * h + p) % 9 == p);
}

/// Two cells of a house are peers.
pub(crate) proof fn lemma_house_peers_rc(u: Unit, h: int, r: int, c: int, r2: int, c2: int)
    requires
        in_grid(r, c),
        in_grid(r2, c2),
        in_house(u, h, r, c),
        in_house(u, h, r2, c2),
        r != r2 || c != c2,
    ensures
        peers(r, c, r2, c2),
{
}

/// When a cell of a house has the candidate `n`, every completion puts `n` into a cell of
/// the house that has the candidate.
pub(crate) proof fn lemma_house_place(s: Sudoku, full: Grid, u: Unit, h: int, n: int, r0: int, c0: int) -> (rc: (int, int))
    requires
        solvable(s.board),
        sound(s),
        clean(s),
        bare(s),
        valid_completion(s.board, full),
        in_grid(r0, c0),
        in_house(u, h, r0, c0),
        s.cand(r0, c0, n),
    ensures
        in_grid(rc.0, rc.1),
        in_house(u, h, rc.0, rc.1),
        full[rc.0][rc.1] == n,
        s.cand(rc.0, rc.1, n),
        s.board[rc.0][rc.1] == EMPTY,
{
    lemma_house_index(u, h, r0, c0);
    assert(s.board[r0][c0] == EMPTY);
    assert(1 <= n <= 9);
    lemma_house_covers(s.board, full, u, h, n);
    let p = choose|p: int| 0 <= p < 9 && #[trigger] house_at(full, u, h, p) == n;
    lemma_house_coords(u, h, p);
    let r = unit_cell_row(u, 9 * h + p);
    let c = unit_cell_col(u, 9 * h + p);
    assert(completes_cell(s.board, full, r, c));
    if s.board[r][c] != EMPTY {
        lemma_house_peers_rc(u, h, r0, c0, r, c);
        assert(!s.cand(r0, c0, s.board[r][c] as int));
    }
    assert(s.cand(r, c, full[r][c] as int));
    (r, c)
}

/// The strategies whose steps are shown safe here: all but Locked Pair, which takes the
/// pair's digits from every cell of the box, the pair's own two cells included.
pub open spec fn safe_strategy(k: int) -> bool {
    0 <= k <= 10 && k != 3
}

/// The `k`-th strategy, when it can look at the board, only removes what no completion
/// needs.
pub proof fn lemma_step_safe(s: Sudoku, k: int)
    requires
        solvable(s.board),
        sound(s),
        clean(s),
        bare(s),
        strategy_defined(s, k),
        safe_strategy(k),
    ensures
        safe_view(s, step_view(s, k)),
{
    reveal(step_view);
    if k == 0 {
        lemma_last_digit_safe(s);
    } else if k == 1 {
        lemma_obvious_single_safe(s);
    } else if k == 2 {
        lemma_hidden_single_safe(s);
    } else if k == 4 {
        lemma_pointing_pair_safe(s);
    } else if k == 5 {
        lemma_claiming_pair_safe(s);
    } else if k == 6 {
        lemma_obvious_pair_safe(s);
    } else if k == 7 {
        lemma_hidden_pair_safe(s);
    } else if k == 8 {
        lemma_obvious_triplet_safe(s);
    } else if k == 9 {
        lemma_skyscraper_safe(s);
    } else {
        lemma_xwing_safe(s);
    }
}

/// Every step of the run uses a strategy shown safe.
pub open spec fn safe_run(trace: Seq<Sudoku>) -> bool {
    forall|i: int| 0 <= i < trace.len() - 1 ==> (first_step(#[trigger] trace[i]) matches Some(k) ==> safe_strategy(k))
}

/// `b` can be solved, has sound, clean candidates and no candidates in filled cells, and
/// its completions are those of `a`.
pub open spec fn keeps_completions(a: Sudoku, b: Sudoku) -> bool {
    &&& solvable(b.board)
    &&& sound(b)
    &&& clean(b)
    &&& bare(b)
    &&& forall|full: Grid| valid_completion(b.board, full) <==> valid_completion(a.board, full)
}

/// Two states with the same board and candidates agree on what is said of them here.
proof fn lemma_same_grid(a: Sudoku, b: Sudoku, v: RemovalView)
    requires
        a.board == b.board,
        a.candidates == b.candidates,
    ensures
        sound(a) == sound(b),
        clean(a) == clean(b),
        bare(a) == bare(b),
        safe_view(a, v) == safe_view(b, v),
{
    assert forall|r: int, c: int, n: int|
        #![trigger a.cand(r, c, n)]
        #![trigger b.cand(r, c, n)]
        a.cand(r, c, n) == b.cand(r, c, n) by {}
}

/// A step of the solver with a safe strategy keeps the completions.
pub proof fn lemma_human_step_keeps(a: Sudoku, b: Sudoku)
    requires
        human_step(a, b),
        first_step(a) matches Some(k) ==> safe_strategy(k),
        solvable(a.board),
        sound(a),
        clean(a),
        bare(a),
    ensures
        keeps_completions(a, b),
{
    let (r, mid) = choose|r: StrategyResult, mid: Sudoku|
        #![trigger is_next_step(a, r), applied(mid, b, r)]
        is_next_step(a, r) && r.strategy != Strategy::NoStrategy && counted(a, mid, r) && can_apply(mid, r) && applied(mid, b, r);
    let k = first_step(a)->0;
    assert(first_step(a) is Some);
    assert(r.removals@ == step_view(a, k));
    crate::search::lemma_first_from(|k: int| step_found(a, k), 0, 11);
    assert(strategy_defined(a, k));
    lemma_step_safe(a, k);
    lemma_same_grid(a, mid, r.removals@);
    lemma_apply_safe(mid, b, r);
}

/// Along a run of the solver that only takes safe steps, from a solvable board with sound
/// and clean candidates and none in filled cells, every state keeps that so and has the
/// completions of the first.
pub proof fn lemma_run_keeps_completions(trace: Seq<Sudoku>)
    requires
        is_human_run(trace),
        safe_run(trace),
        solvable(trace[0].board),
        sound(trace[0]),
        clean(trace[0]),
        bare(trace[0]),
    ensures
        forall|i: int| 0 <= i < trace.len() ==> #[trigger] keeps_completions(trace[0], trace[i]),
    decreases trace.len(),
{
    if trace.len() > 1 {
        let front = trace.drop_last();
        assert(is_human_run(front)) by {
            assert forall|i: int| 0 <= i < front.len() - 1 implies human_step(#[trigger] front[i], front[i + 1]) by {
                assert(front[i] == trace[i] && front[i + 1] == trace[i + 1]);
            }
        }
        assert(safe_run(front)) by {
            assert forall|i: int| 0 <= i < front.len() - 1 implies (first_step(#[trigger] front[i]) matches Some(k) ==> safe_strategy(k)) by {
                assert(front[i] == trace[i]);
            }
        }
        lemma_run_keeps_completions(front);
        let j = trace.len() - 2;
        assert(front[j] == trace[j]);
        assert(keeps_completions(front[0], front[j]));
        assert(human_step(trace[j], trace[j + 1]));
        lemma_human_step_keeps(trace[j], trace[j + 1]);
        assert forall|i: int| 0 <= i < trace.len() implies #[trigger] keeps_completions(trace[0], trace[i]) by {
            if i < trace.len() - 1 {
                assert(front[i] == trace[i]);
                assert(keeps_completions(front[0], front[i]));
            }
        }
    } else {
        assert(keeps_completions(trace[0], trace[0]));
    }
}


/// A step of the solver never lowers the Locked Pair count of the rating, and a Locked Pair
/// step raises it.
proof fn lemma_step_rates_locked_pair(a: Sudoku, b: Sudoku)
    requires
        human_step(a, b),
    ensures
        b.rated(Strategy::LockedPair) >= a.rated(Strategy::LockedPair),
        first_step(a) == Some(3int) ==> b.rated(Strategy::LockedPair) > a.rated(Strategy::LockedPair),
{
    let (r, mid) = choose|r: StrategyResult, mid: Sudoku|
        #![trigger is_next_step(a, r), applied(mid, b, r)]
        is_next_step(a, r) && r.strategy != Strategy::NoStrategy && counted(a, mid, r) && can_apply(mid, r) && applied(mid, b, r);
    let k = first_step(a)->0;
    assert(first_step(a) is Some);
    let li = crate::strategy_index(Strategy::LockedPair);
    let si = crate::strategy_index(r.strategy);
    assert(mid.rated(Strategy::LockedPair) >= a.rated(Strategy::LockedPair)) by {
        if si != li {
            assert(mid.rating[li] == a.rating[li]);
        }
    }
    assert(b.rated(Strategy::LockedPair) >= mid.rated(Strategy::LockedPair)) by {
        if r.removals.sets_cell is Some && si != li {
            assert(b.rating[li] == mid.rating[li]);
        }
    }
    if k == 3 {
        crate::search::lemma_first_from(|k: int| step_found(a, k), 0, 11);
        assert(r.strategy == Strategy::LockedPair);
        let removed = r.removals@.removed;
        assert(removed == step_view(a, 3).removed);
        assert(removed != Set::<Candidate>::empty());
        vstd::seq_lib::seq_to_set_is_finite(r.removals.candidates_about_to_be_removed@);
        vstd::set_lib::lemma_set_empty_equivalency_len(removed);
    }
}

/// Along a run of the solver the Locked Pair count never falls.
proof fn lemma_run_rates_locked_pair(trace: Seq<Sudoku>)
    requires
        is_human_run(trace),
    ensures
        forall|i: int|
            0 <= i < trace.len() ==> trace[0].rated(Strategy::LockedPair) <= #[trigger] trace[i].rated(Strategy::LockedPair)
                <= trace.last().rated(Strategy::LockedPair),
    decreases trace.len(),
{
    if trace.len() > 1 {
        let front = trace.drop_last();
        assert(is_human_run(front)) by {
            assert forall|i: int| 0 <= i < front.len() - 1 implies human_step(#[trigger] front[i], front[i + 1]) by {
                assert(front[i] == trace[i] && front[i + 1] == trace[i + 1]);
            }
        }
        lemma_run_rates_locked_pair(front);
        let j = trace.len() - 2;
        assert(front[j] == trace[j]);
        assert(front[0] == trace[0]);
        assert(human_step(trace[j], trace[j + 1]));
        lemma_step_rates_locked_pair(trace[j], trace[j + 1]);
        assert forall|i: int| 0 <= i < trace.len() implies trace[0].rated(Strategy::LockedPair) <= #[trigger] trace[i].rated(
            Strategy::LockedPair,
        ) <= trace.last().rated(Strategy::LockedPair) by {
            if i < trace.len() - 1 {
                assert(front[i] == trace[i]);
            }
        }
    }
}

/// A run whose Locked Pair count ends where it started took no Locked Pair step, so all
/// its steps are safe.
pub proof fn lemma_unrated_run_safe(trace: Seq<Sudoku>)
    requires
        is_human_run(trace),
        trace.last().rated(Strategy::LockedPair) == trace[0].rated(Strategy::LockedPair),
    ensures
        safe_run(trace),
{
    lemma_run_rates_locked_pair(trace);
    assert forall|i: int| 0 <= i < trace.len() - 1 implies (first_step(#[trigger] trace[i]) matches Some(k) ==> safe_strategy(k)) by {
        if let Some(k) = first_step(trace[i]) {
            crate::search::lemma_first_from(|k: int| step_found(trace[i], k), 0, 11);
            assert(human_step(trace[i], trace[i + 1]));
            lemma_step_rates_locked_pair(trace[i], trace[i + 1]);
            assert(trace[i].rated(Strategy::LockedPair) <= trace[i + 1].rated(Strategy::LockedPair));
            assert(trace[i + 1].rated(Strategy::LockedPair) <= trace.last().rated(Strategy::LockedPair));
        }
    }
}

/// Solving as a human would finds the solution: when a run of the solver, from the
/// computed candidates of a board that has a solution and no candidates in its filled
/// cells, only takes safe steps and fills the board, the filled board is a solution of the
/// board, and every solution of the board is that one.
pub proof fn lemma_human_solution(s0: Sudoku, trace: Seq<Sudoku>)
    requires
        solvable(s0.board),
        bare(s0),
        calculated(s0, trace[0]),
        is_human_run(trace),
        safe_run(trace),
        forall|r: int, c: int| in_grid(r, c) ==> trace.last().board[r][c] != EMPTY,
    ensures
        valid_completion(s0.board, trace.last().board),
        forall|full: Grid, r: int, c: int| valid_completion(s0.board, full) && in_grid(r, c) ==> full[r][c] == trace.last().board[r][c],
{
    let t0 = trace[0];
    let last = trace.last();
    lemma_computed_candidates(s0, t0);
    assert forall|r: int, c: int, n: int| in_grid(r, c) && t0.board[r][c] != EMPTY implies !#[trigger] t0.cand(r, c, n) by {
        assert(!s0.cand(r, c, n));
    }
    lemma_run_keeps_completions(trace);
    assert(keeps_completions(t0, trace[trace.len() - 1]));
    assert(forall|full: Grid| valid_completion(last.board, full) <==> valid_completion(s0.board, full));
    assert forall|full: Grid, r: int, c: int| valid_completion(s0.board, full) && in_grid(r, c) implies full[r][c] == last.board[r][c] by {
        assert(valid_completion(last.board, full));
        assert(completes_cell(last.board, full, r, c));
    }
    let full0 = choose|full: Grid| valid_completion(last.board, full);
    assert(valid_completion(last.board, full0));
    assert forall|r: int, c: int| in_grid(r, c) implies #[trigger] completes_cell(s0.board, last.board, r, c) by {
        assert(completes_cell(s0.board, full0, r, c));
        assert forall|r2: int, c2: int| in_grid(r2, c2) implies full0[r2][c2] == last.board[r2][c2] by {
            assert(completes_cell(last.board, full0, r2, c2));
        }
    }
}

} // verus!
