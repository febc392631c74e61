//! Why the strategies that only remove candidates are safe: each removed digit is one
//! that no completion puts into its cell.

use vstd::prelude::*;

use crate::board::{box_of, completes_cell, in_grid, peers, same_box, valid_completion, Grid, Sudoku};
use crate::collect::{house_hits, house_pos, in_house, in_region, region_has, region_hits, Region};
use crate::digits::{in_mask, lemma_missing, lemma_not_mask, lemma_three_bits, lemma_two_bits, lemma_union3, lemma_single_bit, mask_digits, single_bit, three_bits, two_bits};
use crate::fish::{cross, first_xwing, places, xwing_found, xwing_removed, xwing_removes, xwing_strategy, xwing_view};
use crate::hidden::{first_hidden_pair, first_hidden_pair_house, hidden_pair_ok, hidden_pair_removed, hidden_pair_removes, hidden_pair_strategy_view, hidden_pair_view, locs, outside_pair};
use crate::subsets::{first_obvious_pair, house_mask, obvious_pair_at, obvious_pair_found, obvious_pair_strategy_view, obvious_pair_view};
use crate::triplets::{first_triplet, obvious_triplet_strategy_view, obvious_triplet_view, triplet_found, triplet_removes, triplet_union};
use crate::pairs::{
    band, box_cells, cells_with_num, claiming_col_found, claiming_cols_view, claiming_pair_view, claiming_row_found, claiming_rows_view,
    first_claiming_col, first_claiming_row, first_pointing_box, first_pointing_col, first_pointing_row, house_cand,
    pointing_box_row_found, pointing_boxes_view, pointing_col_found, pointing_cols_view, pointing_pair_view,
    pointing_row_found, pointing_rows_view,
};
use crate::search::{lemma_first_from, lemma_select, lemma_select_complete};
use crate::skyscraper::{
    band_bits, drop_rule, first_sky_num, first_sky_pair, genuine, lemma_sky_links, segment, sky_links, sky_match, sky_removed, sky_removes,
    skyscraper_strategy_view, skyscraper_view, DropRule, StrongLink,
};
use crate::singles::{unit_cell_col, unit_cell_row};
use crate::sound::{bare, clean, lemma_completion_distinct, lemma_house_coords, lemma_house_index, lemma_house_peers_rc, lemma_house_place, safe_view, solvable, sound};
use crate::{Candidate, RemovalView, Unit, EMPTY};

verus! {

/// No completion puts into an empty cell a digit that is removed from it.
pub open spec fn removes_safely(s: Sudoku, removed: Set<Candidate>) -> bool {
    forall|full: Grid, x: Candidate|
        #[trigger] valid_completion(s.board, full) && #[trigger] removed.contains(x) && x.row < 9 && x.col < 9 && s.board[x.row as int][x.col as int]
            == EMPTY ==> full[x.row as int][x.col as int] != x.num
}

/// The board can be solved, and its candidates are sound, clean, and absent from filled
/// cells.
pub open spec fn well_noted(s: Sudoku) -> bool {
    solvable(s.board) && sound(s) && clean(s) && bare(s)
}

/// A view that fills no cell and removes safely is safe.
pub proof fn lemma_removal_safe(s: Sudoku, v: RemovalView)
    requires
        v.sets_cell is None,
        removes_safely(s, v.removed),
    ensures
        safe_view(s, v),
{
}

/// A removed candidate whose cell is a peer of a cell that gets the same digit is not
/// what a completion puts there.
pub(crate) proof fn lemma_peer_taken(s: Sudoku, full: Grid, x: Candidate, r: int, c: int)
    requires
        valid_completion(s.board, full),
        x.row < 9,
        x.col < 9,
        s.board[x.row as int][x.col as int] == EMPTY,
        in_grid(r, c),
        peers(x.row as int, x.col as int, r, c),
        full[r][c] == x.num,
    ensures
        full[x.row as int][x.col as int] != x.num,
{
    assert(completes_cell(s.board, full, x.row as int, x.col as int));
}

/// The places of a digit in a house that are selected in `lo..hi`: position `j` of
/// house `h` holds the candidate.
proof fn lemma_selected_place(s: Sudoku, u: Unit, h: int, num: int, lo: int, hi: int, k: int)
    requires
        0 <= h < 9,
        0 <= lo <= hi <= 9,
        0 <= k < cells_with_num(s, u, h, num, lo, hi).len(),
    ensures
        lo <= cells_with_num(s, u, h, num, lo, hi)[k] < hi,
        s.cand(
            unit_cell_row(u, 9 * h + cells_with_num(s, u, h, num, lo, hi)[k]),
            unit_cell_col(u, 9 * h + cells_with_num(s, u, h, num, lo, hi)[k]),
            num,
        ),
{
    lemma_select(house_cand(s, u, h, num), lo, hi);
    assert(house_cand(s, u, h, num)(cells_with_num(s, u, h, num, lo, hi)[k]));
}

/// A cell of house `h` with the candidate is at a selected position.
proof fn lemma_place_selected(s: Sudoku, u: Unit, h: int, num: int, r: int, c: int)
    requires
        in_grid(r, c),
        in_house(u, h, r, c),
        s.cand(r, c, num),
    ensures
        cells_with_num(s, u, h, num, 0, 9).contains(crate::collect::house_pos(u, r, c)),
{
    lemma_house_index(u, h, r, c);
    lemma_select_complete(house_cand(s, u, h, num), 0, 9, crate::collect::house_pos(u, r, c));
}

/// Pointing pair in a row: the digit's places in the box lie in the row.
proof fn lemma_pointing_rows_safe(s: Sudoku)
    requires
        well_noted(s),
        first_pointing_row(s) is Some,
    ensures
        removes_safely(s, pointing_rows_view(s).removed),
{
    let t = first_pointing_row(s)->0;
    lemma_first_from(|t: int| pointing_row_found(s, t / 27 + 1, (t / 3) % 9, 3 * (t % 3)), 0, 243);
    let num = t / 27 + 1;
    let row = (t / 3) % 9;
    let b = 3 * (t % 3);
    assert(pointing_row_found(s, num, row, b));
    lemma_selected_place(s, Unit::Row, row, num, b, b + 3, 0);
    let c0 = cells_with_num(s, Unit::Row, row, num, b, b + 3)[0];
    assert((9 * row + c0) / 9 == row && (9 * row + c0) % 9 == c0);
    assert(s.cand(row, c0, num));
    let bi = box_of(row, c0);
    let g = Region::RowOutside { row: row as usize, lo: b as usize };
    let inner = Region::BoxOutsideRow { br: band(row) as usize, bc: b as usize, row: row as usize };
    assert forall|full: Grid, x: Candidate|
        #[trigger] valid_completion(s.board, full) && #[trigger] region_hits(s, g, num as u8).contains(x) && x.row < 9 && x.col < 9
            && s.board[x.row as int][x.col as int] == EMPTY implies full[x.row as int][x.col as int] != x.num by {
        let (r, c) = lemma_house_place(s, full, Unit::Box, bi, num, row, c0);
        if r != row {
            assert(in_region(inner, r, c));
            assert(region_has(s, inner, num as u8));
        }
        lemma_peer_taken(s, full, x, r, c);
    }
}

/// Pointing pair in a column: the digit's places in the box lie in the column.
proof fn lemma_pointing_cols_safe(s: Sudoku)
    requires
        well_noted(s),
        first_pointing_col(s) is Some,
    ensures
        removes_safely(s, pointing_cols_view(s).removed),
{
    let t = first_pointing_col(s)->0;
    lemma_first_from(|t: int| pointing_col_found(s, t / 27 + 1, (t / 3) % 9, 3 * (t % 3)), 0, 243);
    let num = t / 27 + 1;
    let col = (t / 3) % 9;
    let b = 3 * (t % 3);
    assert(pointing_col_found(s, num, col, b));
    lemma_selected_place(s, Unit::Column, col, num, b, b + 3, 0);
    let r0 = cells_with_num(s, Unit::Column, col, num, b, b + 3)[0];
    assert((9 * col + r0) / 9 == col && (9 * col + r0) % 9 == r0);
    assert(s.cand(r0, col, num));
    let bi = box_of(r0, col);
    let g = Region::ColOutside { col: col as usize, lo: b as usize };
    let inner = Region::BoxOutsideCol { br: b as usize, bc: band(col) as usize, col: col as usize };
    assert forall|full: Grid, x: Candidate|
        #[trigger] valid_completion(s.board, full) && #[trigger] region_hits(s, g, num as u8).contains(x) && x.row < 9 && x.col < 9
            && s.board[x.row as int][x.col as int] == EMPTY implies full[x.row as int][x.col as int] != x.num by {
        let (r, c) = lemma_house_place(s, full, Unit::Box, bi, num, r0, col);
        if c != col {
            assert(in_region(inner, r, c));
            assert(region_has(s, inner, num as u8));
        }
        lemma_peer_taken(s, full, x, r, c);
    }
}

/// Pointing pair from a box: the digit's two places in the box share a row.
proof fn lemma_pointing_boxes_safe(s: Sudoku)
    requires
        well_noted(s),
        first_pointing_box(s) is Some,
    ensures
        removes_safely(s, pointing_boxes_view(s).removed),
{
    let t = first_pointing_box(s)->0;
    lemma_first_from(|t: int| pointing_box_row_found(s, t / 9, t % 9 + 1), 0, 81);
    let b = t / 9;
    let num = t % 9 + 1;
    let cells = box_cells(s, b, num);
    assert(cells.len() == 2);
    lemma_selected_place(s, Unit::Box, b, num, 0, 9, 0);
    lemma_selected_place(s, Unit::Box, b, num, 0, 9, 1);
    let p0 = cells[0];
    let r0 = unit_cell_row(Unit::Box, 9 * b + p0);
    let c0 = unit_cell_col(Unit::Box, 9 * b + p0);
    assert((9 * b + p0) / 9 == b && (9 * b + p0) % 9 == p0);
    assert(in_grid(r0, c0) && in_house(Unit::Box, b, r0, c0));
    let br = band(b);
    let bc = 3 * (b % 3);
    assert(pointing_box_row_found(s, b, num));
    let row = br + cells[0] / 3;
    let g = Region::RowOutside { row: row as usize, lo: bc as usize };
    assert forall|full: Grid, x: Candidate|
        #[trigger] valid_completion(s.board, full) && #[trigger] region_hits(s, g, num as u8).contains(x) && x.row < 9 && x.col < 9
            && s.board[x.row as int][x.col as int] == EMPTY implies full[x.row as int][x.col as int] != x.num by {
        let (r, c) = lemma_house_place(s, full, Unit::Box, b, num, r0, c0);
        lemma_place_selected(s, Unit::Box, b, num, r, c);
        lemma_house_index(Unit::Box, b, r, c);
        let p = crate::collect::house_pos(Unit::Box, r, c);
        assert(p == cells[0] || p == cells[1]);
        assert((9 * b + p) / 9 == b && (9 * b + p) % 9 == p);
        assert(r == row);
        lemma_peer_taken(s, full, x, r, c);
    }
    assert(pointing_boxes_view(s).removed == region_hits(s, g, num as u8));
}

/// Pointing pair is safe on a well-noted board.
pub proof fn lemma_pointing_pair_safe(s: Sudoku)
    requires
        well_noted(s),
    ensures
        safe_view(s, pointing_pair_view(s)),
{
    if first_pointing_row(s) is Some {
        lemma_pointing_rows_safe(s);
    } else if first_pointing_col(s) is Some {
        lemma_pointing_cols_safe(s);
    } else if first_pointing_box(s) is Some {
        lemma_pointing_boxes_safe(s);
    }
    lemma_removal_safe(s, pointing_pair_view(s));
}

/// Claiming pair in a row: the digit's places in the row lie in one box.
proof fn lemma_claiming_rows_safe(s: Sudoku)
    requires
        well_noted(s),
        first_claiming_row(s) is Some,
    ensures
        removes_safely(s, claiming_rows_view(s).removed),
{
    let t = first_claiming_row(s)->0;
    lemma_first_from(|t: int| claiming_row_found(s, t / 9, t % 9 + 1), 0, 81);
    let row = t / 9;
    let num = t % 9 + 1;
    let cells = cells_with_num(s, Unit::Row, row, num, 0, 9);
    assert(claiming_row_found(s, row, num));
    lemma_selected_place(s, Unit::Row, row, num, 0, 9, 0);
    let c0 = cells[0];
    assert((9 * row + c0) / 9 == row && (9 * row + c0) % 9 == c0);
    assert(s.cand(row, c0, num));
    let g = Region::BoxOutsideRow { br: band(row) as usize, bc: band(cells[0]) as usize, row: row as usize };
    assert forall|full: Grid, x: Candidate|
        #[trigger] valid_completion(s.board, full) && #[trigger] region_hits(s, g, num as u8).contains(x) && x.row < 9 && x.col < 9
            && s.board[x.row as int][x.col as int] == EMPTY implies full[x.row as int][x.col as int] != x.num by {
        let (r, c) = lemma_house_place(s, full, Unit::Row, row, num, row, c0);
        lemma_place_selected(s, Unit::Row, row, num, r, c);
        assert(c == cells[0] || c == cells[1]);
        assert(same_box(x.row as int, x.col as int, r, c));
        lemma_peer_taken(s, full, x, r, c);
    }
}

/// Claiming pair in a column: the digit's places in the column lie in one box.
proof fn lemma_claiming_cols_safe(s: Sudoku)
    requires
        well_noted(s),
        first_claiming_col(s) is Some,
    ensures
        removes_safely(s, claiming_cols_view(s).removed),
{
    let t = first_claiming_col(s)->0;
    lemma_first_from(|t: int| claiming_col_found(s, t / 9, t % 9 + 1), 0, 81);
    let col = t / 9;
    let num = t % 9 + 1;
    let cells = cells_with_num(s, Unit::Column, col, num, 0, 9);
    assert(claiming_col_found(s, col, num));
    lemma_selected_place(s, Unit::Column, col, num, 0, 9, 0);
    let r0 = cells[0];
    assert((9 * col + r0) / 9 == col && (9 * col + r0) % 9 == r0);
    assert(s.cand(r0, col, num));
    let g = Region::BoxOutsideCol { br: band(cells[0]) as usize, bc: band(col) as usize, col: col as usize };
    assert forall|full: Grid, x: Candidate|
        #[trigger] valid_completion(s.board, full) && #[trigger] region_hits(s, g, num as u8).contains(x) && x.row < 9 && x.col < 9
            && s.board[x.row as int][x.col as int] == EMPTY implies full[x.row as int][x.col as int] != x.num by {
        let (r, c) = lemma_house_place(s, full, Unit::Column, col, num, r0, col);
        lemma_place_selected(s, Unit::Column, col, num, r, c);
        assert(r == cells[0] || r == cells[1]);
        assert(same_box(x.row as int, x.col as int, r, c));
        lemma_peer_taken(s, full, x, r, c);
    }
}

/// Claiming pair is safe on a well-noted board.
pub proof fn lemma_claiming_pair_safe(s: Sudoku)
    requires
        well_noted(s),
    ensures
        safe_view(s, claiming_pair_view(s)),
{
    if first_claiming_row(s) is Some {
        lemma_claiming_rows_safe(s);
    } else if first_claiming_col(s) is Some {
        lemma_claiming_cols_safe(s);
    }
    lemma_removal_safe(s, claiming_pair_view(s));
}

/// A candidate set with exactly two digits holds no other.
proof fn lemma_two_digits(m: u16, z: int)
    requires
        mask_digits(m).len() == 2,
        in_mask(m, z),
    ensures
        z == mask_digits(m)[0] || z == mask_digits(m)[1],
{
    lemma_select_complete(|n: int| in_mask(m, n), 0, 16, z);
}

/// A candidate set with exactly three digits holds no other.
proof fn lemma_three_digits(m: u16, z: int)
    requires
        mask_digits(m).len() == 3,
        in_mask(m, z),
    ensures
        z == mask_digits(m)[0] || z == mask_digits(m)[1] || z == mask_digits(m)[2],
{
    lemma_select_complete(|n: int| in_mask(m, n), 0, 16, z);
}

/// A cell of house `h` at another position than `p` is a peer of the cell at `p`.
proof fn lemma_other_position(u: Unit, h: int, p: int, r: int, c: int)
    requires
        0 <= h < 9,
        0 <= p < 9,
        in_grid(r, c),
        in_house(u, h, r, c),
        house_pos(u, r, c) != p,
    ensures
        peers(r, c, unit_cell_row(u, 9 * h + p), unit_cell_col(u, 9 * h + p)),
{
    lemma_house_coords(u, h, p);
    lemma_house_peers_rc(u, h, r, c, unit_cell_row(u, 9 * h + p), unit_cell_col(u, 9 * h + p));
}

/// An obvious pair: the two cells take the pair's two digits between them.
proof fn lemma_obvious_pair_at_safe(s: Sudoku, u: Unit, h: int, i: int, j: int)
    requires
        well_noted(s),
        0 <= h < 9,
        0 <= i < 9,
        0 <= j < 9,
        obvious_pair_found(s, u, h, i, j),
    ensures
        removes_safely(s, obvious_pair_at(s, u, h, i, j).removed),
{
    let m = house_mask(s, u, h, i);
    let d = mask_digits(m);
    lemma_select(|n: int| in_mask(m, n), 0, 16);
    lemma_house_coords(u, h, i);
    lemma_house_coords(u, h, j);
    lemma_two_bits(i as u16, j as u16);
    let ri = unit_cell_row(u, 9 * h + i);
    let ci = unit_cell_col(u, 9 * h + i);
    let rj = unit_cell_row(u, 9 * h + j);
    let cj = unit_cell_col(u, 9 * h + j);
    assert(s.cand(ri, ci, d[0]) && s.cand(rj, cj, d[0]));
    assert(s.board[ri][ci] == EMPTY && s.board[rj][cj] == EMPTY);
    lemma_other_position(u, h, j, ri, ci);
    assert forall|full: Grid, x: Candidate|
        #[trigger] valid_completion(s.board, full) && #[trigger] house_hits(s, u, h, two_bits(i as u16, j as u16), m).contains(x) && x.row
            < 9 && x.col < 9 && s.board[x.row as int][x.col as int] == EMPTY implies full[x.row as int][x.col as int] != x.num by {
        assert(completes_cell(s.board, full, ri, ci));
        assert(completes_cell(s.board, full, rj, cj));
        assert(s.cand(ri, ci, full[ri][ci] as int));
        assert(s.cand(rj, cj, full[rj][cj] as int));
        lemma_two_digits(m, full[ri][ci] as int);
        lemma_two_digits(m, full[rj][cj] as int);
        lemma_two_digits(m, x.num as int);
        let xr = x.row as int;
        let xc = x.col as int;
        assert(!in_mask(two_bits(i as u16, j as u16), house_pos(u, xr, xc)));
        if x.num == full[ri][ci] {
            lemma_other_position(u, h, i, xr, xc);
            lemma_peer_taken(s, full, x, ri, ci);
        } else {
            lemma_other_position(u, h, j, xr, xc);
            lemma_peer_taken(s, full, x, rj, cj);
        }
    }
}

/// The first obvious pair of the houses of kind `u` removes safely.
pub(crate) proof fn lemma_obvious_pair_view_safe(s: Sudoku, u: Unit)
    requires
        well_noted(s),
    ensures
        removes_safely(s, obvious_pair_view(s, u).removed),
{
    if let Some(t) = first_obvious_pair(s, u) {
        lemma_first_from(|t: int| obvious_pair_found(s, u, t / 81, (t / 9) % 9, t % 9), 0, 729);
        lemma_obvious_pair_at_safe(s, u, t / 81, (t / 9) % 9, t % 9);
    }
}

/// Obvious pair is safe on a well-noted board.
pub proof fn lemma_obvious_pair_safe(s: Sudoku)
    requires
        well_noted(s),
    ensures
        safe_view(s, obvious_pair_strategy_view(s)),
{
    lemma_obvious_pair_view_safe(s, Unit::Row);
    lemma_obvious_pair_view_safe(s, Unit::Column);
    lemma_obvious_pair_view_safe(s, Unit::Box);
    lemma_removal_safe(s, obvious_pair_strategy_view(s));
}

/// The places of `d` in a house, when it has a candidate `d` there, include where every
/// completion puts `d`.
proof fn lemma_hidden_place(s: Sudoku, full: Grid, u: Unit, h: int, d: int) -> (q: int)
    requires
        well_noted(s),
        valid_completion(s.board, full),
        0 <= h < 9,
        locs(s, u, h, d).len() > 0,
    ensures
        locs(s, u, h, d).contains(q),
        full[unit_cell_row(u, 9 * h + q)][unit_cell_col(u, 9 * h + q)] == d,
{
    let pr = |p: int|
        s.board[unit_cell_row(u, 9 * h + p)][unit_cell_col(u, 9 * h + p)] == EMPTY && s.cand(
            unit_cell_row(u, 9 * h + p),
            unit_cell_col(u, 9 * h + p),
            d,
        );
    lemma_select(pr, 0, 9);
    let p0 = locs(s, u, h, d)[0];
    lemma_house_coords(u, h, p0);
    let (r, c) = lemma_house_place(s, full, u, h, d, unit_cell_row(u, 9 * h + p0), unit_cell_col(u, 9 * h + p0));
    lemma_house_index(u, h, r, c);
    let q = house_pos(u, r, c);
    lemma_select_complete(pr, 0, 9, q);
    q
}

/// A hidden pair's two cells take its two digits between them.
proof fn lemma_hidden_pair_at_safe(s: Sudoku, u: Unit, h: int, d1: int, d2: int)
    requires
        well_noted(s),
        0 <= h < 9,
        0 <= d1 < 16,
        0 <= d2 < 16,
        hidden_pair_ok(s, u, h, d1, d2),
    ensures
        removes_safely(s, hidden_pair_removed(s, u, h, d1, d2)),
{
    let ps = locs(s, u, h, d1);
    let skip = outside_pair(s, u, h, d1);
    lemma_two_bits(d1 as u16, d2 as u16);
    let pr = |p: int|
        s.board[unit_cell_row(u, 9 * h + p)][unit_cell_col(u, 9 * h + p)] == EMPTY && s.cand(
            unit_cell_row(u, 9 * h + p),
            unit_cell_col(u, 9 * h + p),
            d1,
        );
    lemma_select(pr, 0, 9);
    lemma_two_bits(ps[0] as u16, ps[1] as u16);
    lemma_not_mask(two_bits(ps[0] as u16, ps[1] as u16));
    assert forall|full: Grid, x: Candidate|
        #[trigger] valid_completion(s.board, full) && #[trigger] hidden_pair_removed(s, u, h, d1, d2).contains(x) && x.row < 9 && x.col
            < 9 && s.board[x.row as int][x.col as int] == EMPTY implies full[x.row as int][x.col as int] != x.num by {
        let q1 = lemma_hidden_place(s, full, u, h, d1);
        let q2 = lemma_hidden_place(s, full, u, h, d2);
        assert(q1 != q2);
        let xr = x.row as int;
        let xc = x.col as int;
        lemma_house_index(u, h, xr, xc);
        let px = house_pos(u, xr, xc);
        assert(!in_mask(skip, px));
        assert(px == ps[0] || px == ps[1]);
        lemma_missing(two_bits(d1 as u16, d2 as u16), x.num as u16);
        assert(x.num != d1 && x.num != d2);
        assert(px == q1 || px == q2);
    }
}

/// The first hidden pair of the houses of kind `u` removes safely.
pub(crate) proof fn lemma_hidden_pair_view_safe(s: Sudoku, u: Unit)
    requires
        well_noted(s),
    ensures
        removes_safely(s, hidden_pair_view(s, u).removed),
{
    if let Some(h) = first_hidden_pair_house(s, u) {
        lemma_first_from(|h: int| first_hidden_pair(s, u, h) is Some, 0, 9);
        let t = first_hidden_pair(s, u, h)->0;
        lemma_first_from(|t: int| hidden_pair_removes(s, u, h, t / 16, t % 16), 0, 256);
        lemma_hidden_pair_at_safe(s, u, h, t / 16, t % 16);
    }
}

/// Hidden pair is safe on a well-noted board.
pub proof fn lemma_hidden_pair_safe(s: Sudoku)
    requires
        well_noted(s),
    ensures
        safe_view(s, hidden_pair_strategy_view(s)),
{
    lemma_hidden_pair_view_safe(s, Unit::Row);
    lemma_hidden_pair_view_safe(s, Unit::Column);
    lemma_hidden_pair_view_safe(s, Unit::Box);
    lemma_removal_safe(s, hidden_pair_strategy_view(s));
}

/// An obvious triplet: the three cells take the triplet's three digits between them.
proof fn lemma_triplet_at_safe(s: Sudoku, u: Unit, h: int, i: int, j: int, k: int)
    requires
        well_noted(s),
        0 <= h < 9,
        0 <= i < 9,
        0 <= j < 9,
        0 <= k < 9,
        triplet_found(s, u, h, i, j, k),
    ensures
        removes_safely(s, house_hits(s, u, h, three_bits(i as u16, j as u16, k as u16), triplet_union(s, u, h, i, j, k))),
{
    let m = triplet_union(s, u, h, i, j, k);
    lemma_union3(house_mask(s, u, h, i), house_mask(s, u, h, j), house_mask(s, u, h, k));
    lemma_three_bits(i as u16, j as u16, k as u16);
    lemma_house_coords(u, h, i);
    lemma_house_coords(u, h, j);
    lemma_house_coords(u, h, k);
    let ri = unit_cell_row(u, 9 * h + i);
    let ci = unit_cell_col(u, 9 * h + i);
    let rj = unit_cell_row(u, 9 * h + j);
    let cj = unit_cell_col(u, 9 * h + j);
    let rk = unit_cell_row(u, 9 * h + k);
    let ck = unit_cell_col(u, 9 * h + k);
    lemma_other_position(u, h, j, ri, ci);
    lemma_other_position(u, h, k, ri, ci);
    lemma_other_position(u, h, k, rj, cj);
    assert forall|full: Grid, x: Candidate|
        #[trigger] valid_completion(s.board, full) && #[trigger] house_hits(s, u, h, three_bits(i as u16, j as u16, k as u16), m).contains(x)
            && x.row < 9 && x.col < 9 && s.board[x.row as int][x.col as int] == EMPTY implies full[x.row as int][x.col as int] != x.num by {
        assert(completes_cell(s.board, full, ri, ci));
        assert(completes_cell(s.board, full, rj, cj));
        assert(completes_cell(s.board, full, rk, ck));
        assert(s.cand(ri, ci, full[ri][ci] as int));
        assert(s.cand(rj, cj, full[rj][cj] as int));
        assert(s.cand(rk, ck, full[rk][ck] as int));
        assert(in_mask(m, full[ri][ci] as int));
        assert(in_mask(m, full[rj][cj] as int));
        assert(in_mask(m, full[rk][ck] as int));
        lemma_three_digits(m, full[ri][ci] as int);
        lemma_three_digits(m, full[rj][cj] as int);
        lemma_three_digits(m, full[rk][ck] as int);
        lemma_three_digits(m, x.num as int);
        lemma_select(|n: int| in_mask(m, n), 0, 16);
        let xr = x.row as int;
        let xc = x.col as int;
        assert(!in_mask(three_bits(i as u16, j as u16, k as u16), house_pos(u, xr, xc)));
        if x.num == full[ri][ci] {
            lemma_other_position(u, h, i, xr, xc);
            lemma_peer_taken(s, full, x, ri, ci);
        } else if x.num == full[rj][cj] {
            lemma_other_position(u, h, j, xr, xc);
            lemma_peer_taken(s, full, x, rj, cj);
        } else {
            lemma_other_position(u, h, k, xr, xc);
            lemma_peer_taken(s, full, x, rk, ck);
        }
    }
}

/// The first obvious triplet of the houses of kind `u` removes safely.
proof fn lemma_triplet_view_safe(s: Sudoku, u: Unit)
    requires
        well_noted(s),
    ensures
        removes_safely(s, obvious_triplet_view(s, u).removed),
{
    if let Some(t) = first_triplet(s, u) {
        lemma_first_from(|t: int| triplet_removes(s, u, t / 729, (t / 81) % 9, (t / 9) % 9, t % 9), 0, 6561);
        lemma_triplet_at_safe(s, u, t / 729, (t / 81) % 9, (t / 9) % 9, t % 9);
    }
}

/// Obvious triplet is safe on a well-noted board.
pub proof fn lemma_obvious_triplet_safe(s: Sudoku)
    requires
        well_noted(s),
    ensures
        safe_view(s, obvious_triplet_strategy_view(s)),
{
    lemma_triplet_view_safe(s, Unit::Row);
    lemma_triplet_view_safe(s, Unit::Column);
    lemma_triplet_view_safe(s, Unit::Box);
    lemma_removal_safe(s, obvious_triplet_strategy_view(s));
}

/// The cell at position `p` of row (or column) `h` lies in column (or row) `p`, at
/// position `h`.
proof fn lemma_cross(u: Unit, h: int, p: int)
    requires
        u != Unit::Box,
        0 <= h < 9,
        0 <= p < 9,
    ensures
        in_house(cross(u), p, unit_cell_row(u, 9 * h + p), unit_cell_col(u, 9 * h + p)),
        house_pos(cross(u), unit_cell_row(u, 9 * h + p), unit_cell_col(u, 9 * h + p)) == h,
{
    assert((9 * h + p) / 9 == h && (9 * h + p) % 9 == p);
}

/// Where a completion puts the digit of an X-Wing in one of its two houses.
proof fn lemma_xwing_place(s: Sudoku, full: Grid, u: Unit, num: int, h: int, ps: Seq<int>) -> (q: int)
    requires
        well_noted(s),
        valid_completion(s.board, full),
        0 <= h < 9,
        places(s, u, h, num) == ps,
        ps.len() == 2,
    ensures
        q == ps[0] || q == ps[1],
        0 <= q < 9,
        full[unit_cell_row(u, 9 * h + q)][unit_cell_col(u, 9 * h + q)] == num,
{
    lemma_selected_place(s, u, h, num, 0, 9, 0);
    lemma_house_coords(u, h, ps[0]);
    let (r, c) = lemma_house_place(s, full, u, h, num, unit_cell_row(u, 9 * h + ps[0]), unit_cell_col(u, 9 * h + ps[0]));
    lemma_place_selected(s, u, h, num, r, c);
    lemma_house_index(u, h, r, c);
    house_pos(u, r, c)
}

/// An X-Wing: the digit's places in the two houses take the two crossing houses between
/// them.
proof fn lemma_xwing_at_safe(s: Sudoku, u: Unit, num: int, h1: int, h2: int)
    requires
        well_noted(s),
        u != Unit::Box,
        1 <= num <= 9,
        0 <= h1 < 9,
        0 <= h2 < 9,
        xwing_found(s, u, num, h1, h2),
    ensures
        removes_safely(s, xwing_removed(s, u, num, h1, h2)),
{
    let ps = places(s, u, h1, num);
    lemma_select(house_cand(s, u, h1, num), 0, 9);
    lemma_two_bits(h1 as u16, h2 as u16);
    lemma_single_bit(num as u16);
    let skip = two_bits(h1 as u16, h2 as u16);
    let one = single_bit(num as u16);
    assert forall|full: Grid, x: Candidate|
        #[trigger] valid_completion(s.board, full) && #[trigger] xwing_removed(s, u, num, h1, h2).contains(x) && x.row < 9 && x.col < 9
            && s.board[x.row as int][x.col as int] == EMPTY implies full[x.row as int][x.col as int] != x.num by {
        let q1 = lemma_xwing_place(s, full, u, num, h1, ps);
        let q2 = lemma_xwing_place(s, full, u, num, h2, ps);
        lemma_cross(u, h1, q1);
        lemma_cross(u, h2, q2);
        lemma_house_coords(u, h1, q1);
        lemma_house_coords(u, h2, q2);
        let r1 = unit_cell_row(u, 9 * h1 + q1);
        let c1 = unit_cell_col(u, 9 * h1 + q1);
        let r2 = unit_cell_row(u, 9 * h2 + q2);
        let c2 = unit_cell_col(u, 9 * h2 + q2);
        if q1 == q2 {
            lemma_house_peers_rc(cross(u), q1, r1, c1, r2, c2);
            assert(completes_cell(s.board, full, r1, c1));
            assert(completes_cell(s.board, full, r2, c2));
            assert(s.board[r1][c1] == EMPTY || s.board[r2][c2] == EMPTY) by {
                lemma_selected_place(s, u, h1, num, 0, 9, 0);
            }
        }
        let xr = x.row as int;
        let xc = x.col as int;
        let big = if house_hits(s, cross(u), ps[0], skip, one).contains(x) { ps[0] } else { ps[1] };
        assert(house_hits(s, cross(u), big, skip, one).contains(x));
        assert(in_house(cross(u), big, xr, xc));
        assert(!in_mask(skip, house_pos(cross(u), xr, xc)));
        assert(x.num == num);
        if big == q1 {
            lemma_house_peers_rc(cross(u), big, xr, xc, r1, c1);
            lemma_peer_taken(s, full, x, r1, c1);
        } else {
            assert(big == q2);
            lemma_house_peers_rc(cross(u), big, xr, xc, r2, c2);
            lemma_peer_taken(s, full, x, r2, c2);
        }
    }
}

/// The first X-Wing of the houses of kind `u` removes safely.
pub(crate) proof fn lemma_xwing_view_safe(s: Sudoku, u: Unit)
    requires
        well_noted(s),
        u != Unit::Box,
    ensures
        removes_safely(s, xwing_view(s, u).removed),
{
    if let Some(t) = first_xwing(s, u) {
        lemma_first_from(|t: int| xwing_removes(s, u, t / 81 + 1, (t / 9) % 9, t % 9), 0, 729);
        lemma_xwing_at_safe(s, u, t / 81 + 1, (t / 9) % 9, t % 9);
    }
}

/// X-Wing is safe on a well-noted board.
pub proof fn lemma_xwing_safe(s: Sudoku)
    requires
        well_noted(s),
    ensures
        safe_view(s, xwing_strategy(s).1),
{
    lemma_xwing_view_safe(s, Unit::Row);
    lemma_xwing_view_safe(s, Unit::Column);
    lemma_removal_safe(s, xwing_strategy(s).1);
}


/// The three positions of a band: those from `b` to `b + 2`.
proof fn lemma_band_bits(b: int, p: int)
    requires
        0 <= b <= 6,
        0 <= p < 9,
    ensures
        in_mask(band_bits(b), p) == (b <= p < b + 3),
{
    let bb = b as u16;
    let k = p as u16;
    assert((((7u16 << bb) >> k) & 1u16 == 1u16) <==> (bb <= k && k < bb + 3)) by (bit_vector)
        requires
            bb <= 6,
            k < 9,
    ;
}

/// A candidate of a segment lies in the crossing house at `pos`, at a position of the band
/// that starts at `b`, and holds the digit.
proof fn lemma_in_segment(s: Sudoku, u: Unit, num: int, b: int, pos: int, x: Candidate)
    requires
        u != Unit::Box,
        1 <= num <= 9,
        0 <= b <= 6,
        segment(s, u, num, b, pos).contains(x),
    ensures
        in_grid(x.row as int, x.col as int),
        in_house(cross(u), pos, x.row as int, x.col as int),
        b <= house_pos(cross(u), x.row as int, x.col as int) < b + 3,
        x.num == num,
{
    lemma_single_bit(num as u16);
    lemma_not_mask(band_bits(b));
    let hp = house_pos(cross(u), x.row as int, x.col as int);
    assert(0 <= hp < 9);
    lemma_band_bits(b, hp);
}

/// A skyscraper: two lines hold the digit in exactly two places each, at the same base
/// position, in different bands, with distinct tops in one band of positions. One of the
/// tops gets the digit, so the cells that see both tops lose it.
proof fn lemma_sky_pair_safe(s: Sudoku, u: Unit, num: int, a: StrongLink, b: StrongLink)
    requires
        well_noted(s),
        u != Unit::Box,
        1 <= num <= 9,
        genuine(s, u, num, a),
        genuine(s, u, num, b),
        a.base == b.base,
        !drop_rule(DropRule::SameBaseBox, a, b),
        !drop_rule(DropRule::SameTop, a, b),
        !drop_rule(DropRule::TopBandsDiffer, a, b),
    ensures
        removes_safely(s, sky_removed(s, u, num, a, b)),
{
    let ha = a.house as int;
    let hb = b.house as int;
    let pa = places(s, u, ha, num);
    let pb = places(s, u, hb, num);
    let ta = a.top as int;
    let tb = b.top as int;
    lemma_select(house_cand(s, u, ha, num), 0, 9);
    lemma_select(house_cand(s, u, hb, num), 0, 9);
    assert(ha / 3 != hb / 3);
    assert(0 <= ta < 9 && 0 <= tb < 9 && ta != tb && ta / 3 == tb / 3);
    assert forall|full: Grid, x: Candidate|
        #[trigger] valid_completion(s.board, full) && #[trigger] sky_removed(s, u, num, a, b).contains(x) && x.row < 9 && x.col < 9
            && s.board[x.row as int][x.col as int] == EMPTY implies full[x.row as int][x.col as int] != x.num by {
        let qa = lemma_xwing_place(s, full, u, num, ha, pa);
        let qb = lemma_xwing_place(s, full, u, num, hb, pb);
        lemma_house_coords(u, ha, qa);
        lemma_house_coords(u, hb, qb);
        lemma_cross(u, ha, qa);
        lemma_cross(u, hb, qb);
        let ra = unit_cell_row(u, 9 * ha + qa);
        let ca = unit_cell_col(u, 9 * ha + qa);
        let rb = unit_cell_row(u, 9 * hb + qb);
        let cb = unit_cell_col(u, 9 * hb + qb);
        if qa != ta && qb != tb {
            assert(qa == a.base && qb == b.base);
            lemma_house_peers_rc(cross(u), qa, ra, ca, rb, cb);
            lemma_completion_distinct(s.board, full, ra, ca, rb, cb);
        }
        let xr = x.row as int;
        let xc = x.col as int;
        let in_first = segment(s, u, num, 3 * (hb / 3), ta).contains(x);
        if in_first {
            lemma_in_segment(s, u, num, 3 * (hb / 3), ta, x);
        } else {
            lemma_in_segment(s, u, num, 3 * (ha / 3), tb, x);
        }
        if qa == ta {
            if in_first {
                lemma_house_peers_rc(cross(u), ta, xr, xc, ra, ca);
            } else {
                assert(peers(xr, xc, ra, ca));
            }
            lemma_peer_taken(s, full, x, ra, ca);
        } else {
            assert(qb == tb);
            if in_first {
                assert(peers(xr, xc, rb, cb));
            } else {
                lemma_house_peers_rc(cross(u), tb, xr, xc, rb, cb);
            }
            lemma_peer_taken(s, full, x, rb, cb);
        }
    }
}

/// The first skyscraper of the houses of kind `u` removes safely.
pub(crate) proof fn lemma_skyscraper_view_safe(s: Sudoku, u: Unit)
    requires
        well_noted(s),
        u != Unit::Box,
    ensures
        removes_safely(s, skyscraper_view(s, u).removed),
{
    lemma_first_from(|n: int| first_sky_pair(s, u, n) is Some, 1, 10);
    if let Some(n) = first_sky_num(s, u) {
        let f = sky_links(s, u, n);
        let l = f.len() as int;
        lemma_first_from(|q: int| sky_removes(s, u, n, q), 0, l * l);
        let q = first_sky_pair(s, u, n)->0;
        assert(sky_removes(s, u, n, q));
        let i = q / l;
        let j = q % l;
        assert(sky_match(f, i, j));
        lemma_sky_links(s, u, n);
        assert(genuine(s, u, n, f[i]));
        assert(genuine(s, u, n, f[j]));
        assert(!drop_rule(DropRule::SameBaseBox, f[i], f[j]));
        assert(!drop_rule(DropRule::SameTop, f[i], f[j]));
        assert(!drop_rule(DropRule::TopBandsDiffer, f[i], f[j]));
        lemma_sky_pair_safe(s, u, n, f[i], f[j]);
    }
}

/// Skyscraper is safe on a well-noted board.
pub proof fn lemma_skyscraper_safe(s: Sudoku)
    requires
        well_noted(s),
    ensures
        safe_view(s, skyscraper_strategy_view(s)),
{
    lemma_skyscraper_view_safe(s, Unit::Row);
    lemma_skyscraper_view_safe(s, Unit::Column);
    lemma_removal_safe(s, skyscraper_strategy_view(s));
}

} // verus!
