//! What the rating counts: along a solve, the counts of all strategies add up to the
//! candidates removed and the cells filled.

use vstd::prelude::*;

use crate::board::{empty_cells, grid_set, in_grid, lemma_empty_below_set, removed_upto, Sudoku};
use crate::collect::set_num_view;
use crate::digits::sole_in_mask;
use crate::lastdigit::{
    box_cell_col, box_cell_row, box_last_digit, first_empty_in_box, first_last_digit_box, first_sole_empty_col, first_sole_empty_row,
    last_digit_defined, last_digit_view, sole_empty_in_col, sole_empty_in_row, sole_missing_in_box, sole_missing_in_col,
    sole_missing_in_row,
};
use crate::search::lemma_first_from;
use crate::singles::{
    first_hidden_cell, first_single_cell, hidden_at, hidden_num, hidden_single_view, obvious_single_defined,
    obvious_single_view, unit_cell_col, unit_cell_row,
};
use crate::solver::{
    calculated, counted, first_step, human_step, is_human_run, is_next_step, lemma_present_finite, present, step_found, step_view,
    strategy_defined,
};
use crate::steps::{applied, can_apply, removes};
use crate::{strategy_index, Candidate, Strategy, StrategyResult, Unit, EMPTY};

verus! {

/// Every candidate of an empty cell is a digit from 1 to 9.
pub open spec fn digit_notes(s: Sudoku) -> bool {
    forall|r: int, c: int, n: int| in_grid(r, c) && s.board[r][c] == EMPTY && #[trigger] s.cand(r, c, n) ==> 1 <= n <= 9
}

/// The cell that a view fills, if any, is an empty cell of the grid and gets a digit from
/// 1 to 9.
pub open spec fn fills_empty(s: Sudoku, cell: Option<crate::Cell>) -> bool {
    cell matches Some(c) ==> c.row < 9 && c.col < 9 && s.board[c.row as int][c.col as int] == EMPTY && 1 <= c.num <= 9
}

/// Placing a digit from 1 to 9 into an empty cell fills an empty cell.
proof fn lemma_set_num_fills(s: Sudoku, n: int, r: int, c: int)
    requires
        in_grid(r, c),
        s.board[r][c] == EMPTY,
        1 <= n <= 9,
    ensures
        fills_empty(s, set_num_view(s, n as u8, r, c).sets_cell),
{
}

/// The last digit fills an empty cell with a digit.
proof fn lemma_last_digit_fills(s: Sudoku)
    requires
        last_digit_defined(s.board),
    ensures
        fills_empty(s, last_digit_view(s).sets_cell),
{
    let g = s.board;
    lemma_first_from(|r: int| exists|c: int| sole_empty_in_row(g, r, c), 0, 9);
    lemma_first_from(|c: int| exists|r: int| sole_empty_in_col(g, c, r), 0, 9);
    lemma_first_from(|b: int| box_last_digit(g, b), 0, 9);
    if let Some(r) = first_sole_empty_row(g) {
        let c = choose|c: int| sole_empty_in_row(g, r, c);
        let n = choose|n: int| sole_missing_in_row(g, r, n);
        lemma_set_num_fills(s, n, r, c);
    } else if let Some(c) = first_sole_empty_col(g) {
        let r = choose|r: int| sole_empty_in_col(g, c, r);
        let n = choose|n: int| sole_missing_in_col(g, c, n);
        lemma_set_num_fills(s, n, r, c);
    } else if let Some(b) = first_last_digit_box(g) {
        let k = first_empty_in_box(g, b)->0;
        lemma_first_from(|k: int| g[box_cell_row(b, k)][box_cell_col(b, k)] == EMPTY, 0, 9);
        let n = choose|n: int| sole_missing_in_box(g, b, n);
        lemma_set_num_fills(s, n, box_cell_row(b, k), box_cell_col(b, k));
    }
}

/// The obvious single fills an empty cell with a digit.
proof fn lemma_obvious_single_fills(s: Sudoku)
    requires
        digit_notes(s),
        obvious_single_defined(s),
    ensures
        fills_empty(s, obvious_single_view(s).sets_cell),
{
    if let Some(k) = first_single_cell(s) {
        lemma_first_from(|k: int| exists|n: int| #[trigger] sole_in_mask(s.candidates[k / 9][k % 9], n), 0, 81);
        let n = choose|n: int| #[trigger] sole_in_mask(s.candidates[k / 9][k % 9], n);
        assert(sole_in_mask(s.candidates[k / 9][k % 9], n));
        assert(s.cand(k / 9, k % 9, n));
        lemma_set_num_fills(s, n, k / 9, k % 9);
    }
}

/// The hidden single of the houses of kind `u` fills an empty cell with a digit.
proof fn lemma_hidden_single_fills(s: Sudoku, u: Unit)
    requires
        digit_notes(s),
    ensures
        fills_empty(s, hidden_single_view(s, u).sets_cell),
{
    if let Some(k) = first_hidden_cell(s, u) {
        lemma_first_from(|k: int| hidden_num(s, u, k) is Some, 0, 81);
        let r = unit_cell_row(u, k);
        let c = unit_cell_col(u, k);
        lemma_first_from(|n: int| hidden_at(s, u, r, c, n), 0, 16);
        let n = hidden_num(s, u, k)->0;
        assert(hidden_at(s, u, r, c, n));
        assert(0 <= r < 9 && 0 <= c < 9);
        lemma_set_num_fills(s, n, r, c);
    }
}

/// The cell that the `k`-th strategy fills, if any, is an empty cell that gets a digit.
pub proof fn lemma_step_fills_empty(s: Sudoku, k: int)
    requires
        digit_notes(s),
        strategy_defined(s, k),
    ensures
        fills_empty(s, step_view(s, k).sets_cell),
{
    reveal(step_view);
    if k == 0 {
        lemma_last_digit_fills(s);
    } else if k == 1 {
        lemma_obvious_single_fills(s);
    } else if k == 2 {
        lemma_hidden_single_fills(s, Unit::Box);
        lemma_hidden_single_fills(s, Unit::Row);
        lemma_hidden_single_fills(s, Unit::Column);
    }
}

/// Counting `d` more in slot `k` of a rating adds `d` to the total of the first `n` slots
/// when `k` is among them.
proof fn lemma_bump(rt1: [usize; 12], rt2: [usize; 12], k: int, d: int, n: int)
    requires
        0 <= k < 12,
        0 <= n <= 12,
        forall|i: int| 0 <= i < 12 ==> #[trigger] rt2[i] == rt1[i] + if i == k { d } else { 0 },
    ensures
        removed_upto(rt2, n) == removed_upto(rt1, n) + if k < n { d } else { 0 },
    decreases n,
{
    if n > 0 {
        lemma_bump(rt1, rt2, k, d, n - 1);
        assert(rt2[n - 1] == rt1[n - 1] + if n - 1 == k { d } else { 0 });
    }
}

/// The number of a candidate in `present`.
pub open spec fn cand_id(x: Candidate) -> int {
    144 * x.row + 16 * x.col + x.num
}

/// Taking away candidates that are all there leaves as many fewer.
proof fn lemma_present_after(s: Sudoku, t: Sudoku, r: StrategyResult)
    requires
        can_apply(s, r),
        applied(s, t, r),
    ensures
        present(s).finite(),
        present(t).finite(),
        present(t).len() + r.removals@.removed.len() == present(s).len(),
{
    lemma_present_finite(s);
    lemma_present_finite(t);
    let removed = r.removals@.removed;
    let seq = r.removals.candidates_about_to_be_removed@;
    assert(removed == seq.to_set());
    seq.unique_seq_to_set();
    let ids = removed.map(|x: Candidate| cand_id(x));
    assert forall|x: Candidate| #[trigger] removed.contains(x) implies x.row < 9 && x.col < 9 && x.num < 16 && s.cand(
        x.row as int,
        x.col as int,
        x.num as int,
    ) by {
        assert(seq.contains(x));
    }
    assert(vstd::relations::injective_on(|x: Candidate| cand_id(x), removed)) by {
        assert forall|x: Candidate, y: Candidate|
            removed.contains(x) && removed.contains(y) && #[trigger] cand_id(x) == #[trigger] cand_id(y) implies x == y by {
            let i = cand_id(x);
            assert(i / 144 == x.row && (i / 16) % 9 == x.col && i % 16 == x.num);
            assert(i / 144 == y.row && (i / 16) % 9 == y.col && i % 16 == y.num);
        }
    }
    vstd::set_lib::lemma_map_size(removed, ids, |x: Candidate| cand_id(x));
    assert(ids.subset_of(present(s))) by {
        assert forall|i: int| ids.contains(i) implies present(s).contains(i) by {
            let x = choose|x: Candidate| removed.contains(x) && cand_id(x) == i;
            assert(i / 144 == x.row && (i / 16) % 9 == x.col && i % 16 == x.num);
        }
    }
    assert(present(t) =~= present(s).difference(ids)) by {
        assert forall|i: int| present(t).contains(i) <==> present(s).difference(ids).contains(i) by {
            if 0 <= i < 1296 {
                let row = i / 144;
                let col = (i / 16) % 9;
                let num = i % 16;
                assert(in_grid(row, col));
                let x = Candidate { row: row as usize, col: col as usize, num: num as u8 };
                assert(cand_id(x) == i);
                if ids.contains(i) {
                    let y = choose|y: Candidate| removed.contains(y) && cand_id(y) == i;
                    assert(y.row == row && y.col == col && y.num == num);
                    assert(y == x);
                    assert(removes(r, row, col, num));
                }
                if removes(r, row, col, num) {
                    assert(seq.contains(x));
                    assert(removed.contains(x));
                    assert(ids.contains(cand_id(x)));
                }
            }
        }
    }
    vstd::set_lib::lemma_set_difference_len(present(s), ids);
    assert(present(s).intersect(ids) =~= ids);
}

/// One step of the solver: what it adds to the rating is the candidates it removes and the
/// cell it fills.
pub proof fn lemma_step_tally(a: Sudoku, b: Sudoku)
    requires
        human_step(a, b),
        digit_notes(a),
    ensures
        digit_notes(b),
        present(a).finite(),
        present(b).finite(),
        removed_upto(b.rating, 12) - removed_upto(a.rating, 12) == (present(a).len() - present(b).len()) + (empty_cells(a.board)
            - empty_cells(b.board)),
{
    let (r, mid) = choose|r: StrategyResult, mid: Sudoku|
        #![trigger is_next_step(a, r), applied(mid, b, r)]
        is_next_step(a, r) && r.strategy != Strategy::NoStrategy && counted(a, mid, r) && can_apply(mid, r) && applied(mid, b, r);
    let k = first_step(a)->0;
    assert(first_step(a) is Some);
    assert(r.removals@ == step_view(a, k));
    crate::search::lemma_first_from(|k: int| step_found(a, k), 0, 11);
    assert(strategy_defined(a, k));
    lemma_step_fills_empty(a, k);
    let si = strategy_index(r.strategy);
    assert(0 <= si < 12);
    let d = r.removals@.removed.len() as int;
    lemma_bump(a.rating, mid.rating, si, d, 12);
    lemma_present_after(mid, b, r);
    assert(present(mid) =~= present(a));
    match r.removals.sets_cell {
        Some(cell) => {
            lemma_bump(mid.rating, b.rating, si, 1, 12);
            assert(grid_set(mid.board, b.board, cell.row as int, cell.col as int, cell.num));
            lemma_empty_below_set(mid.board, b.board, cell.row as int, cell.col as int, cell.num, 81);
            assert forall|rr: int, cc: int, n: int| in_grid(rr, cc) && b.board[rr][cc] == EMPTY && #[trigger] b.cand(rr, cc, n) implies 1
                <= n <= 9 by {
                assert(a.cand(rr, cc, n));
            }
        },
        None => {
            assert(b.rating =~= mid.rating);
            assert forall|rr: int, cc: int, n: int| in_grid(rr, cc) && b.board[rr][cc] == EMPTY && #[trigger] b.cand(rr, cc, n) implies 1
                <= n <= 9 by {
                assert(a.cand(rr, cc, n));
            }
        },
    }
}

/// Along a run of the solver whose first state has digits for candidates, the counts of the
/// rating grow by exactly the candidates removed and the cells filled.
pub proof fn lemma_run_tally(trace: Seq<Sudoku>)
    requires
        is_human_run(trace),
        digit_notes(trace[0]),
    ensures
        forall|i: int| 0 <= i < trace.len() ==> #[trigger] digit_notes(trace[i]),
        forall|i: int|
            0 <= i < trace.len() ==> removed_upto(#[trigger] trace[i].rating, 12) - removed_upto(trace[0].rating, 12) == (present(
                trace[0],
            ).len() - present(trace[i]).len()) + (empty_cells(trace[0].board) - empty_cells(trace[i].board)),
    decreases trace.len(),
{
    if trace.len() > 1 {
        let front = trace.drop_last();
        assert(is_human_run(front)) by {
            assert forall|i: int| 0 <= i < front.len() - 1 implies human_step(#[trigger] front[i], front[i + 1]) by {
                assert(front[i] == trace[i] && front[i + 1] == trace[i + 1]);
            }
        }
        lemma_run_tally(front);
        let j = trace.len() - 2;
        assert(front[j] == trace[j]);
        assert(digit_notes(front[j]));
        assert(human_step(trace[j], trace[j + 1]));
        lemma_step_tally(trace[j], trace[j + 1]);
        assert forall|i: int| 0 <= i < trace.len() implies #[trigger] digit_notes(trace[i]) by {
            if i < trace.len() - 1 {
                assert(front[i] == trace[i]);
            }
        }
        assert forall|i: int| 0 <= i < trace.len() implies removed_upto(#[trigger] trace[i].rating, 12) - removed_upto(
            trace[0].rating,
            12,
        ) == (present(trace[0]).len() - present(trace[i]).len()) + (empty_cells(trace[0].board) - empty_cells(trace[i].board)) by {
            if i < trace.len() - 1 {
                assert(front[i] == trace[i]);
                assert(front[0] == trace[0]);
            }
        }
    }
}

/// The rating counts what the solve did: when a run of the solver starts from the
/// candidates computed for a board and a cleared rating, the counts of all strategies add
/// up, at every state, to the candidates removed since the start plus the cells filled.
pub proof fn lemma_rating_counts(s0: Sudoku, trace: Seq<Sudoku>)
    requires
        calculated(s0, trace[0]),
        is_human_run(trace),
    ensures
        forall|i: int|
            0 <= i < trace.len() ==> removed_upto(#[trigger] trace[i].rating, 12) == (present(trace[0]).len() - present(
                trace[i],
            ).len()) + (empty_cells(s0.board) - empty_cells(trace[i].board)),
{
    let t0 = trace[0];
    assert forall|r: int, c: int, n: int| in_grid(r, c) && t0.board[r][c] == EMPTY && #[trigger] t0.cand(r, c, n) implies 1 <= n
        <= 9 by {}
    lemma_run_tally(trace);
    assert(removed_upto(t0.rating, 12) == 0) by {
        lemma_zero_rating(t0.rating, 12);
    }
}

/// A cleared rating counts nothing.
proof fn lemma_zero_rating(rt: [usize; 12], n: int)
    requires
        crate::board::all_zero_rating(rt),
        0 <= n <= 12,
    ensures
        removed_upto(rt, n) == 0,
    decreases n,
{
    if n > 0 {
        lemma_zero_rating(rt, n - 1);
    }
}

} // verus!
