//! Why the first solver finds the solution: each of its moves either fills a cell with
//! the digit that every completion puts there, or takes away notes that no completion
//! needs.

use vstd::prelude::*;

use crate::board::{box_of, completes_cell, in_grid, peers, same_box, valid_completion, Grid, Sudoku as Puzzle};
use crate::collect::{house_pos, in_house};
use crate::digits::{in_mask, sole_in_mask};
use crate::elimination::{
    lemma_hidden_pair_view_safe, lemma_obvious_pair_view_safe, lemma_peer_taken, lemma_xwing_view_safe, removes_safely, well_noted,
};
use crate::lastdigit::{box_cell_col, box_cell_row, sole_empty_in_col, sole_empty_in_row};
use crate::pairs::cand_at;
use crate::pointing::{has, line_places, pointing_at, pointing_gone, pointing_hits};
use crate::resolve::{
    basic_step, first_sole_empty_box, has_sole_note, hidden_single_in_move, is_run, last_digit_cell,
    last_digit_move, moved, noted, obvious_single_move, sole_empty_in_box, sole_note, step_ready,
    stepped, Move,
};
use crate::search::{lemma_first_from, lemma_select, lemma_select_complete};
use crate::singles::{first_hidden_cell, first_single_cell, hidden_num, hidden_single_view, obvious_single_defined, unit_cell_col, unit_cell_row};
use crate::sound::{
    bare, lemma_computed_candidates, lemma_hidden_single_house_safe, lemma_house_index, lemma_house_place, lemma_place_board,
    solvable, sound,
};
use crate::sudoku::Sudoku;
use crate::{Candidate, Unit, EMPTY};

verus! {

/// A move is safe on `s`: the cell it fills is an empty cell of the grid that every
/// completion fills with that digit, and the notes it takes away are ones that no
/// completion puts into their cells.
pub open spec fn move_safe(s: Puzzle, m: Move) -> bool {
    match m {
        Move::Place { num, row, col, .. } => {
            &&& in_grid(row, col)
            &&& s.board[row][col] == EMPTY
            &&& forall|full: Grid| #[trigger] valid_completion(s.board, full) ==> full[row][col] == num
        },
        Move::Take { gone, .. } => removes_safely(s, gone),
        Move::Stuck => true,
    }
}

/// `b` is well noted and has the completions of `a`.
pub open spec fn keeps_solutions(a: Puzzle, b: Puzzle) -> bool {
    &&& well_noted(b)
    &&& forall|full: Grid| valid_completion(b.board, full) <==> valid_completion(a.board, full)
}

/// A safe move keeps the notes well kept and the completions unchanged.
pub proof fn lemma_move_keeps(s: Puzzle, t: Puzzle, m: Move, n: int)
    requires
        well_noted(s),
        move_safe(s, m),
        moved(s, t, m, n),
    ensures
        keeps_solutions(s, t),
{
    match m {
        Move::Place { num, row, col, .. } => {
            lemma_place_board(s.board, t.board, row, col, num);
            let full0 = choose|full: Grid| valid_completion(s.board, full);
            assert(completes_cell(s.board, full0, row, col));
            assert(1 <= num <= 9);
            assert forall|full: Grid, r: int, c: int| valid_completion(t.board, full) && in_grid(r, c) && t.board[r][c] == EMPTY implies #[trigger] t.cand(
                r,
                c,
                full[r][c] as int,
            ) by {
                assert(valid_completion(s.board, full));
                assert(s.board[r][c] == EMPTY);
                assert(s.cand(r, c, full[r][c] as int));
                assert(completes_cell(s.board, full, r, c));
                if peers(row, col, r, c) {
                    assert(peers(r, c, row, col));
                }
            }
            assert forall|r: int, c: int, r2: int, c2: int|
                in_grid(r, c) && in_grid(r2, c2) && peers(r, c, r2, c2) && t.board[r][c] == EMPTY && t.board[r2][c2] != EMPTY implies !#[trigger] t.cand(
                r,
                c,
                t.board[r2][c2] as int,
            ) by {
                if !(r2 == row && c2 == col) {
                    assert(!s.cand(r, c, s.board[r2][c2] as int));
                } else {
                    assert(peers(row, col, r, c));
                }
            }
        },
        Move::Take { gone, .. } => {
            assert forall|full: Grid, r: int, c: int| valid_completion(t.board, full) && in_grid(r, c) && t.board[r][c] == EMPTY implies #[trigger] t.cand(
                r,
                c,
                full[r][c] as int,
            ) by {
                let x = Candidate { row: r as usize, col: c as usize, num: full[r][c] };
                assert(s.cand(r, c, full[r][c] as int));
                if gone.contains(x) {
                    assert(full[x.row as int][x.col as int] != x.num);
                }
            }
        },
        Move::Stuck => {},
    }
}

/// A cell with one note, empty in a board with sound notes, gets that note in every
/// completion.
proof fn lemma_sole_note_forced(s: Puzzle, r: int, c: int)
    requires
        sound(s),
        in_grid(r, c),
        s.board[r][c] == EMPTY,
        has_sole_note(s, r, c),
    ensures
        0 <= sole_note(s, r, c) < 16,
        forall|full: Grid| #[trigger] valid_completion(s.board, full) ==> full[r][c] == sole_note(s, r, c) as u8,
{
    let n = sole_note(s, r, c);
    assert(sole_in_mask(s.candidates[r][c], n));
    assert(in_mask(s.candidates[r][c], n));
    assert forall|full: Grid| #[trigger] valid_completion(s.board, full) implies full[r][c] == n as u8 by {
        assert(s.cand(r, c, full[r][c] as int));
        assert(in_mask(s.candidates[r][c], full[r][c] as int));
    }
}

/// The cell that the last digit fills is an empty cell of the grid.
proof fn lemma_last_digit_cell(g: Grid)
    ensures
        last_digit_cell(g) matches Some((r, c)) ==> in_grid(r, c) && g[r][c] == EMPTY,
{
    lemma_first_from(|r: int| exists|c: int| sole_empty_in_row(g, r, c), 0, 9);
    lemma_first_from(|c: int| exists|r: int| sole_empty_in_col(g, c, r), 0, 9);
    lemma_first_from(|b: int| exists|k: int| sole_empty_in_box(g, b, k), 0, 9);
    if let Some(b) = first_sole_empty_box(g) {
        let k = choose|k: int| sole_empty_in_box(g, b, k);
        assert(0 <= box_cell_row(b, k) < 9 && 0 <= box_cell_col(b, k) < 9);
    }
}

/// The last digit of the first solver is safe when its cell has one note.
proof fn lemma_last_digit_move_safe(s: Puzzle)
    requires
        well_noted(s),
        last_digit_cell(s.board) matches Some((r, c)) ==> has_sole_note(s, r, c),
    ensures
        move_safe(s, last_digit_move(s)),
{
    lemma_last_digit_cell(s.board);
    if let Some((r, c)) = last_digit_cell(s.board) {
        lemma_sole_note_forced(s, r, c);
    }
}

/// The obvious single of the first solver is safe when its cell is empty.
proof fn lemma_obvious_single_move_safe(s: Puzzle)
    requires
        well_noted(s),
        obvious_single_defined(s),
    ensures
        move_safe(s, obvious_single_move(s)),
{
    if let Some(k) = first_single_cell(s) {
        lemma_first_from(|k: int| exists|n: int| #[trigger] sole_in_mask(s.candidates[k / 9][k % 9], n), 0, 81);
        lemma_sole_note_forced(s, k / 9, k % 9);
    }
}

/// The hidden single of a house is safe.
proof fn lemma_hidden_single_in_move_safe(s: Puzzle, u: Unit)
    requires
        well_noted(s),
    ensures
        move_safe(s, hidden_single_in_move(s, u)),
{
    if let Some(k) = first_hidden_cell(s, u) {
        lemma_first_from(|k: int| hidden_num(s, u, k) is Some, 0, 81);
        lemma_hidden_single_house_safe(s, u);
        let v = hidden_single_view(s, u);
        let cell = v.sets_cell->0;
        assert(0 <= unit_cell_row(u, k) < 9 && 0 <= unit_cell_col(u, k) < 9);
        assert(cell.row as int == unit_cell_row(u, k) && cell.col as int == unit_cell_col(u, k));
    }
}

/// Two cells of one box are peers, or the same cell.
proof fn lemma_same_box_of(r: int, c: int, r2: int, c2: int)
    requires
        in_grid(r, c),
        in_grid(r2, c2),
        box_of(r, c) == box_of(r2, c2),
    ensures
        same_box(r, c, r2, c2),
{
}

/// The box rule of a line takes away notes that no completion needs, when the notes taken
/// before were not needed either.
proof fn lemma_pointing_hits_safe(s: Puzzle, g: Set<Candidate>, u: Unit, h: int, num: int)
    requires
        well_noted(s),
        removes_safely(s, g),
        u != Unit::Box,
        0 <= h < 9,
        1 <= num <= 9,
        pointing_at(s, g, u, h, num),
    ensures
        removes_safely(s, pointing_hits(s, g, u, h, num)),
{
    let pr = |p: int| has(s, g, unit_cell_row(u, 9 * h + p), unit_cell_col(u, 9 * h + p), num);
    let ps = line_places(s, g, u, h, num);
    lemma_select(pr, 0, 9);
    let p0 = ps[0];
    assert(pr(p0));
    assert((9 * h + p0) / 9 == h && (9 * h + p0) % 9 == p0);
    let r0 = unit_cell_row(u, 9 * h + p0);
    let c0 = unit_cell_col(u, 9 * h + p0);
    assert(in_grid(r0, c0) && in_house(u, h, r0, c0));
    assert forall|full: Grid, x: Candidate|
        #[trigger] valid_completion(s.board, full) && #[trigger] pointing_hits(s, g, u, h, num).contains(x) && x.row < 9 && x.col < 9
            && s.board[x.row as int][x.col as int] == EMPTY implies full[x.row as int][x.col as int] != x.num by {
        let (r, c) = lemma_house_place(s, full, u, h, num, r0, c0);
        let y = Candidate { row: r as usize, col: c as usize, num: num as u8 };
        if g.contains(y) {
            assert(full[y.row as int][y.col as int] != y.num);
        }
        assert(cand_at(r, c, num) == y);
        lemma_house_index(u, h, r, c);
        let q = house_pos(u, r, c);
        assert(pr(q));
        lemma_select_complete(pr, 0, 9, q);
        assert(q == ps[0] || q == ps[1]);
        assert((9 * h + q) / 9 == h && (9 * h + q) % 9 == q);
        assert(box_of(r, c) == box_of(r0, c0));
        lemma_same_box_of(x.row as int, x.col as int, r, c);
        lemma_peer_taken(s, full, x, r, c);
    }
}

/// The notes that the pointing pairs of the first `t` looks take away are not needed by
/// any completion.
proof fn lemma_pointing_gone_safe(s: Puzzle, u: Unit, t: int)
    requires
        well_noted(s),
        u != Unit::Box,
        0 <= t <= 81,
    ensures
        removes_safely(s, pointing_gone(s, u, t)),
    decreases t,
{
    if t > 0 {
        lemma_pointing_gone_safe(s, u, t - 1);
        let g = pointing_gone(s, u, t - 1);
        let h = (t - 1) / 9;
        let num = (t - 1) % 9 + 1;
        if pointing_at(s, g, u, h, num) {
            lemma_pointing_hits_safe(s, g, u, h, num);
        }
    }
}

/// Each move of the first solver is safe on well-kept notes, when the strategies it
/// tries can look at the notes.
pub proof fn lemma_basic_step_safe(s: Puzzle)
    requires
        well_noted(s),
        step_ready(s),
    ensures
        move_safe(s, basic_step(s)),
{
    reveal(basic_step);
    lemma_last_digit_move_safe(s);
    if last_digit_move(s) is Stuck {
        lemma_obvious_single_move_safe(s);
    }
    lemma_hidden_single_in_move_safe(s, Unit::Row);
    lemma_hidden_single_in_move_safe(s, Unit::Column);
    lemma_hidden_single_in_move_safe(s, Unit::Box);
    lemma_pointing_gone_safe(s, Unit::Row, 81);
    lemma_pointing_gone_safe(s, Unit::Column, 81);
    lemma_obvious_pair_view_safe(s, Unit::Row);
    lemma_obvious_pair_view_safe(s, Unit::Column);
    lemma_obvious_pair_view_safe(s, Unit::Box);
    lemma_hidden_pair_view_safe(s, Unit::Box);
    lemma_hidden_pair_view_safe(s, Unit::Row);
    lemma_hidden_pair_view_safe(s, Unit::Column);
    lemma_xwing_view_safe(s, Unit::Row);
    lemma_xwing_view_safe(s, Unit::Column);
}

/// Along a run of the first solver from well-kept notes on a solvable board, every state
/// keeps its notes well and has the completions of the first.
pub proof fn lemma_basic_run_keeps(trace: Seq<Sudoku>)
    requires
        is_run(trace),
        well_noted(trace[0].grid),
    ensures
        forall|i: int| 0 <= i < trace.len() ==> #[trigger] keeps_solutions(trace[0].grid, trace[i].grid),
    decreases trace.len(),
{
    if trace.len() > 1 {
        let front = trace.drop_last();
        assert(is_run(front)) by {
            assert forall|i: int| 0 <= i < front.len() - 1 implies stepped(#[trigger] front[i], front[i + 1]) by {
                assert(front[i] == trace[i] && front[i + 1] == trace[i + 1]);
            }
        }
        lemma_basic_run_keeps(front);
        let j = trace.len() - 2;
        assert(front[j] == trace[j]);
        assert(keeps_solutions(front[0].grid, front[j].grid));
        assert(stepped(trace[j], trace[j + 1]));
        let a = trace[j].grid;
        let n = choose|n: int|
            #[trigger] moved(a, trace[j + 1].grid, basic_step(a), n) && crate::resolve::rated(
                trace[j].rating,
                trace[j + 1].rating,
                crate::resolve::move_strategy(basic_step(a)),
                n,
            );
        lemma_basic_step_safe(a);
        lemma_move_keeps(a, trace[j + 1].grid, basic_step(a), n);
        assert forall|i: int| 0 <= i < trace.len() implies #[trigger] keeps_solutions(trace[0].grid, trace[i].grid) by {
            if i < trace.len() - 1 {
                assert(front[i] == trace[i]);
                assert(keeps_solutions(front[0].grid, front[i].grid));
            }
        }
    } else {
        assert(keeps_solutions(trace[0].grid, trace[0].grid));
    }
}

/// The first solver finds the solution: when a run of it, from the notes computed for a
/// board that has a solution and no notes in its filled cells, fills the board, the
/// filled board is a solution of the board, and every solution of the board is that one.
pub proof fn lemma_first_solver_solution(s0: Puzzle, trace: Seq<Sudoku>)
    requires
        solvable(s0.board),
        bare(s0),
        noted(s0, trace[0].grid),
        is_run(trace),
        forall|r: int, c: int| in_grid(r, c) ==> trace.last().grid.board[r][c] != EMPTY,
    ensures
        valid_completion(s0.board, trace.last().grid.board),
        forall|full: Grid, r: int, c: int|
            valid_completion(s0.board, full) && in_grid(r, c) ==> full[r][c] == trace.last().grid.board[r][c],
{
    let t0 = trace[0].grid;
    let last = trace.last().grid;
    lemma_computed_candidates(s0, t0);
    assert forall|r: int, c: int, n: int| in_grid(r, c) && t0.board[r][c] != EMPTY implies !#[trigger] t0.cand(r, c, n) by {
        assert(!s0.cand(r, c, n));
    }
    lemma_basic_run_keeps(trace);
    assert(keeps_solutions(t0, trace[trace.len() - 1].grid));
    assert(forall|full: Grid| valid_completion(last.board, full) <==> valid_completion(s0.board, full));
    assert forall|full: Grid, r: int, c: int| valid_completion(s0.board, full) && in_grid(r, c) implies full[r][c] == last.board[r][c] by {
        assert(valid_completion(last.board, full));
        assert(completes_cell(last.board, full, r, c));
    }
    let full0 = choose|full: Grid| valid_completion(last.board, full);
    assert(valid_completion(last.board, full0));
    assert forall|r: int, c: int| in_grid(r, c) implies #[trigger] completes_cell(s0.board, last.board, r, c) by {
        assert(completes_cell(s0.board, full0, r, c));
        assert forall|r2: int, c2: int| in_grid(r2, c2) implies full0[r2][c2] == last.board[r2][c2] by {
            assert(completes_cell(last.board, full0, r2, c2));
        }
    }
}

} // verus!
