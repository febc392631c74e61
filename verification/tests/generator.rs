use rate_my_sudoku::generator::{fill_incrementally, generate_incrementally, thin_out, FillAlgorithm, SudokuGenerator, ThinningAlgorithm};
use rate_my_sudoku::Sudoku;

const PUZZLE: &str = "860001000009250006000000008010020760040000000608000053080075024050002000300000000";
const SOLUTION: &str = "865431297479258316231697548513824769947563182628719453186375924754982631392146875";

fn board_of(text: &str) -> [[u8; 9]; 9] {
    let s = Sudoku::from_string(text).expect("Failed to create Sudoku from string");
    s.board
}

fn filled(board: &[[u8; 9]; 9]) -> usize {
    board.iter().flatten().filter(|&&v| v != 0).count()
}

#[test]
fn generator_names() {
    assert_eq!(FillAlgorithm::DiagonalThinOut.name(), "diagonal-thin-out");
    assert_eq!(FillAlgorithm::Incremental.name(), "incremental");
    assert_eq!(FillAlgorithm::Mask.name(), "mask");
    assert_eq!(ThinningAlgorithm::Single.name(), "single");
    assert_eq!(ThinningAlgorithm::Mirrored.name(), "mirrored");
}

#[test]
fn a_full_board_is_its_only_solution() {
    let s = Sudoku::from_board(board_of(SOLUTION));
    let all = s.all_solutions();
    assert_eq!(all, vec![board_of(SOLUTION)]);
    assert!(s.has_unique_solution());
}

#[test]
fn the_puzzle_has_one_solution() {
    let s = Sudoku::from_board(board_of(PUZZLE));
    assert!(s.has_unique_solution());
    let all = s.all_solutions();
    assert_eq!(all, vec![board_of(SOLUTION)]);
}

#[test]
fn an_empty_board_has_many_solutions() {
    let s = Sudoku::from_board([[0u8; 9]; 9]);
    assert!(!s.has_unique_solution());
}

#[test]
fn a_broken_board_has_no_solution() {
    let mut board = [[0u8; 9]; 9];
    for c in 0..8 {
        board[0][c] = c as u8 + 1;
    }
    board[1][8] = 9;
    let s = Sudoku::from_board(board);
    assert!(s.all_solutions().is_empty());
    assert!(!s.has_unique_solution());
}

#[test]
fn from_board_keeps_the_board() {
    let s = Sudoku::from_board(board_of(PUZZLE));
    assert_eq!(s.board, board_of(PUZZLE));
    assert_eq!(s.original_board, board_of(PUZZLE));
    assert!(!s.has_candidates());
}

#[test]
fn thinning_empties_the_last_cells_first() {
    let cells: Vec<(usize, usize)> = (0..81).map(|k| (k / 9, k % 9)).collect();
    let s = Sudoku::from_board(board_of(SOLUTION));
    let thinned = thin_out(s, cells, Some(ThinningAlgorithm::Single), 79).unwrap();
    let mut expected = board_of(SOLUTION);
    expected[8][8] = 0;
    expected[8][7] = 0;
    assert_eq!(thinned.board, expected);
    assert_eq!(thinned.original_board, expected);
}

#[test]
fn mirrored_thinning_empties_a_cell_and_its_mirror() {
    let cells: Vec<(usize, usize)> = (0..81).map(|k| (k / 9, k % 9)).collect();
    let s = Sudoku::from_board(board_of(SOLUTION));
    let thinned = thin_out(s, cells, Some(ThinningAlgorithm::Mirrored), 79).unwrap();
    let mut expected = board_of(SOLUTION);
    expected[8][8] = 0;
    expected[0][0] = 0;
    assert_eq!(thinned.board, expected);
}

#[test]
fn thinning_without_cells_gives_nothing() {
    let s = Sudoku::from_board(board_of(SOLUTION));
    assert!(thin_out(s, Vec::new(), None, 30).is_none());
}

#[test]
fn incremental_puzzles_have_one_solution() {
    for _ in 0..3 {
        if let Some(s) = generate_incrementally(30) {
            assert_eq!(filled(&s.board), 30);
            assert_eq!(s.original_board, s.board);
            assert!(s.has_unique_solution());
        }
    }
}

#[test]
fn incremental_generator_gives_puzzles_with_one_solution() {
    let mut g = SudokuGenerator::new(FillAlgorithm::Incremental, None, 35, None);
    assert!(g.solutions.len() <= 1);
    if let Some(s) = g.next() {
        assert_eq!(filled(&s.board), 35);
        assert!(s.has_unique_solution());
    }
}

fn row_major_cells() -> Vec<(usize, usize)> {
    (0..9).flat_map(|r| (0..9).map(move |c| (r, c))).collect()
}

/// The digits of `board` for the cells as they are taken, from the end of `cells`.
fn digits_for(board: &[[u8; 9]; 9], cells: &[(usize, usize)]) -> Vec<u8> {
    cells.iter().rev().map(|&(r, c)| board[r][c]).collect()
}

#[test]
fn filling_every_cell_with_a_solution_gives_that_solution() {
    let solution = board_of(SOLUTION);
    let cells = row_major_cells();
    let digits = digits_for(&solution, &cells);
    let s = fill_incrementally(cells, digits, 81).expect("a full board has one solution");
    assert_eq!(s.board, solution);
    assert_eq!(s.original_board, solution);
}

#[test]
fn filling_stops_at_the_count_and_refuses_many_solutions() {
    let solution = board_of(SOLUTION);
    let cells = row_major_cells();
    let digits = digits_for(&solution, &cells);
    assert!(fill_incrementally(cells.clone(), digits.clone(), 17).is_none());
    let s = fill_incrementally(cells, digits, 80).expect("one cell left has one solution");
    assert_eq!(filled(&s.board), 80);
    assert_eq!(s.board[0][0], 0);
    assert_eq!(s.board[0][1], solution[0][1]);
}

#[test]
fn filling_skips_digits_that_cannot_go_and_fails_when_cells_run_out() {
    let cells = vec![(0, 1), (0, 0)];
    let digits = vec![5, 5];
    assert!(fill_incrementally(cells, digits, 17).is_none());
    let solution = board_of(SOLUTION);
    let mut cells = row_major_cells();
    cells.push((0, 1));
    cells.push((0, 0));
    let mut digits = vec![solution[0][0], solution[0][0]];
    digits.extend(digits_for(&solution, &row_major_cells()));
    let s = fill_incrementally(cells, digits, 81).expect("the clash is skipped");
    assert_eq!(s.board, solution);
}
