use rate_my_sudoku::sudoku::{Strategy, Sudoku};

fn remove_note(sudoku: &mut Sudoku, row: usize, col: usize, num: u8) {
    sudoku.grid.candidates[row][col] &= !(1u16 << num);
}

fn has_note(sudoku: &Sudoku, row: usize, col: usize, num: u8) -> bool {
    sudoku.get_notes(row, col).contains(&num)
}

#[test]
fn test_sudoku_solver() {
    let board_string =
        "860001000009250006000000008010020760040000000608000053080075024050002000300000000".to_string();
    let mut sudoku = Sudoku::new();
    sudoku.from_string(&board_string);
    sudoku.solve_by_backtracking();

    assert_eq!(
        sudoku.serialized(),
        "865431297479258316231697548513824769947563182628719453186375924754982631392146875"
    );
}

#[test]
fn test_from_string() {
    let board_string =
        "123456789000000000000000000000000000000000000000000000000000000000000000000000000".to_string();
    let mut sudoku = Sudoku::new();
    sudoku.from_string(&board_string);
    for i in 0..9 {
        assert_eq!(sudoku.grid.board[0][i], (i + 1) as u8);
    }
}

#[test]
fn test_serialized() {
    let board_string =
        "123456789000000000000000000000000000000000000000000000000000000000000000000000000".to_string();
    let mut sudoku = Sudoku::new();
    sudoku.from_string(&board_string);
    assert_eq!(sudoku.serialized(), board_string);
}

#[test]
fn test_unsolved() {
    let board_string =
        "000000000000000000000000000000000000000000000000000000000000000000000000000000000".to_string();
    let mut sudoku = Sudoku::new();
    sudoku.from_string(&board_string);

    assert!(sudoku.unsolved());

    let board_string =
        "123456789123456789123456789123456789123456789123456789123456789123456789123456789".to_string();
    let mut sudoku = Sudoku::new();
    sudoku.from_string(&board_string);
    assert!(!sudoku.unsolved());
}

#[test]
fn test_can_place() {
    let board_string =
        "123456789000000000000000000000000000000000000000000000000000000000000000000000000".to_string();
    let mut sudoku = Sudoku::new();
    sudoku.from_string(&board_string);

    for j in 0..9 {
        for i in 0..9 {
            assert!(!sudoku.can_place(j, i, i as u8 + 1));
        }
    }
}

#[test]
fn test_calc_all_notes() {
    let board_string =
        "120000000000000000000000000000000000000000000000000000000000000000000000000000000".to_string();
    let mut sudoku = Sudoku::new();
    sudoku.from_string(&board_string);
    sudoku.calc_all_notes();

    // Cell (0,0) has value 1, so notes should be empty
    assert_eq!(sudoku.get_notes(0, 0).len(), 0);

    // Cell (0,1) has value 2, so notes should be empty
    assert_eq!(sudoku.get_notes(0, 1).len(), 0);

    // Cell (0,2) should not have 1 or 2 in notes (same row)
    assert!(!has_note(&sudoku, 0, 2, 1));
    assert!(!has_note(&sudoku, 0, 2, 2));

    // Cell (1,0) should not have 1 in notes (same column)
    assert!(!has_note(&sudoku, 1, 0, 1));

    // Cell (1,1) should not have 2 in notes (same column)
    assert!(!has_note(&sudoku, 1, 1, 2));

    // Cell (1,1) should not have 1 in notes (same box)
    assert!(!has_note(&sudoku, 1, 1, 1));
}

#[test]
fn test_set_num() {
    let board_string =
        "000000000000000000000000000000000000000000000000000000000000000000000000000000000".to_string();
    let mut sudoku = Sudoku::new();
    sudoku.from_string(&board_string);
    sudoku.calc_all_notes();

    let notes_removed = sudoku.set_num(1, 0, 0);
    assert_eq!(sudoku.grid.board[0][0], 1);
    assert!(notes_removed > 0);
    assert!(!has_note(&sudoku, 0, 1, 1)); // removed from row
    assert!(!has_note(&sudoku, 1, 0, 1)); // removed from column
    assert!(!has_note(&sudoku, 1, 1, 1)); // removed from box
}

#[test]
fn test_resolve_obvious_single() {
    let board_string =
        "120000000000000000000000000000000000000000000000000000000000000000000000000000000".to_string();
    let mut sudoku = Sudoku::new();
    sudoku.from_string(&board_string);
    sudoku.calc_all_notes();

    // Manually set up a situation where there's an obvious single
    for num in 1..=9 {
        if num != 3 {
            remove_note(&mut sudoku, 0, 2, num);
        }
    }

    let notes_removed = sudoku.resolve_obvious_single();
    assert_eq!(notes_removed, 19);
    assert_eq!(sudoku.grid.board[0][2], 3);
}

#[test]
fn test_resolve_last_digit() {
    let board_string =
        "123456780000000000000000000000000000000000000000000000000000000000000000000000000".to_string();
    let mut sudoku = Sudoku::new();
    sudoku.from_string(&board_string);
    sudoku.calc_all_notes();

    let notes_removed = sudoku.resolve_last_digit();
    assert_eq!(notes_removed, 13);
    assert_eq!(sudoku.grid.board[0][8], 9);
}

#[test]
fn test_strategy_enum() {
    assert_eq!(Strategy::LastDigit.to_string(), "last digit");
    assert_eq!(Strategy::ObviousSingle.to_string(), "obvious single");
    assert_eq!(Strategy::HiddenSingle.to_string(), "hidden single");

    assert_eq!(Strategy::LastDigit.difficulty(), 4);
    assert_eq!(Strategy::ObviousSingle.difficulty(), 5);
    assert_eq!(Strategy::XWing.difficulty(), 140);
}

#[test]
fn test_simple_sudoku_solution() {
    // This is a very simple Sudoku that can be solved with just obvious singles
    let board_string =
        "123456789456789123789123456234567891567891234891234567345678912678912345912345678".to_string();
    // Change one cell to empty
    let mut chars: Vec<char> = board_string.chars().collect();
    chars[0] = '0';
    let board_string: String = chars.into_iter().collect();

    let mut sudoku = Sudoku::new();
    sudoku.from_string(&board_string);
    sudoku.solve_like_a_human();
    assert_eq!(sudoku.grid.board[0][0], 1);
    assert!(!sudoku.unsolved());
}

#[test]
fn test_resolve_hidden_single() {
    let mut sudoku = Sudoku::new();
    sudoku.from_string("000000000000000000000000000000000000000000000000000000000000000000000000000000000");
    sudoku.calc_all_notes();

    // Set up a hidden single in row 0
    for i in 1..9 {
        remove_note(&mut sudoku, 0, i, 1);
    }

    let notes_removed = sudoku.resolve_hidden_single();
    assert!(notes_removed > 0);
    assert_eq!(sudoku.grid.board[0][0], 1);
}

const EMPTY_BOARD: &str =
    "000000000000000000000000000000000000000000000000000000000000000000000000000000000";

fn noted(board: &str) -> Sudoku {
    let mut sudoku = Sudoku::new();
    assert!(sudoku.from_string(board));
    sudoku.calc_all_notes();
    sudoku
}

#[test]
fn first_solver_finds_nothing_on_an_empty_board() {
    let mut sudoku = noted(EMPTY_BOARD);
    let before = sudoku.grid.candidates;
    let res = sudoku.next_step();
    assert_eq!(res.nums_removed, 0);
    assert_eq!(res.strategy, Strategy::LastDigit);
    assert_eq!(sudoku.grid.candidates, before);
    assert_eq!(sudoku.rating(), [0usize; 8]);
}

#[test]
fn first_solver_counts_the_last_digit_in_the_rating() {
    let mut sudoku = noted("123456780000000000000000000000000000000000000000000000000000000000000000000000000");
    let res = sudoku.next_step();
    assert_eq!(res.nums_removed, 13);
    assert_eq!(res.strategy, Strategy::LastDigit);
    assert_eq!(sudoku.rating()[Strategy::LastDigit.index()], 13);
    assert_eq!(sudoku.get_num(0, 8), 9);
}

#[test]
fn first_solver_last_digit_in_a_box() {
    let mut sudoku = noted("123000000456000000780000000000000000000000000000000000000000000000000000000000000");
    assert_eq!(sudoku.resolve_last_digit_in_rows(), 0);
    assert_eq!(sudoku.resolve_last_digit_in_cols(), 0);
    assert_eq!(sudoku.resolve_last_digit_in_boxes(), 13);
    assert_eq!(sudoku.get_num(2, 2), 9);
}

#[test]
fn first_solver_prev_step_does_nothing() {
    let mut sudoku = noted(EMPTY_BOARD);
    let res = sudoku.prev_step();
    assert_eq!(res.nums_removed, 0);
    assert_eq!(res.strategy, Strategy::NoStrategy);
}

#[test]
fn first_solver_pointing_pair_in_a_row() {
    let mut sudoku = noted(EMPTY_BOARD);
    for col in 2..9 {
        remove_note(&mut sudoku, 0, col, 5);
    }
    assert_eq!(sudoku.resolve_pointing_pair(), 6);
    for row in 1..3 {
        for col in 0..3 {
            assert!(!has_note(&sudoku, row, col, 5));
        }
    }
    assert!(has_note(&sudoku, 1, 3, 5));
}

#[test]
fn first_solver_obvious_pair_in_a_row() {
    let mut sudoku = noted(EMPTY_BOARD);
    for col in 0..2 {
        for num in 3..=9 {
            remove_note(&mut sudoku, 0, col, num);
        }
    }
    assert_eq!(sudoku.resolve_obvious_pair_in_rows(), 14);
    for col in 2..9 {
        assert!(!has_note(&sudoku, 0, col, 1));
        assert!(!has_note(&sudoku, 0, col, 2));
        assert!(has_note(&sudoku, 0, col, 3));
    }
}

#[test]
fn first_solver_hidden_pair_in_a_box() {
    let mut sudoku = noted(EMPTY_BOARD);
    for row in 0..3 {
        for col in 0..3 {
            if row > 0 || col > 1 {
                remove_note(&mut sudoku, row, col, 1);
                remove_note(&mut sudoku, row, col, 2);
            }
        }
    }
    assert_eq!(sudoku.resolve_hidden_pair_in_rows(), 14);
    assert_eq!(sudoku.get_notes(0, 0), vec![1u8, 2]);
    assert_eq!(sudoku.get_notes(0, 1), vec![1u8, 2]);
}

#[test]
fn first_solver_xwing_in_rows() {
    let mut sudoku = noted(EMPTY_BOARD);
    for row in [0usize, 4] {
        for col in 0..9 {
            if col != 0 && col != 4 {
                remove_note(&mut sudoku, row, col, 1);
            }
        }
    }
    assert_eq!(sudoku.resolve_xwing_in_rows(), 14);
    for row in 0..9 {
        if row != 0 && row != 4 {
            assert!(!has_note(&sudoku, row, 0, 1));
            assert!(!has_note(&sudoku, row, 4, 1));
        }
    }
    assert!(has_note(&sudoku, 0, 0, 1));
}

#[test]
fn first_solver_from_string_with_few_digits() {
    let mut sudoku = Sudoku::new();
    assert!(sudoku.from_string(
        "111111111111111111111111111111111111111111111111111111111111111111111111111111111"
    ));
    assert!(!sudoku.from_string("2a3"));
    assert_eq!(sudoku.get_num(0, 0), 2);
    assert_eq!(sudoku.get_num(0, 1), 3);
    assert_eq!(sudoku.get_num(0, 2), 1);
    assert_eq!(sudoku.grid.original_board[0][2], 0);
}

#[test]
fn first_solver_agrees_with_backtracking() {
    let board = "860001000009250006000000008010020760040000000608000053080075024050002000300000000";
    let mut human = Sudoku::new();
    human.from_string(board);
    let solved = human.solve_like_a_human();
    let mut machine = Sudoku::new();
    machine.from_string(board);
    assert!(machine.solve_by_backtracking());
    assert_eq!(solved, !human.unsolved());
    if solved {
        assert_eq!(human.serialized(), machine.serialized());
    }
    assert!(human.rating().iter().sum::<usize>() > 0);
    assert_eq!(human.original_empty_cells(), 56);
}

#[test]
fn first_solver_restore_and_clear() {
    let mut sudoku = noted("123456780000000000000000000000000000000000000000000000000000000000000000000000000");
    sudoku.resolve_last_digit();
    assert_eq!(sudoku.get_num(0, 8), 9);
    sudoku.restore();
    assert_eq!(sudoku.get_num(0, 8), 0);
    assert_eq!(sudoku.get_notes(0, 8), vec![9u8]);
    sudoku.clear();
    assert_eq!(sudoku.get_num(0, 0), 0);
    assert_eq!(sudoku.grid.original_board[0][0], 1);
    assert!(sudoku.get_notes(0, 8).is_empty());
}

#[test]
fn first_solver_removes_notes_by_house() {
    let mut sudoku = noted(EMPTY_BOARD);
    assert_eq!(sudoku.remove_notes_in_row(&[1, 2], 0), 18);
    assert!(!has_note(&sudoku, 0, 5, 1));
    assert_eq!(sudoku.remove_notes_in_col(&[1], 0), 8);
    assert_eq!(sudoku.remove_notes_in_box(&[3], 4, 4), 9);
    assert!(!has_note(&sudoku, 3, 3, 3));
    assert_eq!(sudoku.remove_notes(&[9], 8, 8), 21);
    assert_eq!(sudoku.remove_notes_in_row(&[1, 2], 0), 0);
}

#[test]
fn first_solver_effort_terms_weigh_each_strategy() {
    let mut sudoku = Sudoku::new();
    sudoku.rating[Strategy::HiddenSingle.index()] = 2;
    sudoku.rating[Strategy::PointingPair.index()] = 1;
    assert_eq!(sudoku.effort_terms(), (3, 2 * 14 + 50));
}

#[test]
fn first_solver_solution_matches_backtracking() {
    let board = "003020600900305001001806400008102900700000008006708200002609500800203009005010300";
    let mut human = Sudoku::new();
    assert!(human.from_string(board));
    assert!(human.solve_like_a_human());
    let mut machine = Sudoku::new();
    assert!(machine.from_string(board));
    assert!(machine.solve_by_backtracking());
    assert_eq!(human.grid.board, machine.grid.board);
}

#[test]
fn first_solver_rating_by_difficulty() {
    let mut sudoku = Sudoku::new();
    sudoku.rating[Strategy::XWing.index()] = 1;
    sudoku.rating[Strategy::PointingPair.index()] = 2;
    sudoku.rating[Strategy::ObviousPair.index()] = 5;
    let listed: Vec<(Strategy, usize)> = sudoku.rating_by_difficulty();
    assert_eq!(listed.len(), 3);
    assert!(matches!(listed[0], (Strategy::PointingPair, 2)));
    assert!(matches!(listed[1], (Strategy::ObviousPair, 5)));
    assert!(matches!(listed[2], (Strategy::XWing, 1)));
}
