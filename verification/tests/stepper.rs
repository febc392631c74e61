use rate_my_sudoku::stepper::{Event, State, Status, SudokuApp};
use rate_my_sudoku::Strategy;

#[test]
fn stepper_walks_through_a_step() {
    let mut app = SudokuApp::new();
    assert_eq!(app.state, State::CalculateNotes);
    app.sudoku
        .set_board_string("123456780000000000000000000000000000000000000000000000000000000000000000000000000")
        .unwrap();
    app.proceed();
    assert_eq!(app.state, State::TryingStrategy);
    assert_eq!(app.sudoku.get_candidates(0, 8), vec![9u8]);
    app.proceed();
    assert_eq!(app.state, State::ApplyingStrategy);
    assert_eq!(app.strategy_result.strategy, Strategy::LastDigit);
    assert_eq!(app.sudoku.get_num(0, 8), 0);
    app.proceed();
    assert_eq!(app.state, State::TryingStrategy);
    assert_eq!(app.sudoku.get_num(0, 8), 9);
    assert_eq!(app.strategy_result.strategy, Strategy::NoStrategy);
    app.sudoku.undo();
    assert_eq!(app.sudoku.get_num(0, 8), 0);
}

#[test]
fn stepper_default_starts_by_computing_candidates() {
    let app = SudokuApp::default();
    assert_eq!(app.state, State::CalculateNotes);
    assert!(app.sudoku_string.is_empty());
}

const PUZZLE: &str = "003020600900305001001806400008102900700000008006708200002609500800203009005010300";

#[test]
fn stepper_paste_reads_81_digits_and_ignores_the_rest() {
    let mut app = SudokuApp::new();
    let spaced: String = PUZZLE.chars().flat_map(|c| [c, ' ']).collect();
    assert!(app.update(Event::Paste(format!("board: {}", spaced))));
    assert_eq!(app.sudoku_string, PUZZLE);
    assert_eq!(app.sudoku.get_num(0, 2), 3);
    assert_eq!(app.sudoku.original_board[0][4], 2);
    assert_eq!(app.state, State::CalculateNotes);
    assert!(!app.update(Event::Paste(PUZZLE[..80].to_string())));
    assert_eq!(app.sudoku_string, PUZZLE);
    assert!(!app.update(Event::Paste(format!("{}1", PUZZLE))));
    assert_eq!(app.sudoku.get_num(0, 2), 3);
}

#[test]
fn stepper_events_step_rewind_and_finish() {
    let mut app = SudokuApp::new();
    assert_eq!(app.status(), Status::Ready);
    assert!(app.update(Event::Paste(PUZZLE.to_string())));
    assert!(app.update(Event::Forward));
    assert_eq!(app.state, State::TryingStrategy);
    assert!(app.update(Event::Forward));
    assert_eq!(app.state, State::ApplyingStrategy);
    assert!(matches!(app.status(), Status::Found { .. }));
    assert!(app.update(Event::Forward));
    assert_eq!(app.status(), Status::Ready);
    let filled = (0..9).flat_map(|r| (0..9).map(move |c| (r, c))).filter(|&(r, c)| app.sudoku.get_num(r, c) != 0).count();
    assert_eq!(filled, 33);
    assert!(app.update(Event::Back));
    let filled = (0..9).flat_map(|r| (0..9).map(move |c| (r, c))).filter(|&(r, c)| app.sudoku.get_num(r, c) != 0).count();
    assert_eq!(filled, 32);
    assert!(app.update(Event::Copy));
    assert!(app.update(Event::Finish));
    assert_eq!(app.status(), Status::Solved);
    assert!(app.update(Event::Rewind));
    assert_eq!(app.state, State::CalculateNotes);
    assert_eq!(app.sudoku.get_num(0, 0), 0);
    assert_eq!(app.sudoku.get_num(0, 2), 3);
    assert_eq!(app.status(), Status::Ready);
}
