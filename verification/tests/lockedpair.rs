use rate_my_sudoku::Sudoku;

#[test]
fn test_locked_pair_col() {
    let mut sudoku: Sudoku = Sudoku::from_string(
        "...3......7..8.5.1..9...83.3..7.4...7.......4...1.5..8.61...9..9.7.4..6......2...",
    )
    .expect("Failed to create Sudoku from string");
    sudoku.calc_candidates();
    let result = sudoku.find_locked_pair_in_cols();
    println!("{:?}", result);
}

#[test]
fn test_locked_pair_row() {
    let mut sudoku: Sudoku = Sudoku::from_string(
        "...3......7..8.5.1..9...83.3..7.4...7.......4...1.5..8.61...9..9.7.4..6......2...",
    )
    .expect("Failed to create Sudoku from string");
    sudoku.calc_candidates();
    let result = sudoku.find_locked_pair_in_cols();
    println!("{:?}", result);
}

#[test]
fn test_locked_pair_box() {
    let mut sudoku: Sudoku = Sudoku::from_string(
        "...3......7..8.5.1..9...83.3..7.4...7.......4...1.5..8.61...9..9.7.4..6......2...",
    )
    .expect("Failed to create Sudoku from string");
    sudoku.calc_candidates();
    let result = sudoku.find_locked_pair_in_cols();
    println!("{:?}", result);
}

#[test]
fn locked_pair_also_takes_the_pair_cells() {
    let mut sudoku = Sudoku::new();
    sudoku.calc_candidates();
    sudoku.candidates[0][0] = (1 << 1) | (1 << 2);
    sudoku.candidates[0][1] = (1 << 1) | (1 << 2);
    let result = sudoku.find_locked_pair_in_rows();
    let removed = &result.candidates_about_to_be_removed;
    for col in 0..2 {
        for num in 1..3u8 {
            assert!(removed.contains(&rate_my_sudoku::Candidate { row: 0, col, num }));
        }
    }
    assert!(removed.contains(&rate_my_sudoku::Candidate { row: 2, col: 2, num: 1 }));
    assert!(removed.contains(&rate_my_sudoku::Candidate { row: 0, col: 3, num: 1 }));
    assert!(!removed.contains(&rate_my_sudoku::Candidate { row: 3, col: 0, num: 1 }));
    assert!(!removed.contains(&rate_my_sudoku::Candidate { row: 2, col: 2, num: 3 }));
}
