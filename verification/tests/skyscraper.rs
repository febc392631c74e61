use rate_my_sudoku::Sudoku;

#[test]
fn test_skyscraper_row() {
    let mut sudoku: Sudoku = Sudoku::from_string(
        "001028759087905132952173486020700340000500270714832695000090817078051963190087524",
    )
    .expect("Failed to create Sudoku from string");
    sudoku.calc_candidates();
    let result = sudoku.find_skyscraper_in_rows();
    println!("{:?}", result);
    assert!(result.sets_cell.is_none());
}

#[test]
fn test_skyscraper_col() {
    let mut sudoku: Sudoku = Sudoku::from_string(
        "697000002001972063003006790912000607374260950865709024148693275709024006006807009",
    )
    .expect("Failed to create Sudoku from string");
    sudoku.calc_candidates();
    let result = sudoku.find_skyscraper_in_cols();
    println!("{:?}", result);
    assert!(result.sets_cell.is_none());
}

fn transpose(s: &Sudoku) -> Sudoku {
    let mut t = Sudoku::new();
    for r in 0..9 {
        for c in 0..9 {
            t.board[r][c] = s.board[c][r];
            t.candidates[r][c] = s.candidates[c][r];
        }
    }
    t
}

#[test]
fn skyscraper_in_columns_of_the_transposed_grid() {
    for text in [
        "001028759087905132952173486020700340000500270714832695000090817078051963190087524",
        "697000002001972063003006790912000607374260950865709024148693275709024006006807009",
    ] {
        let mut s = Sudoku::from_string(text).unwrap();
        s.calc_candidates();
        let t = transpose(&s);
        let a = s.find_skyscraper_in_rows();
        let b = t.find_skyscraper_in_cols();
        assert_eq!(a.unit_index, b.unit_index);
        assert_eq!(a.candidates_about_to_be_removed.len(), b.candidates_about_to_be_removed.len());
        for x in &a.candidates_about_to_be_removed {
            assert!(b.candidates_about_to_be_removed.contains(&rate_my_sudoku::Candidate { row: x.col, col: x.row, num: x.num }));
        }
        assert!(b.sets_cell.is_none());
    }
}

#[test]
fn skyscraper_removes_no_digit_of_the_solution() {
    for text in [
        "001028759087905132952173486020700340000500270714832695000090817078051963190087524",
        "697000002001972063003006790912000607374260950865709024148693275709024006006807009",
    ] {
        let mut solved = Sudoku::from_string(text).unwrap();
        assert!(solved.solve_by_backtracking());
        let mut s = Sudoku::from_string(text).unwrap();
        s.calc_candidates();
        let mut removed = 0;
        for result in [s.find_skyscraper_in_rows(), s.find_skyscraper_in_cols()] {
            for x in result.candidates_about_to_be_removed.iter() {
                assert_eq!(s.board[x.row][x.col], 0);
                assert_ne!(solved.board[x.row][x.col], x.num);
                removed += 1;
            }
        }
        assert!(removed > 0);
    }
}
