use rate_my_sudoku::{Candidate, Sudoku, Unit};

#[test]
fn test_pointing_pair_row1() {
    let mut sudoku: Sudoku = Sudoku::from_string(
        "984000000002500040001904002006097230003602000209035610195768423427351896638009751",
    )
    .expect("Failed to create Sudoku from string");
    sudoku.calc_candidates();
    let result = sudoku.find_pointing_pair_in_rows();
    println!("{:?}", result);
    assert_eq!(result.unit, Some(Unit::Row));
    assert_eq!(result.unit_index, Some(vec![2]));
    assert!(result.sets_cell.is_none());
    let candidates_affected = result.candidates_affected;
    assert_eq!(candidates_affected.len(), 2);
    assert!(candidates_affected.contains(&Candidate {
        row: 2,
        col: 0,
        num: 5
    }));
    assert!(candidates_affected.contains(&Candidate {
        row: 2,
        col: 1,
        num: 5
    }));
    let removals = result.candidates_about_to_be_removed;
    assert_eq!(removals.len(), 1);
    assert!(removals.contains(&Candidate {
        row: 2,
        col: 6,
        num: 5
    }));
}

#[test]
fn test_pointing_pair_row2() {
    let mut sudoku: Sudoku = Sudoku::from_string(
        "340006070080000930002030060000010000097364850000002000000000000000608090000923785",
    )
    .expect("Failed to create Sudoku from string");
    sudoku.calc_candidates();
    let result = sudoku.find_pointing_pair_in_rows();
    println!("{:?}", result);
    assert_eq!(result.unit_index, Some(vec![6]));
    assert_eq!(result.unit, Some(Unit::Row));
    assert!(result.sets_cell.is_none());
    let removals = result.candidates_about_to_be_removed;
    assert!(removals.contains(&Candidate {
        row: 6,
        col: 0,
        num: 1
    }));
    assert!(removals.contains(&Candidate {
        row: 6,
        col: 1,
        num: 1
    }));
    assert!(removals.contains(&Candidate {
        row: 6,
        col: 2,
        num: 1
    }));
    assert!(removals.contains(&Candidate {
        row: 6,
        col: 6,
        num: 1
    }));
    assert!(removals.contains(&Candidate {
        row: 6,
        col: 7,
        num: 1
    }));
    assert!(removals.contains(&Candidate {
        row: 6,
        col: 8,
        num: 1
    }));
    let candidates_affected = result.candidates_affected;
    assert_eq!(candidates_affected.len(), 2);
    assert!(candidates_affected.contains(&Candidate {
        row: 6,
        col: 3,
        num: 1
    }));
    assert!(candidates_affected.contains(&Candidate {
        row: 6,
        col: 5,
        num: 1
    }));
}

#[test]
fn test_pointing_pair_col() {
    let mut sudoku: Sudoku = Sudoku::from_string(
        "...2..67992..6.1..476891253..7..95.6.......12..51..9.77.261..9.3...82761....7..2.",
    )
    .expect("Failed to create Sudoku from string");
    sudoku.calc_candidates();
    let result = sudoku.find_pointing_pair_in_cols();
    println!("{:?}", result);
    assert_eq!(result.unit, Some(Unit::Column));
    assert_eq!(result.unit_index, Some(vec![6]));
    assert!(result.sets_cell.is_none());
    let candidates_affected = result.candidates_affected;
    assert_eq!(candidates_affected.len(), 2);
    assert!(candidates_affected.contains(&Candidate {
        row: 6,
        col: 6,
        num: 3
    }));
    assert!(candidates_affected.contains(&Candidate {
        row: 8,
        col: 6,
        num: 3
    }));
    let removals = result.candidates_about_to_be_removed;
    assert_eq!(removals.len(), 1);
    assert!(removals.contains(&Candidate {
        row: 4,
        col: 6,
        num: 3
    }));
}

fn box_with_five_only_at(cells: &[(usize, usize)]) -> Sudoku {
    let mut sudoku = Sudoku::new();
    sudoku.calc_candidates();
    for r in 0..3 {
        for c in 0..3 {
            if !cells.contains(&(r, c)) {
                sudoku.candidates[r][c] &= !(1u16 << 5);
            }
        }
    }
    sudoku
}

#[test]
fn pointing_pair_in_a_box_along_a_row() {
    let sudoku = box_with_five_only_at(&[(0, 0), (0, 2)]);
    let result = sudoku.find_pointing_pair_in_boxes();
    assert_eq!(result.unit, Some(Unit::Box));
    assert_eq!(result.unit_index, Some(vec![0]));
    assert_eq!(result.candidates_about_to_be_removed.len(), 6);
    assert!(result.candidates_about_to_be_removed.contains(&Candidate { row: 0, col: 3, num: 5 }));
}

#[test]
fn pointing_pair_in_a_box_is_not_looked_for_along_a_column() {
    let sudoku = box_with_five_only_at(&[(0, 0), (2, 0)]);
    let result = sudoku.find_pointing_pair_in_boxes();
    assert!(result.candidates_about_to_be_removed.is_empty());
    assert!(result.unit.is_none());
}

fn five_only_at_in_box(br: usize, bc: usize, cells: &[(usize, usize)]) -> Sudoku {
    let mut sudoku = Sudoku::new();
    sudoku.calc_candidates();
    for r in br..br + 3 {
        for c in bc..bc + 3 {
            if !cells.contains(&(r, c)) {
                sudoku.candidates[r][c] &= !(1u16 << 5);
            }
        }
    }
    sudoku
}

#[test]
fn pointing_pair_in_a_column_within_the_box_of_its_band() {
    let sudoku = five_only_at_in_box(0, 0, &[(0, 1), (2, 1)]);
    let result = sudoku.find_pointing_pair_in_cols();
    assert_eq!(result.unit, Some(Unit::Column));
    assert_eq!(result.unit_index, Some(vec![1]));
    assert_eq!(result.candidates_about_to_be_removed.len(), 6);
    assert!(result.candidates_about_to_be_removed.contains(&Candidate { row: 3, col: 1, num: 5 }));
    assert!(result.candidates_affected.contains(&Candidate { row: 0, col: 1, num: 5 }));
    assert!(result.candidates_affected.contains(&Candidate { row: 2, col: 1, num: 5 }));
}

#[test]
fn pointing_pair_in_a_column_outside_the_box_of_its_band_is_not_looked_for() {
    let sudoku = five_only_at_in_box(3, 0, &[(3, 1), (5, 1)]);
    let result = sudoku.find_pointing_pair_in_cols();
    assert!(result.candidates_about_to_be_removed.is_empty());
    assert!(result.unit.is_none());
}
