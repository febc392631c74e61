use rate_my_sudoku::{Candidate, Cell, RemovalResult, Strategy, StrategyResult, Sudoku, Unit};

const EASY: &str = "003020600900305001001806400008102900700000008006708200002609500800203009005010300";
const MEDIUM: &str = "318005406000603810006080503864952137123476958795318264030500780000007305000039641";

fn all_candidates(s: &Sudoku) -> Vec<Vec<Vec<u8>>> {
    (0..9).map(|r| (0..9).map(|c| s.get_candidates(r, c)).collect()).collect()
}

fn valid_solution(board: &[[u8; 9]; 9], start: &[[u8; 9]; 9]) -> bool {
    for r in 0..9 {
        for c in 0..9 {
            let v = board[r][c];
            if !(1..=9).contains(&v) {
                return false;
            }
            if start[r][c] != 0 && start[r][c] != v {
                return false;
            }
            for i in 0..9 {
                if i != c && board[r][i] == v {
                    return false;
                }
                if i != r && board[i][c] == v {
                    return false;
                }
                let br = 3 * (r / 3) + i / 3;
                let bc = 3 * (c / 3) + i % 3;
                if (br != r || bc != c) && board[br][bc] == v {
                    return false;
                }
            }
        }
    }
    true
}

#[test]
fn test_strategy_names_and_difficulty() {
    assert_eq!(Strategy::NoStrategy.to_string(), "None");
    assert_eq!(Strategy::LastDigit.to_string(), "Last Digit");
    assert_eq!(Strategy::XWing.to_string(), "X-Wing");
    assert_eq!(Strategy::LastDigit.difficulty(), 4);
    assert_eq!(Strategy::HiddenSingle.difficulty(), 14);
    assert_eq!(Strategy::Skyscraper.difficulty(), 130);
    assert_eq!(Strategy::XWing.difficulty(), 140);
    assert_eq!(Strategy::XWing.index(), 11);
    assert_eq!(Unit::Column.name(), "Column");
}

#[test]
fn test_from_string_errors_and_layout() {
    assert!(Sudoku::from_string("123").is_err());
    let spaced = "4 . 5 . 3 . 8 . 9\n. . . . . . . . 7\n2 . . . . 4 . 3 .\n1 . . . . . . . 6\n. . . . 5 . 4 . .\n. . . . . 1 . . 3\n. . . 6 . . . 2 4\n. 7 . 9 . . . . .\n8 9 . . . . . . .";
    let s = Sudoku::from_string(spaced).expect("spaced board");
    assert_eq!(
        s.to_board_string(),
        "405030809000000007200004030100000006000050400000001003000600024070900000890000000"
    );
    let compact = Sudoku::from_string(
        "4_5.3.8.9........7200004030100000006000050400000001003000600024070900000890000000",
    )
    .expect("compact board");
    assert_eq!(compact.get_num(0, 1), 0);
    assert_eq!(compact.get_num(0, 0), 4);
}

#[test]
fn test_set_board_string_returns_text() {
    let mut s = Sudoku::new();
    let text = s.set_board_string(&EASY.replace('0', ".")).expect("board");
    assert_eq!(text, EASY);
    assert_eq!(s.original_board(), EASY);
    assert!(s.set_board_string("12345").is_err());
    assert_eq!(s.to_board_string(), EASY);
}

#[test]
fn test_calc_candidates_exact() {
    let mut s = Sudoku::from_string(MEDIUM).expect("board");
    assert!(!s.has_candidates());
    s.calc_candidates();
    assert!(s.has_candidates());
    assert_eq!(s.get_candidates(0, 3), vec![2, 7]);
    assert_eq!(s.get_candidates(1, 0), vec![2, 4, 5, 9]);
    assert_eq!(s.get_candidates(0, 0), Vec::<u8>::new());
}

#[test]
fn test_can_place_values() {
    let s = Sudoku::from_string(EASY).expect("board");
    assert!(!s.can_place(0, 2, 1));
    assert!(s.can_place(0, 0, 4));
    assert!(!s.can_place(0, 0, 3));
    assert!(!s.can_place(0, 0, 9));
    assert!(!s.can_place(0, 0, 1));
}

#[test]
fn test_backtracking_solves_and_refuses() {
    let mut s = Sudoku::from_string(EASY).expect("board");
    let start = s.board;
    assert!(s.solve_by_backtracking());
    assert!(valid_solution(&s.board, &start));
    assert!(s.is_solved());
    let mut bad = Sudoku::from_string(
        "012345678900000000000000000000000000000000000000000000000000000000000000000000000",
    )
    .expect("board");
    let before = bad.board;
    assert!(!bad.solve_by_backtracking());
    assert_eq!(bad.board, before);
}

#[test]
fn test_solve_human_like_matches_backtracking() {
    let mut human = Sudoku::from_string(EASY).expect("board");
    let mut machine = Sudoku::from_string(EASY).expect("board");
    assert!(human.solve_human_like());
    assert!(machine.solve_by_backtracking());
    assert_eq!(human.board, machine.board);
    let rating = human.rating();
    assert!(rating.iter().sum::<usize>() > 0);
    assert_eq!(rating[Strategy::NoStrategy.index()], 0);
}

#[test]
fn test_undo_after_apply_restores() {
    let mut s = Sudoku::from_string(EASY).expect("board");
    s.calc_candidates();
    let step = s.next_step();
    assert!(step.removals.will_remove_candidates());
    let board = s.board;
    let candidates = all_candidates(&s);
    let rating = s.rating();
    let res = s.apply(&step);
    assert_eq!(res.nums_removed(), step.removals.candidates_about_to_be_removed.len());
    assert_eq!(res.strategy(), step.strategy);
    assert_ne!(all_candidates(&s), candidates);
    s.undo();
    assert_eq!(s.board, board);
    assert_eq!(all_candidates(&s), candidates);
    assert_eq!(s.rating(), rating);
    assert!(s.undo_stack.is_empty());
}

#[test]
fn test_prev_step_undoes() {
    let mut s = Sudoku::from_string(EASY).expect("board");
    s.calc_candidates();
    let board = s.board;
    let step = s.next_step();
    s.apply(&step);
    assert_ne!(s.board, board);
    let res = s.prev_step();
    assert_eq!(res.nums_removed(), 0);
    assert_eq!(res.strategy(), Strategy::NoStrategy);
    assert_eq!(s.board, board);
}

#[test]
fn test_apply_removes_listed_candidates() {
    let mut s = Sudoku::from_string(EASY).expect("board");
    s.calc_candidates();
    let step = s.next_step();
    let removed: Vec<Candidate> = step.removals.candidates_about_to_be_removed.clone();
    s.apply(&step);
    for c in &removed {
        assert!(!s.get_candidates(c.row, c.col).contains(&c.num));
    }
    if let Some(cell) = &step.removals.sets_cell {
        assert_eq!(s.get_num(cell.row, cell.col), cell.num);
    }
}

#[test]
fn test_next_step_counts_rating() {
    let mut s = Sudoku::from_string(
        "006004700090000154408000000100090000070006001000040000000072635350461879007830412",
    )
    .expect("board");
    s.calc_candidates();
    let step = s.next_step();
    assert_eq!(step.strategy, Strategy::LastDigit);
    assert_eq!(step.removals.sets_cell, Some(Cell { row: 7, col: 2, num: 2 }));
    assert_eq!(s.rating()[Strategy::LastDigit.index()], 5);
}

#[test]
fn test_no_step_without_obvious_pair() {
    let mut s = Sudoku::from_string(EASY).expect("board");
    assert!(s.solve_by_backtracking());
    s.calc_candidates();
    assert!(s.last_digit_ok());
    assert!(s.obvious_single_ok());
    assert!(!s.locked_pair_ok());
    assert!(s.find_step_checked().is_none());
}

#[test]
fn test_all_possible_strategies_in_order() {
    let mut s = Sudoku::from_string(
        "690180300003006410100000600069018500318000264705060891000691700071800906906742180",
    )
    .expect("board");
    s.calc_candidates();
    let all = s.all_possible_strategies();
    assert!(!all.is_empty());
    for pair in all.windows(2) {
        assert!(pair[0].strategy.difficulty() <= pair[1].strategy.difficulty());
    }
    for r in &all {
        assert!(r.removals.will_remove_candidates());
    }
}

#[test]
fn test_binary_roundtrip() {
    let mut s = Sudoku::from_string(MEDIUM).expect("board");
    s.calc_candidates();
    let bytes = s.to_binary();
    assert_eq!(bytes.len(), 450);
    assert_eq!(bytes[0], 0x31);
    assert_eq!(bytes[4], 0x60);
    let t = Sudoku::from_binary(&bytes).expect("binary");
    assert_eq!(t.board, s.board);
    assert_eq!(all_candidates(&t), all_candidates(&s));
    assert!(Sudoku::from_binary(&bytes[..449]).is_err());
}

#[test]
fn test_zstd_roundtrip() {
    let mut s = Sudoku::from_string(MEDIUM).expect("board");
    s.calc_candidates();
    let packed = s.to_zstd();
    assert_ne!(packed, s.to_binary());
    let t = Sudoku::from_zstd(&packed).expect("zstd");
    assert_eq!(t.board, s.board);
    assert_eq!(all_candidates(&t), all_candidates(&s));
    assert!(Sudoku::try_from_zstd(&[1, 2, 3]).is_none());
    assert!(Sudoku::try_from_zstd(&packed).is_some());
}

#[test]
fn test_restore_gives_original_board() {
    let mut s = Sudoku::from_string(EASY).expect("board");
    s.calc_candidates();
    let step = s.next_step();
    s.apply(&step);
    s.restore();
    assert_eq!(s.to_board_string(), EASY);
    assert!(!s.has_candidates());
    assert_eq!(s.rating().iter().sum::<usize>(), 0);
}

#[test]
fn test_to_json_exact() {
    let s = Sudoku::new();
    let row = format!("[{}]", vec!["0"; 9].join(","));
    let board = format!("[{}]", vec![row.as_str(); 9].join(","));
    let cells = format!("[{}]", vec!["[]"; 9].join(","));
    let candidates = format!("[{}]", vec![cells.as_str(); 9].join(","));
    assert_eq!(s.to_json(), format!("{{\"board\":{},\"candidates\":{}}}", board, candidates));
    let mut t = Sudoku::from_string(MEDIUM).expect("board");
    t.calc_candidates();
    assert!(t.to_json().starts_with("{\"board\":[[3,1,8,0,0,5,4,0,6],"));
    assert!(t.to_json().contains("\"candidates\":[[[],[],[],[2,7],[2,9],[],[],[2,7,9],[]],"));
}

#[test]
fn test_removal_result_basics() {
    let mut r = RemovalResult::empty();
    assert!(!r.will_remove_candidates());
    r.candidates_about_to_be_removed.push(Candidate { row: 0, col: 0, num: 1 });
    assert!(r.will_remove_candidates());
    r.clear();
    assert!(!r.will_remove_candidates());
    let mut sr = StrategyResult::empty();
    assert_eq!(sr.strategy, Strategy::NoStrategy);
    sr.strategy = Strategy::XWing;
    sr.clear();
    assert_eq!(sr.strategy, Strategy::NoStrategy);
}

#[test]
fn test_clear_and_unsolved() {
    let mut s = Sudoku::from_string(EASY).expect("board");
    assert!(s.unsolved());
    s.calc_candidates();
    s.clear();
    assert!(!s.has_candidates());
    assert_eq!(s.to_board_string(), "0".repeat(81));
    assert_eq!(s.original_board(), EASY);
}

#[test]
fn test_checks_before_search() {
    let mut s = Sudoku::from_string(EASY).expect("board");
    s.calc_candidates();
    assert!(s.last_digit_ok());
    assert!(s.obvious_single_ok());
    assert!(s.skyscraper_ok());
    let step = s.find_step_checked().expect("step defined");
    assert!(step.removals.will_remove_candidates());
    assert!(s.can_apply_check(&step));
}

#[test]
fn test_locked_pair_in_rows() {
    let mut s = Sudoku::from_string(
        "...3......7..8.5.1..9...83.3..7.4...7.......4...1.5..8.61...9..9.7.4..6......2...",
    )
    .expect("board");
    s.calc_candidates();
    let pair = s.find_obvious_pair_in_rows();
    if pair.will_remove_candidates() {
        let locked = s.find_locked_pair_in_rows();
        for c in &locked.candidates_about_to_be_removed {
            assert!(s.get_candidates(c.row, c.col).contains(&c.num));
        }
    }
}

#[test]
fn test_hidden_triplet_in_rows_found() {
    let mut s = Sudoku::new();
    for col in 0..9 {
        s.candidates[0][col] = 0b11_1111_1110;
    }
    for col in 3..9 {
        s.candidates[0][col] = 0b1_1111_0000;
    }
    let result = s.find_hidden_triplet_in_rows();
    assert_eq!(result.unit, Some(Unit::Row));
    assert_eq!(result.unit_index, Some(vec![0]));
    assert_eq!(result.candidates_affected.len(), 9);
    assert!(result.candidates_affected.contains(&Candidate { row: 0, col: 2, num: 3 }));
    assert_eq!(result.candidates_about_to_be_removed.len(), 18);
    assert!(result.candidates_about_to_be_removed.contains(&Candidate { row: 0, col: 0, num: 9 }));
    assert!(!result.candidates_about_to_be_removed.contains(&Candidate { row: 0, col: 0, num: 1 }));
}


#[test]
fn test_effort_terms_weigh_each_strategy() {
    let mut s = Sudoku::new();
    s.rating[Strategy::LastDigit.index()] = 3;
    s.rating[Strategy::XWing.index()] = 2;
    assert_eq!(s.effort_terms(), (5, 3 * 4 + 2 * 140));
    let empty = Sudoku::new();
    assert_eq!(empty.effort_terms(), (0, 0));
}

#[test]
fn test_effort_terms_after_solving() {
    let mut s = Sudoku::from_string(EASY).unwrap();
    assert!(s.solve_human_like());
    let rating = s.rating();
    let (removed, weighted) = s.effort_terms();
    assert_eq!(removed as usize, rating.iter().sum::<usize>());
    assert!(removed > 0);
    assert!(weighted >= 4 * removed);
}

#[test]
fn test_rating_by_difficulty_lists_counted_strategies_in_order() {
    let mut s = Sudoku::new();
    s.rating[Strategy::XWing.index()] = 2;
    s.rating[Strategy::LockedPair.index()] = 1;
    s.rating[Strategy::ObviousPair.index()] = 4;
    s.rating[Strategy::LastDigit.index()] = 3;
    assert_eq!(
        s.rating_by_difficulty(),
        vec![(Strategy::LastDigit, 3), (Strategy::LockedPair, 1), (Strategy::ObviousPair, 4), (Strategy::XWing, 2)]
    );
    assert!(Sudoku::new().rating_by_difficulty().is_empty());
}

#[test]
fn test_rating_counts_removed_candidates_and_filled_cells() {
    let mut s = Sudoku::from_string(EASY).unwrap();
    s.calc_candidates();
    let count = |s: &Sudoku| -> usize {
        let mut n = 0;
        for r in 0..9 {
            for c in 0..9 {
                n += s.get_candidates(r, c).len();
            }
        }
        n
    };
    let empty = |s: &Sudoku| -> usize {
        let mut n = 0;
        for r in 0..9 {
            for c in 0..9 {
                if s.get_num(r, c) == 0 {
                    n += 1;
                }
            }
        }
        n
    };
    let candidates_before = count(&s);
    let empty_before = empty(&s);
    let mut solved = s.snapshot();
    assert!(solved.solve_human_like());
    let (removed, _) = solved.effort_terms();
    assert_eq!(removed as usize, (candidates_before - count(&solved)) + (empty_before - empty(&solved)));
    assert_eq!(count(&solved), 0);
}

#[test]
fn test_backtracking_gives_the_first_grid_in_row_major_order() {
    let mut s = Sudoku::new();
    assert!(s.solve_by_backtracking());
    let rows: Vec<String> = (0..3).map(|r| (0..9).map(|c| (b'0' + s.board[r][c]) as char).collect()).collect();
    assert_eq!(rows, vec!["123456789", "456789123", "789123456"]);
    assert!(valid_solution(&s.board, &Sudoku::new().board));
}
