use rate_my_sudoku::Sudoku;

fn message(json: &str) -> String {
    match Sudoku::from_json(json) {
        Ok(_) => panic!("expected an error"),
        Err(e) => e.message,
    }
}

#[test]
fn json_without_board() {
    assert_eq!(message("{\"candidates\":[]}"), "Missing or invalid 'board' field in JSON");
    assert_eq!(message("[1,2]"), "Missing or invalid 'board' field in JSON");
}

#[test]
fn json_with_a_bad_board() {
    assert_eq!(message("{\"board\":[[1,\"x\"]],\"candidates\":[]}"), "Invalid board data in JSON");
    assert_eq!(message("{\"board\":[3],\"candidates\":[]}"), "Invalid board data in JSON");
}

#[test]
fn json_without_candidates() {
    assert_eq!(message("{\"board\":[[1,2]]}"), "Missing or invalid 'candidates' field in JSON");
}

#[test]
fn json_with_bad_candidates() {
    assert_eq!(message("{\"board\":[],\"candidates\":[[1]]}"), "Invalid candidates data in JSON");
}

#[test]
fn json_that_does_not_parse() {
    assert!(message("{board").starts_with("Failed to parse JSON"));
}

#[test]
fn json_partial_board() {
    let s = Sudoku::from_json("{\"board\":[[1,2],[],[0,0,300]],\"candidates\":[[[3,3,\"a\"]]]}").unwrap();
    assert_eq!(s.get_num(0, 0), 1);
    assert_eq!(s.get_num(0, 1), 2);
    assert_eq!(s.get_num(2, 2), 44);
    assert_eq!(s.get_num(8, 8), 0);
    assert_eq!(s.get_candidates(0, 0), vec![3u8]);
    assert!(s.get_candidates(0, 1).is_empty());
    assert_eq!(s.original_board, [[0u8; 9]; 9]);
}

#[test]
fn json_outside_the_grid_is_not_read() {
    let ten_rows = "{\"board\":[[],[],[],[],[],[],[],[],[],[1]],\"candidates\":[]}";
    assert!(Sudoku::try_from_json(ten_rows).is_none());
    let big_note = "{\"board\":[],\"candidates\":[[[20]]]}";
    assert!(Sudoku::try_from_json(big_note).is_none());
    let fine = "{\"board\":[[5]],\"candidates\":[]}";
    let s = Sudoku::try_from_json(fine).unwrap().unwrap();
    assert_eq!(s.get_num(0, 0), 5);
    let broken = "{\"board\":[[\"x\"],[],[],[],[],[],[],[],[],[1]],\"candidates\":[]}";
    assert!(Sudoku::try_from_json(broken).unwrap().is_err());
}

#[test]
fn json_that_does_not_parse_names_the_parser() {
    let m = message("{ not json");
    assert!(m.starts_with("Failed to parse JSON: "));
    assert!(m.len() > "Failed to parse JSON: ".len());
}

#[test]
fn json_written_reads_back() {
    let mut s = Sudoku::from_string(
        "318005406000603810006080503864952137123476958795318264030500780000007305000039641",
    )
    .unwrap();
    s.calc_candidates();
    let t = Sudoku::from_json(&s.to_json()).expect("the written text reads back");
    assert_eq!(t.board, s.board);
    assert_eq!(t.candidates, s.candidates);
}
