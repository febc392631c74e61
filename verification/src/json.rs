//! Reading a Sudoku from its JSON text: the board, and the candidates of each cell.

use vstd::prelude::*;

use crate::board::{all_cells_zero, all_zero_rating, in_grid, Sudoku};
use crate::digits::{in_mask, lemma_empty_mask, lemma_ext, mask_digits, mask_insert};
use crate::search::{first_from, lemma_first_end, lemma_first_from, lemma_first_hit, lemma_first_skip, lemma_select, lemma_select_complete};
use crate::SudokuError;
use vstd::string::StringExecFns;

verus! {

#[verifier::external_type_specification]
#[verifier::external_body]
pub struct ExJsonValue(serde_json::Value);

/// A JSON value, as far as a Sudoku text needs it: a number is kept as the unsigned
/// integer that it is, when it is one.
#[derive(Debug)]
pub enum Json {
    Null,
    Bool(bool),
    Number(Option<u64>),
    Text(String),
    Array(Vec<Json>),
    Object(Vec<(String, Json)>),
}

/// The value that `serde_json::from_str` reads from a text, as a `Json`; `None` when it
/// refuses the text.
pub uninterp spec fn json_parsed(text: Seq<char>) -> Option<Json>;

/// `serde_json::from_str` into a `serde_json::Value`, turned into a `Json` by
/// `json_of_value`; on failure, the parser's error as text. The contract names the
/// outcome; the text of the parser's error is left unsaid.
#[verifier::external_body]
fn parse_json(text: &str) -> (res: Result<Json, String>)
    ensures
        match res {
            Ok(v) => json_parsed(text@) == Some(v),
            Err(_) => json_parsed(text@) is None,
        },
{
    match serde_json::from_str::<serde_json::Value>(text) {
        Ok(v) => Ok(json_of_value(&v)),
        Err(e) => Err(e.to_string()),
    }
}

/// The message of a text that is not JSON: the prefix, then the parser's error.
pub open spec fn parse_failure(message: Seq<char>) -> bool {
    exists|reason: Seq<char>| message == "Failed to parse JSON: "@ + reason
}

/// The error for a text that is not JSON, with the parser's `reason`.
fn parse_error(reason: String) -> (e: SudokuError)
    ensures
        e.message@ == "Failed to parse JSON: "@ + reason@,
        parse_failure(e.message@),
{
    let message = String::from_str("Failed to parse JSON: ").concat(reason.as_str());
    SudokuError { message }
}

/// The conversion inside `parse_json`: each `serde_json::Value` becomes the `Json` of the
/// same kind, a number the result of `Number::as_u64`, an object its fields in the order
/// that the map gives them. Nothing is claimed of it beyond what `parse_json` names.
#[verifier::external_body]
fn json_of_value(v: &serde_json::Value) -> Json {
    match v {
        serde_json::Value::Null => Json::Null,
        serde_json::Value::Bool(b) => Json::Bool(*b),
        serde_json::Value::Number(n) => Json::Number(n.as_u64()),
        serde_json::Value::String(s) => Json::Text(s.clone()),
        serde_json::Value::Array(a) => Json::Array(a.iter().map(json_of_value).collect()),
        serde_json::Value::Object(m) => Json::Object(m.iter().map(|(k, x)| (k.clone(), json_of_value(x))).collect()),
    }
}

/// The value of the first field `key` of an object.
pub open spec fn field(v: Json, key: Seq<char>) -> Option<Json> {
    match v {
        Json::Object(fields) => match first_from(|i: int| fields@[i].0@ == key, 0, fields@.len() as int) {
            Some(i) => Some(fields@[i].1),
            None => None,
        },
        _ => None,
    }
}

/// The items of the array that the field `key` holds.
pub open spec fn array_field(v: Json, key: Seq<char>) -> Option<Seq<Json>> {
    match field(v, key) {
        Some(Json::Array(items)) => Some(items@),
        _ => None,
    }
}

/// How reading a part of the text ends: it is fine, it is not what a Sudoku holds, or it
/// names a cell outside the grid or a candidate that a cell cannot hold (a digit, taken
/// modulo 256, of 16 or more).
#[derive(Debug, Clone, Copy, PartialEq, Eq, Structural)]
pub enum Read {
    Fine,
    Invalid,
    Beyond,
}

/// Reading the numbers of row `i` of the board from position `j` on.
pub open spec fn board_row_read(cells: Seq<Json>, i: int, j: int) -> Read
    decreases cells.len() - j,
{
    if j >= cells.len() {
        Read::Fine
    } else {
        match cells[j] {
            Json::Number(Some(_)) => if 0 <= i < 9 && 0 <= j < 9 {
                board_row_read(cells, i, j + 1)
            } else {
                Read::Beyond
            },
            _ => Read::Invalid,
        }
    }
}

/// Reading the rows of the board from row `i` on.
pub open spec fn board_read(rows: Seq<Json>, i: int) -> Read
    decreases rows.len() - i,
{
    if i >= rows.len() {
        Read::Fine
    } else {
        match rows[i] {
            Json::Array(cells) => match board_row_read(cells@, i, 0) {
                Read::Fine => board_read(rows, i + 1),
                other => other,
            },
            _ => Read::Invalid,
        }
    }
}

/// Every number of the list, taken modulo 256, is below 16.
pub open spec fn notes_fit(items: Seq<Json>) -> bool {
    forall|k: int| 0 <= k < items.len() ==> (#[trigger] json_digit(items[k]) matches Some(d) ==> d < 16)
}

/// Reading the candidate lists of row `i` from position `j` on.
pub open spec fn notes_row_read(cells: Seq<Json>, i: int, j: int) -> Read
    decreases cells.len() - j,
{
    if j >= cells.len() {
        Read::Fine
    } else {
        match cells[j] {
            Json::Array(items) => if 0 <= i < 9 && 0 <= j < 9 && notes_fit(items@) {
                notes_row_read(cells, i, j + 1)
            } else {
                Read::Beyond
            },
            _ => Read::Invalid,
        }
    }
}

/// Reading the rows of candidate lists from row `i` on.
pub open spec fn notes_read(rows: Seq<Json>, i: int) -> Read
    decreases rows.len() - i,
{
    if i >= rows.len() {
        Read::Fine
    } else {
        match rows[i] {
            Json::Array(cells) => match notes_row_read(cells@, i, 0) {
                Read::Fine => notes_read(rows, i + 1),
                other => other,
            },
            _ => Read::Invalid,
        }
    }
}

/// The text names no cell outside the grid and no candidate that a cell cannot hold,
/// before reading it ends.
pub open spec fn json_fits(v: Json) -> bool {
    &&& array_field(v, "board"@) matches Some(rows) ==> !(board_read(rows, 0) is Beyond)
    &&& (array_field(v, "board"@) matches Some(rows) && board_read(rows, 0) is Fine) ==> (array_field(v, "candidates"@) matches Some(
        rows,
    ) ==> !(notes_read(rows, 0) is Beyond))
}

/// The number of cell `(r, c)` of the board, if there is one.
pub open spec fn board_number(rows: Seq<Json>, r: int, c: int) -> Option<u64> {
    if 0 <= r < rows.len() {
        match rows[r] {
            Json::Array(cells) => if 0 <= c < cells@.len() {
                match cells@[c] {
                    Json::Number(n) => n,
                    _ => None,
                }
            } else {
                None
            },
            _ => None,
        }
    } else {
        None
    }
}

/// The value of cell `(r, c)` of the board: the number there, modulo 256, or `0`.
pub open spec fn board_value(rows: Seq<Json>, r: int, c: int) -> u8 {
    match board_number(rows, r, c) {
        Some(n) => (n % 256) as u8,
        None => 0,
    }
}

/// The list of candidates of cell `(r, c)`, if there is one.
pub open spec fn note_list(rows: Seq<Json>, r: int, c: int) -> Seq<Json> {
    if 0 <= r < rows.len() {
        match rows[r] {
            Json::Array(cells) => if 0 <= c < cells@.len() {
                match cells@[c] {
                    Json::Array(items) => items@,
                    _ => Seq::empty(),
                }
            } else {
                Seq::empty()
            },
            _ => Seq::empty(),
        }
    } else {
        Seq::empty()
    }
}

/// The list holds a number that is `d` modulo 256.
pub open spec fn lists_digit(items: Seq<Json>, d: int) -> bool {
    exists|k: int| 0 <= k < items.len() && #[trigger] json_digit(items[k]) == Some(d)
}

/// A number modulo 256.
pub open spec fn json_digit(x: Json) -> Option<int> {
    match x {
        Json::Number(Some(n)) => Some((n % 256) as int),
        _ => None,
    }
}

/// The field `key` of the object, if it has one.
fn get_field<'a>(v: &'a Json, key: &str) -> (res: Option<&'a Json>)
    ensures
        match field(*v, key@) {
            Some(x) => res == Some(&x),
            None => res is None,
        },
{
    match v {
        Json::Object(fields) => {
            let ghost p = |i: int| fields@[i].0@ == key@;
            let k = key.to_string();
            let mut i: usize = 0;
            while i < fields.len()
                invariant
                    i <= fields@.len(),
                    *v == Json::Object(*fields),
                    k@ == key@,
                    p == (|i: int| fields@[i].0@ == key@),
                    first_from(p, 0, fields@.len() as int) == first_from(p, i as int, fields@.len() as int),
                decreases fields@.len() - i,
            {
                if fields[i].0 == k {
                    proof {
                        lemma_first_hit(p, i as int, fields@.len() as int);

                    }
                    return Some(&fields[i].1);
                }
                proof {
                    lemma_first_skip(p, i as int, fields@.len() as int);
                }
                i = i + 1;
            }
            proof {
                lemma_first_end(p, fields@.len() as int);
            }
            None
        },
        _ => None,
    }
}

/// What reading the JSON value gives: the Sudoku, or the error that names the first field
/// found missing or invalid.
pub open spec fn json_result(v: Json, res: Result<Sudoku, SudokuError>) -> bool {
    match array_field(v, "board"@) {
        None => res matches Err(e) && e.message@ == "Missing or invalid 'board' field in JSON"@,
        Some(rows) => if board_read(rows, 0) is Invalid {
            res matches Err(e) && e.message@ == "Invalid board data in JSON"@
        } else {
            match array_field(v, "candidates"@) {
                None => res matches Err(e) && e.message@ == "Missing or invalid 'candidates' field in JSON"@,
                Some(notes) => if notes_read(notes, 0) is Invalid {
                    res matches Err(e) && e.message@ == "Invalid candidates data in JSON"@
                } else {
                    res matches Ok(s) && {
                        &&& forall|r: int, c: int| in_grid(r, c) ==> s.board[r][c] == board_value(rows, r, c)
                        &&& forall|r: int, c: int, d: int|
                            in_grid(r, c) ==> s.cand(r, c, d) == (0 <= d < 16 && lists_digit(note_list(notes, r, c), d))
                        &&& all_cells_zero(s.original_board)
                        &&& all_zero_rating(s.rating)
                        &&& s.undo_stack@.len() == 0
                    }
                },
            }
        },
    }
}

/// The candidate set of the numbers of the list, each taken modulo 256.
fn notes_mask(items: &Vec<Json>) -> (m: u16)
    requires
        notes_fit(items@),
    ensures
        forall|d: int| in_mask(m, d) == (0 <= d < 16 && lists_digit(items@, d)),
{
    let mut m: u16 = 0;
    proof {
        lemma_empty_mask();
    }
    let mut k: usize = 0;
    while k < items.len()
        invariant
            k <= items@.len(),
            notes_fit(items@),
            forall|d: int| in_mask(m, d) == (0 <= d < 16 && exists|q: int| 0 <= q < k && #[trigger] json_digit(items@[q]) == Some(d)),
        decreases items@.len() - k,
    {
        match &items[k] {
            Json::Number(Some(n)) => {
                let d: u8 = *n as u8;
                proof {
                    let nn = *n;
                    assert(nn as u8 == (nn % 256) as u8) by (bit_vector);
                    assert(json_digit(items@[k as int]) == Some(d as int));
                    assert(d < 16);
                }
                m = mask_insert(m, d);
                proof {
                    assert forall|x: int| in_mask(m, x) == (0 <= x < 16 && exists|q: int| 0 <= q < k + 1 && #[trigger] json_digit(items@[q]) == Some(x)) by {
                        if 0 <= x < 16 && x == d {
                            assert(json_digit(items@[k as int]) == Some(x));
                        }
                        if exists|q: int| 0 <= q < k + 1 && #[trigger] json_digit(items@[q]) == Some(x) {
                            let q = choose|q: int| 0 <= q < k + 1 && #[trigger] json_digit(items@[q]) == Some(x);
                            if q < k {
                                assert(exists|q2: int| 0 <= q2 < k && #[trigger] json_digit(items@[q2]) == Some(x));
                            }
                        }
                    }
                }
            },
            _ => {
                proof {
                    assert(json_digit(items@[k as int]) is None);
                    assert forall|x: int| in_mask(m, x) == (0 <= x < 16 && exists|q: int| 0 <= q < k + 1 && #[trigger] json_digit(items@[q]) == Some(x)) by {
                        if exists|q: int| 0 <= q < k + 1 && #[trigger] json_digit(items@[q]) == Some(x) {
                            let q = choose|q: int| 0 <= q < k + 1 && #[trigger] json_digit(items@[q]) == Some(x);
                            assert(q < k);
                        }
                    }
                }
            },
        }
        k = k + 1;
    }
    m
}

/// Whether every number of the list, taken modulo 256, is below 16.
fn fits_notes(items: &Vec<Json>) -> (b: bool)
    ensures
        b == notes_fit(items@),
{
    let mut k: usize = 0;
    while k < items.len()
        invariant
            k <= items@.len(),
            forall|q: int| 0 <= q < k ==> (#[trigger] json_digit(items@[q]) matches Some(d) ==> d < 16),
        decreases items@.len() - k,
    {
        if let Json::Number(Some(n)) = &items[k] {
            if *n % 256 >= 16 {
                proof {
                    assert(json_digit(items@[k as int]) == Some((*n % 256) as int));
                }
                return false;
            }
        }
        k = k + 1;
    }
    true
}

impl Sudoku {
    /// Write the numbers of the board rows into the empty board; see `board_read`.
    fn read_board_rows(&mut self, rows: &Vec<Json>) -> (res: Read)
        requires
            all_cells_zero(old(self).board),
        ensures
            res == board_read(rows@, 0),
            res is Fine ==> forall|r: int, c: int| in_grid(r, c) ==> final(self).board[r][c] == board_value(rows@, r, c),
            final(self).candidates == old(self).candidates,
            final(self).original_board == old(self).original_board,
            final(self).rating == old(self).rating,
            final(self).undo_stack == old(self).undo_stack,
    {
        let mut i: usize = 0;
        while i < rows.len()
            invariant
                i <= rows@.len(),
                board_read(rows@, 0) == board_read(rows@, i as int),
                forall|r: int, c: int| in_grid(r, c) ==> self.board[r][c] == if r < i { board_value(rows@, r, c) } else { 0 },
                self.candidates == old(self).candidates,
                self.original_board == old(self).original_board,
                self.rating == old(self).rating,
                self.undo_stack == old(self).undo_stack,
            decreases rows@.len() - i,
        {
            match &rows[i] {
                Json::Array(cells) => {
                    let mut j: usize = 0;
                    while j < cells.len()
                        invariant
                            i < rows@.len(),
                            rows@[i as int] == Json::Array(*cells),
                            j <= cells@.len(),
                            board_read(rows@, 0) == board_read(rows@, i as int),
                            board_row_read(cells@, i as int, 0) == board_row_read(cells@, i as int, j as int),
                            forall|r: int, c: int|
                                in_grid(r, c) ==> self.board[r][c] == if r < i || (r == i && c < j) { board_value(rows@, r, c) } else { 0 },
                            self.candidates == old(self).candidates,
                            self.original_board == old(self).original_board,
                            self.rating == old(self).rating,
                            self.undo_stack == old(self).undo_stack,
                        decreases cells@.len() - j,
                    {
                        match &cells[j] {
                            Json::Number(Some(n)) => {
                                if i >= 9 || j >= 9 {
                                    return Read::Beyond;
                                }
                                let d: u8 = *n as u8;
                                proof {
                                    let nn = *n;
                                    assert(nn as u8 == (nn % 256) as u8) by (bit_vector);
                                    assert(board_value(rows@, i as int, j as int) == d);
                                }
                                self.board[i][j] = d;
                            },
                            _ => {
                                return Read::Invalid;
                            },
                        }
                        j = j + 1;
                    }
                },
                _ => {
                    return Read::Invalid;
                },
            }
            i = i + 1;
        }
        Read::Fine
    }

    /// Write the candidate lists into the empty candidates; see `notes_read`.
    fn read_notes_rows(&mut self, rows: &Vec<Json>) -> (res: Read)
        requires
            crate::board::all_notes_empty(old(self).candidates),
        ensures
            res == notes_read(rows@, 0),
            res is Fine ==> forall|r: int, c: int, d: int|
                in_grid(r, c) ==> final(self).cand(r, c, d) == (0 <= d < 16 && lists_digit(note_list(rows@, r, c), d)),
            final(self).board == old(self).board,
            final(self).original_board == old(self).original_board,
            final(self).rating == old(self).rating,
            final(self).undo_stack == old(self).undo_stack,
    {
        proof {
            lemma_empty_mask();
        }
        let mut i: usize = 0;
        while i < rows.len()
            invariant
                i <= rows@.len(),
                notes_read(rows@, 0) == notes_read(rows@, i as int),
                forall|r: int, c: int, d: int|
                    in_grid(r, c) ==> self.cand(r, c, d) == (r < i && 0 <= d < 16 && lists_digit(note_list(rows@, r, c), d)),
                self.board == old(self).board,
                self.original_board == old(self).original_board,
                self.rating == old(self).rating,
                self.undo_stack == old(self).undo_stack,
            decreases rows@.len() - i,
        {
            match &rows[i] {
                Json::Array(cells) => {
                    let mut j: usize = 0;
                    while j < cells.len()
                        invariant
                            i < rows@.len(),
                            rows@[i as int] == Json::Array(*cells),
                            j <= cells@.len(),
                            notes_read(rows@, 0) == notes_read(rows@, i as int),
                            notes_row_read(cells@, i as int, 0) == notes_row_read(cells@, i as int, j as int),
                            forall|r: int, c: int, d: int|
                                in_grid(r, c) ==> self.cand(r, c, d) == ((r < i || (r == i && c < j)) && 0 <= d < 16 && lists_digit(
                                    note_list(rows@, r, c),
                                    d,
                                )),
                            self.board == old(self).board,
                            self.original_board == old(self).original_board,
                            self.rating == old(self).rating,
                            self.undo_stack == old(self).undo_stack,
                        decreases cells@.len() - j,
                    {
                        match &cells[j] {
                            Json::Array(items) => {
                                if i >= 9 || j >= 9 || !fits_notes(items) {
                                    return Read::Beyond;
                                }
                                let m = notes_mask(items);
                                let ghost before = self.candidates;
                                let ghost pre = *self;
                                proof {
                                    assert(note_list(rows@, i as int, j as int) == items@);
                                }
                                self.candidates[i][j] = m;
                                proof {
                                    assert forall|r: int, c: int, d: int| in_grid(r, c) implies self.cand(r, c, d) == ((r < i || (r == i && c < j
                                        + 1)) && 0 <= d < 16 && lists_digit(note_list(rows@, r, c), d)) by {
                                        if r == i && c == j {
                                            assert(in_mask(m, d) == (0 <= d < 16 && lists_digit(items@, d)));
                                        } else {
                                            assert(self.candidates[r][c] == before[r][c]);
                                            assert(pre.cand(r, c, d) == ((r < i || (r == i && c < j)) && 0 <= d < 16 && lists_digit(
                                                note_list(rows@, r, c),
                                                d,
                                            )));
                                        }
                                    }
                                }
                            },
                            _ => {
                                return Read::Invalid;
                            },
                        }
                        j = j + 1;
                    }
                    proof {
                        assert forall|r: int, c: int, d: int| in_grid(r, c) implies self.cand(r, c, d) == (r < i + 1 && 0 <= d < 16
                            && lists_digit(note_list(rows@, r, c), d)) by {
                            if r == i && c >= cells@.len() {
                                assert(note_list(rows@, r, c) == Seq::<Json>::empty());
                            }
                        }
                    }
                },
                _ => {
                    return Read::Invalid;
                },
            }
            i = i + 1;
        }
        proof {
            assert forall|r: int, c: int, d: int| in_grid(r, c) implies self.cand(r, c, d) == (0 <= d < 16 && lists_digit(
                note_list(rows@, r, c),
                d,
            )) by {
                if r >= rows@.len() {
                    assert(note_list(rows@, r, c) == Seq::<Json>::empty());
                }
            }
        }
        Read::Fine
    }
}

/// Read a Sudoku from a JSON value; see `json_result`. `None` when the value names a cell
/// outside the grid or a candidate that a cell cannot hold.
fn read_json(v: &Json) -> (res: Option<Result<Sudoku, SudokuError>>)
    ensures
        res is None <==> !json_fits(*v),
        res matches Some(r) ==> json_result(*v, r),
{
    let mut sudoku = Sudoku::new();
    match get_field(v, "board") {
        Some(Json::Array(rows)) => match sudoku.read_board_rows(rows) {
            Read::Fine => {},
            Read::Invalid => {
                return Some(Err(SudokuError { message: String::from_str("Invalid board data in JSON") }));
            },
            Read::Beyond => {
                return None;
            },
        },
        _ => {
            return Some(Err(SudokuError { message: String::from_str("Missing or invalid 'board' field in JSON") }));
        },
    }
    match get_field(v, "candidates") {
        Some(Json::Array(rows)) => match sudoku.read_notes_rows(rows) {
            Read::Fine => {},
            Read::Invalid => {
                return Some(Err(SudokuError { message: String::from_str("Invalid candidates data in JSON") }));
            },
            Read::Beyond => {
                return None;
            },
        },
        _ => {
            return Some(Err(SudokuError { message: String::from_str("Missing or invalid 'candidates' field in JSON") }));
        },
    }
    Some(Ok(sudoku))
}

impl Sudoku {
    /// Read a Sudoku from a JSON value: the field `board` holds the rows of numbers, the
    /// field `candidates` the rows of candidate lists; see `json_result` for the errors.
    pub fn from_json_value(v: &Json) -> (res: Result<Sudoku, SudokuError>)
        requires
            json_fits(*v),
        ensures
            json_result(*v, res),
    {
        match read_json(v) {
            Some(r) => r,
            None => Err(SudokuError { message: String::new() }),
        }
    }

    /// Read a Sudoku from its JSON text; see `from_json_value`. A text that is not JSON
    /// is refused with "Failed to parse JSON: " and the parser's message.
    pub fn from_json(json: &str) -> (res: Result<Sudoku, SudokuError>)
        requires
            json_parsed(json@) matches Some(v) ==> json_fits(v),
        ensures
            json_parsed(json@) is None ==> (res matches Err(e) && parse_failure(e.message@)),
            json_parsed(json@) matches Some(v) ==> json_result(v, res),
    {
        match parse_json(json) {
            Ok(v) => Self::from_json_value(&v),
            Err(reason) => Err(parse_error(reason)),
        }
    }

    /// `from_json`, when the text names no cell outside the grid and no candidate that a
    /// cell cannot hold; `None` otherwise.
    pub fn try_from_json(json: &str) -> (res: Option<Result<Sudoku, SudokuError>>)
        ensures
            res is None <==> (json_parsed(json@) matches Some(v) && !json_fits(v)),
            res matches Some(r) ==> (json_parsed(json@) is None ==> (r matches Err(e) && parse_failure(e.message@))) && (json_parsed(json@) matches Some(
                v,
            ) ==> json_result(v, r)),
    {
        match parse_json(json) {
            Ok(v) => {
                if read_json(&v).is_none() {
                    None
                } else {
                    Some(Self::from_json(json))
                }
            },
            Err(reason) => Some(Err(parse_error(reason))),
        }
    }
}

/// The value is the number `n`.
pub open spec fn number_is(x: Json, n: int) -> bool {
    x matches Json::Number(Some(m)) && m == n
}

/// The list holds the numbers `ds`, in order.
pub open spec fn list_is(x: Json, ds: Seq<int>) -> bool {
    x matches Json::Array(items) && items@.len() == ds.len() && forall|k: int| 0 <= k < ds.len() ==> #[trigger] number_is(items@[k], ds[k])
}

/// Row `r` of the board as a list of its nine numbers.
pub open spec fn board_row_is(x: Json, s: Sudoku, r: int) -> bool {
    x matches Json::Array(cells) && cells@.len() == 9 && forall|c: int| 0 <= c < 9 ==> #[trigger] number_is(cells@[c], s.board[r][c] as int)
}

/// Row `r` of the candidates as nine lists, each in increasing order.
pub open spec fn notes_row_is(x: Json, s: Sudoku, r: int) -> bool {
    x matches Json::Array(cells) && cells@.len() == 9 && forall|c: int|
        0 <= c < 9 ==> #[trigger] list_is(cells@[c], mask_digits(s.candidates[r][c]))
}

/// The value holds the board of `s` as rows of numbers under `board`, and its candidates
/// as rows of lists in increasing order under `candidates`: what `to_json` writes.
pub open spec fn describes(v: Json, s: Sudoku) -> bool {
    &&& array_field(v, "board"@) matches Some(rows) && rows.len() == 9 && forall|r: int| 0 <= r < 9 ==> #[trigger] board_row_is(rows[r], s, r)
    &&& array_field(v, "candidates"@) matches Some(rows) && rows.len() == 9 && forall|r: int|
        0 <= r < 9 ==> #[trigger] notes_row_is(rows[r], s, r)
}

proof fn lemma_board_row_fine(cells: Seq<Json>, s: Sudoku, i: int, j: int)
    requires
        0 <= i < 9,
        0 <= j <= 9,
        cells.len() == 9,
        forall|c: int| 0 <= c < 9 ==> #[trigger] number_is(cells[c], s.board[i][c] as int),
    ensures
        board_row_read(cells, i, j) is Fine,
    decreases 9 - j,
{
    if j < 9 {
        assert(number_is(cells[j], s.board[i][j] as int));
        lemma_board_row_fine(cells, s, i, j + 1);
    }
}

proof fn lemma_board_fine(rows: Seq<Json>, s: Sudoku, i: int)
    requires
        0 <= i <= 9,
        rows.len() == 9,
        forall|r: int| 0 <= r < 9 ==> #[trigger] board_row_is(rows[r], s, r),
    ensures
        board_read(rows, i) is Fine,
    decreases 9 - i,
{
    if i < 9 {
        assert(board_row_is(rows[i], s, i));
        let cells = rows[i]->Array_0;
        lemma_board_row_fine(cells@, s, i, 0);
        lemma_board_fine(rows, s, i + 1);
    }
}

proof fn lemma_digits_fit(m: u16, items: Seq<Json>)
    requires
        items.len() == mask_digits(m).len(),
        forall|k: int| 0 <= k < items.len() ==> #[trigger] number_is(items[k], mask_digits(m)[k]),
    ensures
        notes_fit(items),
        forall|d: int| (0 <= d < 16 && lists_digit(items, d)) == in_mask(m, d),
{
    lemma_select(|n: int| in_mask(m, n), 0, 16);
    assert forall|k: int| 0 <= k < items.len() implies (#[trigger] json_digit(items[k]) matches Some(d) ==> d < 16) by {
        assert(number_is(items[k], mask_digits(m)[k]));
    }
    assert forall|d: int| (0 <= d < 16 && lists_digit(items, d)) == in_mask(m, d) by {
        if 0 <= d < 16 && lists_digit(items, d) {
            let k = choose|k: int| 0 <= k < items.len() && #[trigger] json_digit(items[k]) == Some(d);
            assert(number_is(items[k], mask_digits(m)[k]));
        }
        if in_mask(m, d) {
            assert(0 <= d < 16);
            lemma_select_complete(|n: int| in_mask(m, n), 0, 16, d);
            let k = choose|k: int| 0 <= k < mask_digits(m).len() && mask_digits(m)[k] == d;
            assert(number_is(items[k], mask_digits(m)[k]));
            assert(json_digit(items[k]) == Some(d));
        }
    }
}

proof fn lemma_notes_row_fine(cells: Seq<Json>, s: Sudoku, i: int, j: int)
    requires
        0 <= i < 9,
        0 <= j <= 9,
        cells.len() == 9,
        forall|c: int| 0 <= c < 9 ==> #[trigger] list_is(cells[c], mask_digits(s.candidates[i][c])),
    ensures
        notes_row_read(cells, i, j) is Fine,
    decreases 9 - j,
{
    if j < 9 {
        assert(list_is(cells[j], mask_digits(s.candidates[i][j])));
        let items = cells[j]->Array_0;
        lemma_digits_fit(s.candidates[i][j], items@);
        lemma_notes_row_fine(cells, s, i, j + 1);
    }
}

proof fn lemma_notes_fine(rows: Seq<Json>, s: Sudoku, i: int)
    requires
        0 <= i <= 9,
        rows.len() == 9,
        forall|r: int| 0 <= r < 9 ==> #[trigger] notes_row_is(rows[r], s, r),
    ensures
        notes_read(rows, i) is Fine,
    decreases 9 - i,
{
    if i < 9 {
        assert(notes_row_is(rows[i], s, i));
        let cells = rows[i]->Array_0;
        lemma_notes_row_fine(cells@, s, i, 0);
        lemma_notes_fine(rows, s, i + 1);
    }
}

/// What `to_json` writes reads back: from a value that holds the board and the candidates
/// of `s` as `to_json` writes them, `from_json_value` gives a Sudoku with the board and the
/// candidates of `s`.
pub proof fn lemma_json_reads_back(v: Json, s: Sudoku, res: Result<Sudoku, SudokuError>)
    requires
        describes(v, s),
        json_result(v, res),
    ensures
        json_fits(v),
        res matches Ok(t) && (forall|r: int, c: int| in_grid(r, c) ==> t.board[r][c] == s.board[r][c] && t.candidates[r][c] == s.candidates[r][c]),
{
    let rows = array_field(v, "board"@)->0;
    let notes = array_field(v, "candidates"@)->0;
    lemma_board_fine(rows, s, 0);
    lemma_notes_fine(notes, s, 0);
    let t = res->Ok_0;
    assert forall|r: int, c: int| in_grid(r, c) implies t.board[r][c] == s.board[r][c] && t.candidates[r][c] == s.candidates[r][c] by {
        assert(board_row_is(rows[r], s, r));
        assert(number_is(rows[r]->Array_0@[c], s.board[r][c] as int));
        assert(board_value(rows, r, c) == s.board[r][c]);
        assert(notes_row_is(notes[r], s, r));
        assert(list_is(notes[r]->Array_0@[c], mask_digits(s.candidates[r][c])));
        let items = note_list(notes, r, c);
        lemma_digits_fit(s.candidates[r][c], items);
        assert forall|d: int| 0 <= d < 16 implies in_mask(t.candidates[r][c], d) == in_mask(s.candidates[r][c], d) by {
            assert(t.cand(r, c, d) == (0 <= d < 16 && lists_digit(items, d)));
        }
        lemma_ext(t.candidates[r][c], s.candidates[r][c]);
    }
}

} // verus!
