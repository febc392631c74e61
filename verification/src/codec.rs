//! Reading and writing boards: the 81-character board string, the binary format, JSON.

use vstd::prelude::*;

use crate::board::{
    all_cells_zero, all_notes_empty, all_zero_rating, in_grid, Grid, Sudoku,
};
use crate::digits::{in_mask, lemma_empty_mask, mask_digit_list, mask_digits, mask_has, mask_insert, nums_of};
use crate::{SudokuError, EMPTY};

verus! {

/// `b` is `a` read again from the text of its original board: the board and the original
/// board are the digits of that text, with no candidates and no rating, when the text
/// holds 81 digits; otherwise nothing changes.
pub open spec fn restored(a: Sudoku, b: Sudoku) -> bool {
    &&& board_digits(grid_chars(a.original_board)).len() != 81 ==> b == a
    &&& board_digits(grid_chars(a.original_board)).len() == 81 ==> {
        let d = board_digits(grid_chars(a.original_board));
        &&& forall|r: int, c: int| in_grid(r, c) ==> b.board[r][c] == d[9 * r + c] && b.original_board[r][c] == d[9 * r + c]
        &&& all_notes_empty(b.candidates)
        &&& all_zero_rating(b.rating)
        &&& b.undo_stack == a.undo_stack
    }
}

/// Append `c` to `s`.
#[verifier::external_body]
pub(crate) fn push_char(s: &mut String, c: char)
    ensures
        final(s)@ == old(s)@.push(c),
{
    s.push(c);
}

/// The character that shows the cell value `v`: `'0' + v`.
pub open spec fn value_char(v: u8) -> char {
    (v + 48) as char
}

/// Every value of the grid has a character `'0' + v`.
pub open spec fn printable(g: Grid) -> bool {
    forall|r: int, c: int| in_grid(r, c) ==> g[r][c] <= 207
}

/// The grid written row by row, one character per cell.
pub open spec fn grid_chars(g: Grid) -> Seq<char> {
    Seq::new(81, |i: int| value_char(g[i / 9][i % 9]))
}

pub open spec fn is_digit_char(c: char) -> bool {
    '0' <= c && c <= '9'
}

/// Whether the text is laid out with spaces or line breaks.
pub open spec fn is_spaced(s: Seq<char>) -> bool {
    s.contains(' ') || s.contains('\n')
}

/// A laid-out text keeps its digits, reads `.` and `_` as `0`, and drops everything else.
pub open spec fn spaced_piece(c: char) -> Seq<char> {
    if is_digit_char(c) {
        seq![c]
    } else if c == '.' || c == '_' {
        seq!['0']
    } else {
        Seq::empty()
    }
}

pub open spec fn normalize_spaced(s: Seq<char>) -> Seq<char>
    decreases s.len(),
{
    if s.len() == 0 {
        Seq::empty()
    } else {
        normalize_spaced(s.drop_last()) + spaced_piece(s.last())
    }
}

/// A compact text reads `.` and `_` as `0` and keeps every other character.
pub open spec fn compact_char(c: char) -> char {
    if c == '.' || c == '_' {
        '0'
    } else {
        c
    }
}

/// The board text after normalization.
pub open spec fn board_text(s: Seq<char>) -> Seq<char> {
    if is_spaced(s) {
        normalize_spaced(s)
    } else {
        s.map_values(|c: char| compact_char(c))
    }
}

/// The digits of a text, in order, as numbers.
pub open spec fn digits_of(t: Seq<char>) -> Seq<u8>
    decreases t.len(),
{
    if t.len() == 0 {
        Seq::empty()
    } else {
        digits_of(t.drop_last()) + if is_digit_char(t.last()) {
            seq![(t.last() as int - 48) as u8]
        } else {
            Seq::<u8>::empty()
        }
    }
}

/// The digits that a board text gives, row by row.
pub open spec fn board_digits(s: Seq<char>) -> Seq<u8> {
    digits_of(board_text(s))
}

proof fn lemma_digits_push(t: Seq<char>, c: char)
    ensures
        digits_of(t.push(c)) == digits_of(t) + if is_digit_char(c) {
            seq![(c as int - 48) as u8]
        } else {
            Seq::<u8>::empty()
        },
{
    assert(t.push(c).drop_last() =~= t);
}

pub(crate) fn is_digit(c: char) -> (b: bool)
    ensures
        b == is_digit_char(c),
{
    c >= '0' && c <= '9'
}

impl Sudoku {
    /// The board written as 81 characters `'0' + value`, row by row.
    pub fn to_board_string(&self) -> (s: String)
        requires
            printable(self.board),
        ensures
            s@ == grid_chars(self.board),
    {
        grid_string(&self.board)
    }

    /// The original board written as 81 characters `'0' + value`, row by row.
    pub fn original_board(&self) -> (s: String)
        requires
            printable(self.original_board),
        ensures
            s@ == grid_chars(self.original_board),
    {
        grid_string(&self.original_board)
    }

    /// Read a board from text and make it both the board and the original board.
    ///
    /// A text with spaces or line breaks keeps its digits, reads `.` and `_` as `0`, and drops
    /// every other character; a compact text only reads `.` and `_` as `0`. The text must then
    /// hold exactly 81 digits, else it is refused and nothing changes. On success the
    /// candidates and the rating are cleared and the normalized text is returned.
    pub fn set_board_string(&mut self, board_string: &str) -> (res: Result<String, SudokuError>)
        ensures
            board_digits(board_string@).len() != 81 ==> res is Err && *final(self) == *old(self),
            board_digits(board_string@).len() == 81 ==> {
                &&& res matches Ok(text) && text@ == board_text(board_string@)
                &&& forall|r: int, c: int|
                    in_grid(r, c) ==> final(self).board[r][c] == board_digits(board_string@)[9 * r + c]
                        && final(self).original_board[r][c] == board_digits(board_string@)[9 * r + c]
                &&& all_notes_empty(final(self).candidates)
                &&& all_zero_rating(final(self).rating)
                &&& final(self).undo_stack == old(self).undo_stack
            },
    {
        let mut spaced = false;
        for ch in it: board_string.chars()
            invariant
                it.seq() == board_string@,
                spaced == (it.seq().take(it.index() as int).contains(' ') || it.seq().take(
                    it.index() as int,
                ).contains('\n')),
        {
            let ghost i = it.index() as int;
            proof {
                assert(it.seq().take(i + 1) =~= it.seq().take(i).push(ch));
            }
            if ch == ' ' || ch == '\n' {
                spaced = true;
            }
            proof {
                let t1 = it.seq().take(i + 1);
                if t1.contains(' ') && !spaced {
                    let k = choose|k: int| 0 <= k < t1.len() && t1[k] == ' ';
                    assert(k < i ==> it.seq().take(i).contains(' '));
                }
                if t1.contains('\n') && !spaced {
                    let k = choose|k: int| 0 <= k < t1.len() && t1[k] == '\n';
                    assert(k < i ==> it.seq().take(i).contains('\n'));
                }
                if it.seq().take(i).contains(' ') {
                    let k = choose|k: int| 0 <= k < i && it.seq().take(i)[k] == ' ';
                    assert(t1[k] == ' ');
                }
                if it.seq().take(i).contains('\n') {
                    let k = choose|k: int| 0 <= k < i && it.seq().take(i)[k] == '\n';
                    assert(t1[k] == '\n');
                }
                if ch == ' ' {
                    assert(t1[i] == ' ');
                }
                if ch == '\n' {
                    assert(t1[i] == '\n');
                }
            }
        }
        proof {
            assert(board_string@.take(board_string@.len() as int) =~= board_string@);
        }
        let mut text = String::new();
        let mut digits: Vec<u8> = Vec::new();
        for ch in it: board_string.chars()
            invariant
                it.seq() == board_string@,
                spaced == is_spaced(board_string@),
                spaced ==> text@ == normalize_spaced(it.seq().take(it.index() as int)),
                !spaced ==> text@ == it.seq().take(it.index() as int).map_values(
                    |c: char| compact_char(c),
                ),
                digits@ == digits_of(text@),
        {
            let ghost i = it.index() as int;
            let ghost prefix = it.seq().take(i);
            proof {
                assert(it.seq().take(i + 1).drop_last() =~= prefix);
                assert(it.seq().take(i + 1).last() == ch);
                assert(it.seq().take(i + 1).map_values(|c: char| compact_char(c)) =~= prefix.map_values(
                    |c: char| compact_char(c),
                ).push(compact_char(ch)));
            }
            let is_d = is_digit(ch);
            let out: Option<char> = if spaced {
                if is_d {
                    Some(ch)
                } else if ch == '.' || ch == '_' {
                    Some('0')
                } else {
                    None
                }
            } else if ch == '.' || ch == '_' {
                Some('0')
            } else {
                Some(ch)
            };
            if let Some(o) = out {
                let ghost before = text@;
                push_char(&mut text, o);
                proof {
                    lemma_digits_push(before, o);
                }
                if is_digit(o) {
                    let d: u8 = (o as u32 - 48) as u8;
                    digits.push(d);
                }
                proof {
                    if spaced {
                        assert(spaced_piece(ch) =~= seq![o]);
                    }
                }
            } else {
                proof {
                    assert(spaced_piece(ch) =~= Seq::<char>::empty());
                    assert(text@ + Seq::<char>::empty() =~= text@);
                }
            }
        }
        proof {
            assert(board_string@.take(board_string@.len() as int) =~= board_string@);
            assert(text@ == board_text(board_string@));
        }
        if digits.len() != 81 {
            return Err(SudokuError {
                message: String::from_str(
                    "Invalid Sudoku board: board string must contain exactly 81 digits or dots",
                ),
            });
        }
        self.clear();
        self.original_board = [[EMPTY; 9]; 9];
        let mut k: usize = 0;
        while k < 81
            invariant
                k <= 81,
                digits@.len() == 81,
                digits@ == board_digits(board_string@),
                all_notes_empty(self.candidates),
                all_zero_rating(self.rating),
                self.undo_stack == old(self).undo_stack,
                forall|j: int|
                    0 <= j < k ==> self.board[j / 9][j % 9] == digits@[j] && self.original_board[j / 9][j
                        % 9] == digits@[j],
            decreases 81 - k,
        {
            let d = digits[k];
            self.board[k / 9][k % 9] = d;
            self.original_board[k / 9][k % 9] = d;
            proof {
                assert forall|j: int| 0 <= j < k + 1 implies self.board[j / 9][j % 9] == digits@[j]
                    && self.original_board[j / 9][j % 9] == digits@[j] by {
                    if j < k {
                        assert(j / 9 != k / 9 || j % 9 != k % 9);
                    }
                }
            }
            k = k + 1;
        }
        proof {
            assert forall|r: int, c: int| in_grid(r, c) implies self.board[r][c] == digits@[9 * r + c]
                && self.original_board[r][c] == digits@[9 * r + c] by {
                let j = 9 * r + c;
                assert(j / 9 == r && j % 9 == c);
            }
        }
        Ok(text)
    }

    /// A new Sudoku read from a board text; see `set_board_string`.
    pub fn from_string(board_string: &str) -> (res: Result<Sudoku, SudokuError>)
        ensures
            board_digits(board_string@).len() != 81 ==> res is Err,
            board_digits(board_string@).len() == 81 ==> (res matches Ok(s) && {
                &&& forall|r: int, c: int|
                    in_grid(r, c) ==> s.board[r][c] == board_digits(board_string@)[9 * r + c]
                        && s.original_board[r][c] == board_digits(board_string@)[9 * r + c]
                &&& all_notes_empty(s.candidates)
                &&& all_zero_rating(s.rating)
                &&& s.undo_stack@.len() == 0
            }),
    {
        let mut sudoku = Sudoku::new();
        match sudoku.set_board_string(board_string) {
            Ok(_) => Ok(sudoku),
            Err(e) => Err(e),
        }
    }
}

impl Sudoku {
    /// Set the board back to the original board, read as a board text; see
    /// `set_board_string`.
    pub fn restore(&mut self)
        requires
            printable(old(self).original_board),
        ensures
            restored(*old(self), *final(self)),
    {
        let text = self.original_board();
        let _ = self.set_board_string(text.as_str());
    }
}

/// A text of digit characters gives their values, in order.
proof fn lemma_digits_of_digits(t: Seq<char>)
    requires
        forall|i: int| 0 <= i < t.len() ==> is_digit_char(#[trigger] t[i]),
    ensures
        digits_of(t).len() == t.len(),
        forall|i: int| 0 <= i < t.len() ==> #[trigger] digits_of(t)[i] == t[i] as int - 48,
    decreases t.len(),
{
    if t.len() > 0 {
        lemma_digits_of_digits(t.drop_last());
        assert forall|i: int| 0 <= i < t.len() implies #[trigger] digits_of(t)[i] == t[i] as int - 48 by {
            if i < t.len() - 1 {
                assert(t.drop_last()[i] == t[i]);
            }
        }
    }
}

/// A board of digits `0..=9`, written out and read back, is the same board: so `restore`
/// gives back the original board.
pub proof fn lemma_board_text_roundtrip(g: Grid)
    requires
        forall|r: int, c: int| in_grid(r, c) ==> g[r][c] <= 9,
    ensures
        board_digits(grid_chars(g)).len() == 81,
        forall|r: int, c: int| in_grid(r, c) ==> #[trigger] board_digits(grid_chars(g))[9 * r + c] == g[r][c],
{
    let t = grid_chars(g);
    assert forall|i: int| 0 <= i < t.len() implies is_digit_char(#[trigger] t[i]) by {
        assert(in_grid(i / 9, i % 9));
    }
    assert(!t.contains(' ')) by {
        if t.contains(' ') {
            let i = choose|i: int| 0 <= i < t.len() && t[i] == ' ';
            assert(is_digit_char(t[i]));
        }
    }
    assert(!t.contains('\n')) by {
        if t.contains('\n') {
            let i = choose|i: int| 0 <= i < t.len() && t[i] == '\n';
            assert(is_digit_char(t[i]));
        }
    }
    let m = t.map_values(|c: char| compact_char(c));
    assert(m =~= t) by {
        assert forall|i: int| 0 <= i < t.len() implies #[trigger] m[i] == t[i] by {
            assert(is_digit_char(t[i]));
        }
    }
    assert(board_text(t) == t);
    lemma_digits_of_digits(t);
    assert forall|r: int, c: int| in_grid(r, c) implies #[trigger] board_digits(grid_chars(g))[9 * r + c] == g[r][c] by {
        let i = 9 * r + c;
        assert(i / 9 == r && i % 9 == c);
        assert(g[r][c] <= 9);
    }
}

/// The decimal digits of `v`.
pub open spec fn dec(v: int) -> Seq<char> {
    if v < 10 {
        seq![(v + 48) as char]
    } else if v < 100 {
        seq![(v / 10 + 48) as char, (v % 10 + 48) as char]
    } else {
        seq![(v / 100 + 48) as char, ((v / 10) % 10 + 48) as char, (v % 10 + 48) as char]
    }
}

/// The items separated by commas.
pub open spec fn join(items: Seq<Seq<char>>) -> Seq<char>
    decreases items.len(),
{
    if items.len() == 0 {
        Seq::empty()
    } else if items.len() == 1 {
        items[0]
    } else {
        join(items.drop_last()) + seq![','] + items.last()
    }
}

/// A JSON array of the items.
pub open spec fn bracket(items: Seq<Seq<char>>) -> Seq<char> {
    seq!['['] + join(items) + seq![']']
}

pub open spec fn board_row_json(g: Grid, r: int) -> Seq<char> {
    bracket(Seq::new(9, |c: int| dec(g[r][c] as int)))
}

/// The board as a JSON array of rows of numbers.
pub open spec fn board_json(g: Grid) -> Seq<char> {
    bracket(Seq::new(9, |r: int| board_row_json(g, r)))
}

/// A cell's candidates as a JSON array, in increasing order.
pub open spec fn cell_json(m: u16) -> Seq<char> {
    bracket(Seq::new(mask_digits(m).len(), |i: int| dec(mask_digits(m)[i])))
}

pub open spec fn notes_row_json(n: crate::board::Notes, r: int) -> Seq<char> {
    bracket(Seq::new(9, |c: int| cell_json(n[r][c])))
}

/// The candidates as a JSON array of rows of arrays.
pub open spec fn notes_json(n: crate::board::Notes) -> Seq<char> {
    bracket(Seq::new(9, |r: int| notes_row_json(n, r)))
}

/// The JSON object with the board and the candidates.
pub open spec fn json_of(s: Sudoku) -> Seq<char> {
    seq!['{', '"', 'b', 'o', 'a', 'r', 'd', '"', ':'] + board_json(s.board) + seq![
        ',',
        '"',
        'c',
        'a',
        'n',
        'd',
        'i',
        'd',
        'a',
        't',
        'e',
        's',
        '"',
        ':',
    ] + notes_json(s.candidates) + seq!['}']
}

proof fn lemma_join_next(items: Seq<Seq<char>>, k: int)
    requires
        0 <= k < items.len(),
    ensures
        join(items.take(k + 1)) == join(items.take(k)) + (if k > 0 { seq![','] } else { Seq::<char>::empty() }) + items[k],
{
    assert(items.take(k + 1).drop_last() =~= items.take(k));
    if k == 0 {
        assert(join(items.take(0)) =~= Seq::<char>::empty());
        assert(Seq::<char>::empty() + Seq::<char>::empty() + items[0] =~= items[0]);
    }
}

/// Append the decimal digits of `v`.
fn push_dec(s: &mut String, v: u8)
    ensures
        final(s)@ == old(s)@ + dec(v as int),
{
    if v < 10 {
        push_char(s, (v + 48) as char);
        assert(final(s)@ =~= old(s)@ + dec(v as int));
    } else if v < 100 {
        push_char(s, (v / 10 + 48) as char);
        push_char(s, (v % 10 + 48) as char);
        assert(final(s)@ =~= old(s)@ + dec(v as int));
    } else {
        push_char(s, (v / 100 + 48) as char);
        push_char(s, ((v / 10) % 10 + 48) as char);
        push_char(s, (v % 10 + 48) as char);
        assert(final(s)@ =~= old(s)@ + dec(v as int));
    }
}

fn push_board_row(s: &mut String, g: &Grid, r: usize)
    requires
        r < 9,
    ensures
        final(s)@ == old(s)@ + board_row_json(*g, r as int),
{
    let ghost items = Seq::new(9, |c: int| dec(g[r as int][c] as int));
    let ghost start = s@;
    push_char(s, '[');
    let mut c: usize = 0;
    while c < 9
        invariant
            r < 9,
            c <= 9,
            items == Seq::new(9, |c: int| dec(g[r as int][c] as int)),
            s@ == start + seq!['['] + join(items.take(c as int)),
        decreases 9 - c,
    {
        proof {
            lemma_join_next(items, c as int);
        }
        if c > 0 {
            push_char(s, ',');
        }
        push_dec(s, g[r][c]);
        proof {
            assert(s@ =~= start + seq!['['] + join(items.take(c + 1)));
        }
        c = c + 1;
    }
    push_char(s, ']');
    proof {
        assert(items.take(9) =~= items);
        assert(s@ =~= start + board_row_json(*g, r as int));
    }
}

fn push_cell(s: &mut String, m: u16)
    ensures
        final(s)@ == old(s)@ + cell_json(m),
{
    let d = mask_digit_list(m);
    let ghost items = Seq::new(mask_digits(m).len(), |i: int| dec(mask_digits(m)[i]));
    let ghost start = s@;
    push_char(s, '[');
    let mut i: usize = 0;
    while i < d.len()
        invariant
            i <= d@.len(),
            nums_of(d@) == mask_digits(m),
            items == Seq::new(mask_digits(m).len(), |i: int| dec(mask_digits(m)[i])),
            s@ == start + seq!['['] + join(items.take(i as int)),
        decreases d@.len() - i,
    {
        proof {
            lemma_join_next(items, i as int);
            assert(nums_of(d@)[i as int] == d@[i as int]);
        }
        if i > 0 {
            push_char(s, ',');
        }
        push_dec(s, d[i]);
        proof {
            assert(s@ =~= start + seq!['['] + join(items.take(i + 1)));
        }
        i = i + 1;
    }
    push_char(s, ']');
    proof {
        assert(items.take(d@.len() as int) =~= items);
        assert(s@ =~= start + cell_json(m));
    }
}

fn push_notes_row(s: &mut String, n: &crate::board::Notes, r: usize)
    requires
        r < 9,
    ensures
        final(s)@ == old(s)@ + notes_row_json(*n, r as int),
{
    let ghost items = Seq::new(9, |c: int| cell_json(n[r as int][c]));
    let ghost start = s@;
    push_char(s, '[');
    let mut c: usize = 0;
    while c < 9
        invariant
            r < 9,
            c <= 9,
            items == Seq::new(9, |c: int| cell_json(n[r as int][c])),
            s@ == start + seq!['['] + join(items.take(c as int)),
        decreases 9 - c,
    {
        proof {
            lemma_join_next(items, c as int);
        }
        if c > 0 {
            push_char(s, ',');
        }
        push_cell(s, n[r][c]);
        proof {
            assert(s@ =~= start + seq!['['] + join(items.take(c + 1)));
        }
        c = c + 1;
    }
    push_char(s, ']');
    proof {
        assert(items.take(9) =~= items);
        assert(s@ =~= start + notes_row_json(*n, r as int));
    }
}

impl Sudoku {
    /// The board and the candidates as JSON:
    /// `{"board":[[..],..],"candidates":[[[..],..],..]}`, candidates in increasing order.
    #[verifier::spinoff_prover]
    #[verifier::rlimit(30)]
    pub fn to_json(&self) -> (json: String)
        ensures
            json@ == json_of(*self),
    {
        let mut s = String::new();
        let ghost head = seq!['{', '"', 'b', 'o', 'a', 'r', 'd', '"', ':'];
        push_char(&mut s, '{');
        push_char(&mut s, '"');
        push_char(&mut s, 'b');
        push_char(&mut s, 'o');
        push_char(&mut s, 'a');
        push_char(&mut s, 'r');
        push_char(&mut s, 'd');
        push_char(&mut s, '"');
        push_char(&mut s, ':');
        proof {
            assert(s@ =~= head);
        }
        let ghost rows = Seq::new(9, |r: int| board_row_json(self.board, r));
        push_char(&mut s, '[');
        let mut r: usize = 0;
        while r < 9
            invariant
                r <= 9,
                rows == Seq::new(9, |r: int| board_row_json(self.board, r)),
                s@ == head + seq!['['] + join(rows.take(r as int)),
            decreases 9 - r,
        {
            proof {
                lemma_join_next(rows, r as int);
            }
            if r > 0 {
                push_char(&mut s, ',');
            }
            push_board_row(&mut s, &self.board, r);
            proof {
                assert(s@ =~= head + seq!['['] + join(rows.take(r + 1)));
            }
            r = r + 1;
        }
        push_char(&mut s, ']');
        proof {
            assert(rows.take(9) =~= rows);
            assert(s@ =~= head + board_json(self.board));
        }
        let ghost mid = s@;
        let ghost label = seq![',', '"', 'c', 'a', 'n', 'd', 'i', 'd', 'a', 't', 'e', 's', '"', ':'];
        push_char(&mut s, ',');
        push_char(&mut s, '"');
        push_char(&mut s, 'c');
        push_char(&mut s, 'a');
        push_char(&mut s, 'n');
        push_char(&mut s, 'd');
        push_char(&mut s, 'i');
        push_char(&mut s, 'd');
        push_char(&mut s, 'a');
        push_char(&mut s, 't');
        push_char(&mut s, 'e');
        push_char(&mut s, 's');
        push_char(&mut s, '"');
        push_char(&mut s, ':');
        proof {
            assert(s@ =~= mid + label);
        }
        let ghost mid2 = s@;
        let ghost nrows = Seq::new(9, |r: int| notes_row_json(self.candidates, r));
        push_char(&mut s, '[');
        let mut r: usize = 0;
        while r < 9
            invariant
                r <= 9,
                nrows == Seq::new(9, |r: int| notes_row_json(self.candidates, r)),
                s@ == mid2 + seq!['['] + join(nrows.take(r as int)),
            decreases 9 - r,
        {
            proof {
                lemma_join_next(nrows, r as int);
            }
            if r > 0 {
                push_char(&mut s, ',');
            }
            push_notes_row(&mut s, &self.candidates, r);
            proof {
                assert(s@ =~= mid2 + seq!['['] + join(nrows.take(r + 1)));
            }
            r = r + 1;
        }
        push_char(&mut s, ']');
        push_char(&mut s, '}');
        proof {
            assert(nrows.take(9) =~= nrows);
            assert(s@ =~= json_of(*self));
        }
        s
    }
}

/// The grid written as 81 characters `'0' + value`, row by row.
fn grid_string(g: &Grid) -> (s: String)
    requires
        printable(*g),
    ensures
        s@ == grid_chars(*g),
{
    let mut s = String::new();
    let mut k: usize = 0;
    while k < 81
        invariant
            k <= 81,
            printable(*g),
            s@ == grid_chars(*g).take(k as int),
        decreases 81 - k,
    {
        let v = g[k / 9][k % 9];
        assert(in_grid(k as int / 9, k as int % 9));
        let ch = (v + 48u8) as char;
        push_char(&mut s, ch);
        proof {
            assert(grid_chars(*g).take(k + 1) =~= grid_chars(*g).take(k as int).push(ch));
        }
        k = k + 1;
    }
    assert(grid_chars(*g).take(81) =~= grid_chars(*g));
    s
}

/// Byte `k` of the binary form: first the board, two cells a byte (high nibble first, the
/// last byte of a row padded with 0), 5 bytes a row; then the candidates, 5 bytes a cell,
/// byte `j` holding `2j + 1` in its high nibble and `2j + 2` in its low nibble when the cell
/// has them, 0 otherwise.
pub open spec fn binary_byte(s: Sudoku, k: int) -> u8 {
    if k < 45 {
        let row = k / 5;
        let j = k % 5;
        let hi = s.board[row][2 * j] % 16;
        let lo = if 2 * j + 1 < 9 { s.board[row][2 * j + 1] % 16 } else { 0 };
        (hi * 16 + lo) as u8
    } else {
        let cell = (k - 45) / 5;
        let d = 2 * ((k - 45) % 5) + 1;
        let hi = if s.cand(cell / 9, cell % 9, d) { d } else { 0 };
        let lo = if s.cand(cell / 9, cell % 9, d + 1) { d + 1 } else { 0 };
        (hi * 16 + lo) as u8
    }
}

/// The 450 bytes of the binary form.
pub open spec fn binary_of(s: Sudoku) -> Seq<u8> {
    Seq::new(450, |k: int| binary_byte(s, k))
}

/// The cell value that the binary form `b` gives the cell `(r, c)`.
pub open spec fn nibble_board(b: Seq<u8>, r: int, c: int) -> u8 {
    let byte = b[5 * r + c / 2];
    if c % 2 == 0 {
        byte / 16
    } else {
        byte % 16
    }
}

/// Whether the binary form `b` gives the cell `(r, c)` the candidate `n`: some nibble of the
/// cell's 5 bytes holds `n`, and `n` is not 0.
pub open spec fn nibble_cand(b: Seq<u8>, r: int, c: int, n: int) -> bool {
    n != 0 && exists|j: int|
        0 <= j < 5 && (#[trigger] b[45 + 5 * (9 * r + c) + j] / 16 == n || b[45 + 5 * (9 * r + c) + j] % 16 == n)
}

/// `s` is what the binary form `b` reads as: the board and the candidates of `b`, an empty
/// original board, no rating, no undo stack.
pub open spec fn read_from_binary(b: Seq<u8>, s: Sudoku) -> bool {
    &&& forall|r: int, c: int| in_grid(r, c) ==> s.board[r][c] == nibble_board(b, r, c)
    &&& forall|r: int, c: int, n: int| in_grid(r, c) ==> #[trigger] s.cand(r, c, n) == nibble_cand(b, r, c, n)
    &&& all_cells_zero(s.original_board)
    &&& all_zero_rating(s.rating)
    &&& s.undo_stack@.len() == 0
}

/// The bytes that zstd's streaming encoder writes for `data` at compression level `level`.
pub uninterp spec fn zstd_encoded(data: Seq<u8>, level: i32) -> Seq<u8>;

/// The bytes that zstd's streaming decoder reads from `data`; none when it fails.
pub uninterp spec fn zstd_decoded(data: Seq<u8>) -> Option<Seq<u8>>;

/// The compression level of the compressed form.
pub const ZSTD_LEVEL: i32 = 21;

/// Compresses with `zstd::stream::Encoder` at compression level `level` into a vector.
/// The contract names the output, and states that zstd's decoder gives the input back,
/// as zstd is a lossless format. The level must be one that zstd accepts.
#[verifier::external_body]
fn zstd_compress(data: &[u8], level: i32) -> (v: Vec<u8>)
    requires
        1 <= level <= 22,
    ensures
        v@ == zstd_encoded(data@, level),
        zstd_decoded(v@) == Some(data@),
{
    let mut compressed_data = Vec::new();
    let mut encoder = zstd::stream::Encoder::new(&mut compressed_data, level).unwrap();
    std::io::Write::write_all(&mut encoder, data).unwrap();
    encoder.finish().unwrap();
    compressed_data
}

/// Decompresses with `zstd::stream::Decoder`, copying all it reads into a vector; `None`
/// when the decoder cannot be made or reading fails. The contract names the outcome.
#[verifier::external_body]
fn zstd_decompress(data: &[u8]) -> (res: Option<Vec<u8>>)
    ensures
        match res {
            Some(v) => zstd_decoded(data@) == Some(v@),
            None => zstd_decoded(data@) is None,
        },
{
    let mut decoder = match zstd::stream::Decoder::new(data) {
        Ok(d) => d,
        Err(_) => return None,
    };
    let mut out: Vec<u8> = Vec::new();
    match std::io::copy(&mut decoder, &mut out) {
        Ok(_) => Some(out),
        Err(_) => None,
    }
}

impl Sudoku {
    /// The binary form, compressed with zstd at level 21.
    pub fn to_zstd(&self) -> (v: Vec<u8>)
        ensures
            v@ == zstd_encoded(binary_of(*self), ZSTD_LEVEL),
            zstd_decoded(v@) == Some(binary_of(*self)),
    {
        let binary = self.to_binary();
        zstd_compress(binary.as_slice(), ZSTD_LEVEL)
    }

    /// Read a Sudoku from its zstd-compressed binary form; the data must decompress.
    pub fn from_zstd(binary: &[u8]) -> (res: Result<Sudoku, SudokuError>)
        requires
            zstd_decoded(binary@) is Some,
        ensures
            zstd_decoded(binary@)->0.len() != 450 ==> res is Err,
            zstd_decoded(binary@)->0.len() == 450 ==> (res matches Ok(s) && read_from_binary(zstd_decoded(binary@)->0, s)),
    {
        match zstd_decompress(binary) {
            Some(data) => Sudoku::from_binary(data.as_slice()),
            None => Err(SudokuError { message: String::from_str("Invalid zstd data") }),
        }
    }

    /// Read a Sudoku from zstd-compressed data, if the data decompresses; see `from_zstd`.
    pub fn try_from_zstd(binary: &[u8]) -> (res: Option<Result<Sudoku, SudokuError>>)
        ensures
            res is None <==> zstd_decoded(binary@) is None,
            res matches Some(r) ==> {
                &&& zstd_decoded(binary@)->0.len() != 450 ==> r is Err
                &&& zstd_decoded(binary@)->0.len() == 450 ==> (r matches Ok(s) && read_from_binary(zstd_decoded(binary@)->0, s))
            },
    {
        match zstd_decompress(binary) {
            Some(_) => Some(Sudoku::from_zstd(binary)),
            None => None,
        }
    }

    /// The binary form; see `binary_byte`.
    pub fn to_binary(&self) -> (v: Vec<u8>)
        ensures
            v@ == binary_of(*self),
    {
        let mut v: Vec<u8> = Vec::new();
        let mut k: usize = 0;
        while k < 45
            invariant
                k <= 45,
                v@ == binary_of(*self).take(k as int),
            decreases 45 - k,
        {
            let row = k / 5;
            let j = k % 5;
            let hi: u8 = self.board[row][2 * j] % 16;
            let lo: u8 = if 2 * j + 1 < 9 { self.board[row][2 * j + 1] % 16 } else { 0 };
            let byte: u8 = hi * 16 + lo;
            proof {
                assert(binary_of(*self).take(k + 1) =~= binary_of(*self).take(k as int).push(byte));
            }
            v.push(byte);
            k = k + 1;
        }
        while k < 450
            invariant
                45 <= k <= 450,
                v@ == binary_of(*self).take(k as int),
            decreases 450 - k,
        {
            let cell = (k - 45) / 5;
            let d: u8 = (2 * ((k - 45) % 5) + 1) as u8;
            let mask = self.candidates[cell / 9][cell % 9];
            let hi: u8 = if mask_has(mask, d) { d } else { 0 };
            let lo: u8 = if mask_has(mask, d + 1) { d + 1 } else { 0 };
            let byte: u8 = hi * 16 + lo;
            proof {
                assert(binary_of(*self).take(k + 1) =~= binary_of(*self).take(k as int).push(byte));
            }
            v.push(byte);
            k = k + 1;
        }
        proof {
            assert(binary_of(*self).take(450) =~= binary_of(*self));
        }
        v
    }

    /// Read a Sudoku from its binary form: the board, and the candidates of each cell (every
    /// non-zero nibble of its 5 bytes). Anything but 450 bytes is refused.
    pub fn from_binary(binary: &[u8]) -> (res: Result<Sudoku, SudokuError>)
        ensures
            binary@.len() != 450 ==> res is Err,
            binary@.len() == 450 ==> (res matches Ok(s) && read_from_binary(binary@, s)),
    {
        if binary.len() != 450 {
            return Err(SudokuError { message: String::from_str("Invalid binary data: must contain exactly 450 bytes") });
        }
        let mut sudoku = Sudoku::new();
        let mut k: usize = 0;
        while k < 81
            invariant
                k <= 81,
                binary@.len() == 450,
                all_cells_zero(sudoku.original_board),
                all_zero_rating(sudoku.rating),
                sudoku.undo_stack@.len() == 0,
                forall|i: int, l: int| in_grid(i, l) && 9 * i + l < k ==> sudoku.board[i][l] == #[trigger] nibble_board(binary@, i, l),
            decreases 81 - k,
        {
            let r = k / 9;
            let c = k % 9;
            let byte = binary[5 * r + c / 2];
            let v: u8 = if c % 2 == 0 { byte / 16 } else { byte % 16 };
            sudoku.board[r][c] = v;
            proof {
                assert forall|i: int, l: int| in_grid(i, l) && 9 * i + l < k + 1 implies sudoku.board[i][l] == #[trigger] nibble_board(binary@, i, l) by {
                    if 9 * i + l == k {
                        assert(i == r && l == c);
                    }
                }
            }
            k = k + 1;
        }
        let mut k: usize = 0;
        while k < 81
            invariant
                k <= 81,
                binary@.len() == 450,
                all_cells_zero(sudoku.original_board),
                all_zero_rating(sudoku.rating),
                sudoku.undo_stack@.len() == 0,
                forall|i: int, l: int| in_grid(i, l) ==> sudoku.board[i][l] == #[trigger] nibble_board(binary@, i, l),
                forall|i: int, l: int, n: int| in_grid(i, l) && 9 * i + l < k ==> #[trigger] sudoku.cand(i, l, n) == nibble_cand(binary@, i, l, n),
            decreases 81 - k,
        {
            let r = k / 9;
            let c = k % 9;
            let mut mask: u16 = 0;
            proof {
                lemma_empty_mask();
            }
            let mut j: usize = 0;
            while j < 5
                invariant
                    k < 81,
                    r == k / 9,
                    c == k % 9,
                    j <= 5,
                    binary@.len() == 450,
                    forall|n: int| #[trigger] in_mask(mask, n) == (n != 0 && exists|i: int|
                        0 <= i < j && (#[trigger] binary@[45 + 5 * k + i] / 16 == n || binary@[45 + 5 * k + i] % 16 == n)),
                decreases 5 - j,
            {
                let byte = binary[45 + 5 * k + j];
                let hi: u8 = byte / 16;
                let lo: u8 = byte % 16;
                let ghost prev = mask;
                if hi != 0 {
                    mask = mask_insert(mask, hi);
                }
                let ghost mid = mask;
                if lo != 0 {
                    mask = mask_insert(mask, lo);
                }
                proof {
                    assert forall|n: int| #[trigger] in_mask(mask, n) == (n != 0 && exists|i: int|
                        0 <= i < j + 1 && (#[trigger] binary@[45 + 5 * k + i] / 16 == n || binary@[45 + 5 * k + i] % 16 == n)) by {
                        assert(in_mask(prev, n) == (n != 0 && exists|i: int|
                            0 <= i < j && (#[trigger] binary@[45 + 5 * k + i] / 16 == n || binary@[45 + 5 * k + i] % 16 == n)));
                        if n != 0 && (binary@[45 + 5 * k + j] / 16 == n || binary@[45 + 5 * k + j] % 16 == n) {
                            assert(in_mask(mask, n));
                        }
                        if in_mask(mask, n) && !in_mask(prev, n) {
                            assert(n == hi || n == lo);
                        }
                    }
                }
                j = j + 1;
            }
            let ghost before = sudoku.candidates;
            let ghost old_s = sudoku;
            sudoku.candidates[r][c] = mask;
            proof {
                assert forall|i: int, l: int, n: int| in_grid(i, l) && 9 * i + l < k + 1 implies #[trigger] sudoku.cand(i, l, n) == nibble_cand(binary@, i, l, n) by {
                    if 9 * i + l < k {
                        assert(sudoku.candidates[i][l] == before[i][l]);
                        assert(old_s.cand(i, l, n) == nibble_cand(binary@, i, l, n));
                    } else {
                        assert(i == r && l == c);
                        if nibble_cand(binary@, i, l, n) {
                            let jj = choose|jj: int| 0 <= jj < 5 && (#[trigger] binary@[45 + 5 * (9 * i + l) + jj] / 16 == n || binary@[45 + 5 * (9 * i + l) + jj] % 16 == n);
                            assert(binary@[45 + 5 * k + jj] / 16 == n || binary@[45 + 5 * k + jj] % 16 == n);
                        }
                        if in_mask(mask, n) {
                            let jj = choose|jj: int| 0 <= jj < 5 && (#[trigger] binary@[45 + 5 * k + jj] / 16 == n || binary@[45 + 5 * k + jj] % 16 == n);
                            assert(binary@[45 + 5 * (9 * i + l) + jj] / 16 == n || binary@[45 + 5 * (9 * i + l) + jj] % 16 == n);
                        }
                    }
                }
            }
            k = k + 1;
        }
        Ok(sudoku)
    }
}

proof fn lemma_binary_cell(s: Sudoku, r: int, c: int)
    requires
        in_grid(r, c),
        s.board[r][c] < 16,
    ensures
        nibble_board(binary_of(s), r, c) == s.board[r][c],
{
    let k = 5 * r + c / 2;
    assert(k / 5 == r && k % 5 == c / 2);
    let byte = binary_byte(s, k);
    assert(binary_of(s)[k] == byte);
    if c % 2 == 0 {
        assert(2 * (c / 2) == c);
        let hi = s.board[r][c] % 16;
        let lo = if 2 * (c / 2) + 1 < 9 { s.board[r][2 * (c / 2) + 1] % 16 } else { 0 };
        assert(byte == hi * 16 + lo);
        assert(byte / 16 == hi);
    } else {
        assert(2 * (c / 2) + 1 == c);
        let hi = s.board[r][c - 1] % 16;
        let lo = s.board[r][c] % 16;
        assert(byte == hi * 16 + lo);
        assert(byte % 16 == lo);
    }
}

proof fn lemma_binary_cand(s: Sudoku, r: int, c: int, n: int)
    requires
        in_grid(r, c),
    ensures
        nibble_cand(binary_of(s), r, c, n) == (1 <= n <= 10 && s.cand(r, c, n)),
{
    let b = binary_of(s);
    let cell = 9 * r + c;
    assert(cell / 9 == r && cell % 9 == c);
    assert forall|j: int| 0 <= j < 5 implies {
        let byte = #[trigger] b[45 + 5 * cell + j];
        let d = 2 * j + 1;
        &&& byte / 16 == if s.cand(r, c, d) { d } else { 0 }
        &&& byte % 16 == if s.cand(r, c, d + 1) { d + 1 } else { 0 }
    } by {
        let k = 45 + 5 * cell + j;
        assert((k - 45) / 5 == cell && (k - 45) % 5 == j);
        assert(b[k] == binary_byte(s, k));
    }
    if nibble_cand(b, r, c, n) {
        let j = choose|j: int| 0 <= j < 5 && (#[trigger] b[45 + 5 * (9 * r + c) + j] / 16 == n || b[45 + 5 * (9 * r + c) + j] % 16 == n);
        assert(b[45 + 5 * cell + j] / 16 == n || b[45 + 5 * cell + j] % 16 == n);
    }
    if 1 <= n <= 10 && s.cand(r, c, n) {
        let j = (n - 1) / 2;
        assert(b[45 + 5 * cell + j] / 16 == n || b[45 + 5 * cell + j] % 16 == n);
    }
}

/// Reading back the binary form gives the board, when every cell value fits a nibble, and
/// the candidates `1..=10` of every cell.
pub proof fn lemma_binary_roundtrip(s: Sudoku)
    requires
        forall|r: int, c: int| in_grid(r, c) ==> s.board[r][c] < 16,
    ensures
        forall|r: int, c: int| in_grid(r, c) ==> #[trigger] nibble_board(binary_of(s), r, c) == s.board[r][c],
        forall|r: int, c: int, n: int|
            in_grid(r, c) ==> #[trigger] nibble_cand(binary_of(s), r, c, n) == (1 <= n <= 10 && s.cand(r, c, n)),
{
    assert forall|r: int, c: int| in_grid(r, c) implies #[trigger] nibble_board(binary_of(s), r, c) == s.board[r][c] by {
        lemma_binary_cell(s, r, c);
    }
    assert forall|r: int, c: int, n: int| in_grid(r, c) implies #[trigger] nibble_cand(binary_of(s), r, c, n) == (1 <= n <= 10 && s.cand(r, c, n)) by {
        lemma_binary_cand(s, r, c, n);
    }
}

} // verus!
