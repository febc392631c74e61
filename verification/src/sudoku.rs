//! The first solver: each strategy acts on the notes at once and reports how many notes
//! it took away.

use vstd::prelude::*;

use crate::board::{
    all_cells_zero, all_notes_empty, box_of, empty_below, empty_cells, grid_set, in_box, in_col, in_grid, in_row, peers,
    placeable, same_box, valid_completion, Sudoku as Puzzle,
};
use crate::codec::{digits_of, grid_chars, printable};
use crate::collect::{house_hits};
use crate::digits::{count, in_mask, lemma_empty_mask, mask_has, mask_insert, mask_len, mask_remove};
use crate::{Candidate, Unit, EMPTY};

verus! {

/// A strategy of the first solver.
#[derive(Debug, Clone, Copy, PartialEq, Eq, Structural, Hash)]
pub enum Strategy {
    NoStrategy,
    LastDigit,
    ObviousSingle,
    HiddenSingle,
    ObviousPair,
    HiddenPair,
    PointingPair,
    XWing,
}

pub open spec fn basic_index(s: Strategy) -> int {
    match s {
        Strategy::NoStrategy => 0,
        Strategy::LastDigit => 1,
        Strategy::ObviousSingle => 2,
        Strategy::HiddenSingle => 3,
        Strategy::ObviousPair => 4,
        Strategy::HiddenPair => 5,
        Strategy::PointingPair => 6,
        Strategy::XWing => 7,
    }
}

/// The strategies from the easiest to the hardest.
pub open spec fn basic_by_difficulty(k: int) -> Strategy {
    if k == 0 {
        Strategy::LastDigit
    } else if k == 1 {
        Strategy::ObviousSingle
    } else if k == 2 {
        Strategy::HiddenSingle
    } else if k == 3 {
        Strategy::PointingPair
    } else if k == 4 {
        Strategy::ObviousPair
    } else if k == 5 {
        Strategy::HiddenPair
    } else {
        Strategy::XWing
    }
}

/// The strategies among the first `k` by difficulty that took notes away, with their
/// counts.
pub open spec fn basic_rated(rt: [usize; 8], k: int) -> Seq<(Strategy, usize)>
    decreases k,
{
    if k <= 0 {
        Seq::empty()
    } else {
        let st = basic_by_difficulty(k - 1);
        let n = rt[basic_index(st)];
        if n > 0 {
            basic_rated(rt, k - 1).push((st, n))
        } else {
            basic_rated(rt, k - 1)
        }
    }
}

/// The `k`-th strategy by difficulty.
fn basic_of_rank(k: usize) -> (st: Strategy)
    requires
        k < 7,
    ensures
        st == basic_by_difficulty(k as int),
{
    if k == 0 {
        Strategy::LastDigit
    } else if k == 1 {
        Strategy::ObviousSingle
    } else if k == 2 {
        Strategy::HiddenSingle
    } else if k == 3 {
        Strategy::PointingPair
    } else if k == 4 {
        Strategy::ObviousPair
    } else if k == 5 {
        Strategy::HiddenPair
    } else {
        Strategy::XWing
    }
}

/// The order by difficulty is by increasing difficulty.
pub proof fn lemma_basic_by_difficulty(i: int, j: int)
    requires
        0 <= i <= j < 7,
    ensures
        basic_difficulty(basic_by_difficulty(i)) <= basic_difficulty(basic_by_difficulty(j)),
{
}

/// The strategy whose count sits at slot `i` of a rating.
pub open spec fn basic_at(i: int) -> Strategy {
    if i == 0 {
        Strategy::NoStrategy
    } else if i == 1 {
        Strategy::LastDigit
    } else if i == 2 {
        Strategy::ObviousSingle
    } else if i == 3 {
        Strategy::HiddenSingle
    } else if i == 4 {
        Strategy::ObviousPair
    } else if i == 5 {
        Strategy::HiddenPair
    } else if i == 6 {
        Strategy::PointingPair
    } else {
        Strategy::XWing
    }
}

/// The effort of one note taken away by the strategy.
pub open spec fn basic_difficulty(s: Strategy) -> int {
    match s {
        Strategy::NoStrategy => 0,
        Strategy::LastDigit => 4,
        Strategy::ObviousSingle => 5,
        Strategy::HiddenSingle => 14,
        Strategy::PointingPair => 50,
        Strategy::ObviousPair => 60,
        Strategy::HiddenPair => 70,
        Strategy::XWing => 140,
    }
}

/// The notes counted in the first `k` slots of a rating.
pub open spec fn basic_removed_upto(rt: [usize; 8], k: int) -> int
    decreases k,
{
    if k <= 0 {
        0
    } else {
        basic_removed_upto(rt, k - 1) + rt[k - 1]
    }
}

/// The notes counted in the first `k` slots of a rating, each weighted by the difficulty
/// of its strategy.
pub open spec fn basic_weighted_upto(rt: [usize; 8], k: int) -> int
    decreases k,
{
    if k <= 0 {
        0
    } else {
        basic_weighted_upto(rt, k - 1) + basic_difficulty(basic_at(k - 1)) * rt[k - 1]
    }
}

/// The strategy whose count sits at slot `i`.
fn basic_of_slot(i: usize) -> (s: Strategy)
    requires
        i < 8,
    ensures
        s == basic_at(i as int),
{
    if i == 0 {
        Strategy::NoStrategy
    } else if i == 1 {
        Strategy::LastDigit
    } else if i == 2 {
        Strategy::ObviousSingle
    } else if i == 3 {
        Strategy::HiddenSingle
    } else if i == 4 {
        Strategy::ObviousPair
    } else if i == 5 {
        Strategy::HiddenPair
    } else if i == 6 {
        Strategy::PointingPair
    } else {
        Strategy::XWing
    }
}

impl Strategy {
    /// The name of the strategy.
    pub fn to_string(&self) -> (s: &'static str)
        ensures
            s@ == match *self {
                Strategy::NoStrategy => "none"@,
                Strategy::LastDigit => "last digit"@,
                Strategy::ObviousSingle => "obvious single"@,
                Strategy::HiddenSingle => "hidden single"@,
                Strategy::PointingPair => "pointing pair"@,
                Strategy::ObviousPair => "obvious pair"@,
                Strategy::HiddenPair => "hidden pair"@,
                Strategy::XWing => "x-wing"@,
            },
    {
        match self {
            Strategy::NoStrategy => "none",
            Strategy::LastDigit => "last digit",
            Strategy::ObviousSingle => "obvious single",
            Strategy::HiddenSingle => "hidden single",
            Strategy::PointingPair => "pointing pair",
            Strategy::ObviousPair => "obvious pair",
            Strategy::HiddenPair => "hidden pair",
            Strategy::XWing => "x-wing",
        }
    }

    /// The effort of one note taken away by the strategy.
    pub fn difficulty(&self) -> (d: i32)
        ensures
            d == basic_difficulty(*self),
    {
        match self {
            Strategy::NoStrategy => 0,
            Strategy::LastDigit => 4,
            Strategy::ObviousSingle => 5,
            Strategy::HiddenSingle => 14,
            Strategy::PointingPair => 50,
            Strategy::ObviousPair => 60,
            Strategy::HiddenPair => 70,
            Strategy::XWing => 140,
        }
    }

    /// The slot of the strategy in a rating.
    pub fn index(&self) -> (i: usize)
        ensures
            i == basic_index(*self),
            i < 8,
    {
        match self {
            Strategy::NoStrategy => 0,
            Strategy::LastDigit => 1,
            Strategy::ObviousSingle => 2,
            Strategy::HiddenSingle => 3,
            Strategy::ObviousPair => 4,
            Strategy::HiddenPair => 5,
            Strategy::PointingPair => 6,
            Strategy::XWing => 7,
        }
    }
}

/// A note: the candidate `num` of the cell `(row, col)`.
#[derive(Debug, Clone, Copy)]
pub struct Note {
    pub row: usize,
    pub col: usize,
    pub num: u8,
}

/// A cell of the grid.
#[derive(Debug, Clone, Copy)]
pub struct Coord {
    pub row: usize,
    pub col: usize,
}

/// What a strategy found, for display.
#[derive(Debug)]
pub struct StrategyResult {
    pub strategy: Strategy,
    pub cell_affected: Coord,
    pub candidates_affected: Vec<Note>,
    pub candidates_about_to_be_removed: Vec<Note>,
}

/// What a step did: how many notes it took away, and by which strategy.
#[derive(Debug)]
pub struct Resolution {
    pub nums_removed: usize,
    pub strategy: Strategy,
}

/// The grid with its notes, and how many notes each strategy took away.
#[derive(Debug)]
pub struct Sudoku {
    pub grid: Puzzle,
    pub rating: [usize; 8],
}

/// The candidate numbered `k = 144 * row + 16 * col + num`.
pub open spec fn cand_of(k: int) -> Candidate {
    Candidate { row: (k / 144) as usize, col: ((k / 16) % 9) as usize, num: (k % 16) as u8 }
}

/// How many of the candidates numbered below `k` lie in `r`.
pub open spec fn count_in(r: Set<Candidate>, k: int) -> nat
    decreases k,
{
    if k <= 0 {
        0
    } else {
        count_in(r, k - 1) + if r.contains(cand_of(k - 1)) { 1nat } else { 0nat }
    }
}

/// The notes of the cells of the row, the column and the box of `(row, col)`, with a
/// digit in `nums`.
pub open spec fn around_hits(s: Puzzle, nums: u16, row: int, col: int) -> Set<Candidate> {
    Set::new(
        |x: Candidate|
            x.row < 9 && x.col < 9 && (x.row == row || x.col == col || same_box(row, col, x.row as int, x.col as int))
                && in_mask(nums, x.num as int) && s.cand(x.row as int, x.col as int, x.num as int),
    )
}

/// The notes `num` of the other cells of the row, the column and the box of `(row, col)`.
pub open spec fn peer_hits(s: Puzzle, num: u8, row: int, col: int) -> Set<Candidate> {
    Set::new(
        |x: Candidate|
            x.row < 9 && x.col < 9 && peers(row, col, x.row as int, x.col as int) && x.num == num && s.cand(
                x.row as int,
                x.col as int,
                num as int,
            ),
    )
}

/// `t` is `s` with the notes in `r` taken away, and nothing else changed.
pub open spec fn notes_removed(s: Puzzle, t: Puzzle, r: Set<Candidate>) -> bool {
    &&& t.board == s.board
    &&& t.original_board == s.original_board
    &&& t.rating == s.rating
    &&& t.undo_stack == s.undo_stack
    &&& forall|i: int, j: int, n: int| in_grid(i, j) ==> #[trigger] t.cand(i, j, n) == (s.cand(i, j, n) && !r.contains(
        Candidate { row: i as usize, col: j as usize, num: n as u8 },
    ))
}

/// `t` is `s` with `num` set at `(row, col)`, the notes of that cell gone, and `num` gone
/// from the notes of its row, column and box.
pub open spec fn num_set(s: Puzzle, t: Puzzle, num: u8, row: int, col: int) -> bool {
    &&& grid_set(s.board, t.board, row, col, num)
    &&& t.original_board == s.original_board
    &&& t.rating == s.rating
    &&& t.undo_stack == s.undo_stack
    &&& forall|i: int, j: int, n: int| in_grid(i, j) ==> #[trigger] t.cand(i, j, n) == (s.cand(i, j, n) && !(i == row && j
        == col) && !(peers(row, col, i, j) && n == num))
}

/// Taking away the notes counted by `count_in`: the count over a disjoint union adds up.
pub proof fn lemma_count_in_union(a: Set<Candidate>, b: Set<Candidate>, k: int)
    requires
        a.disjoint(b),
    ensures
        count_in(a.union(b), k) == count_in(a, k) + count_in(b, k),
    decreases k,
{
    if k > 0 {
        lemma_count_in_union(a, b, k - 1);
    }
}

/// Sets that agree on the candidates numbered below `k` count the same.
pub proof fn lemma_count_in_ext(a: Set<Candidate>, b: Set<Candidate>, k: int)
    requires
        forall|i: int| 0 <= i < k ==> a.contains(cand_of(i)) == b.contains(cand_of(i)),
    ensures
        count_in(a, k) == count_in(b, k),
    decreases k,
{
    if k > 0 {
        lemma_count_in_ext(a, b, k - 1);
    }
}

pub proof fn lemma_count_in_bound(a: Set<Candidate>, k: int)
    requires
        k >= 0,
    ensures
        count_in(a, k) <= k,
    decreases k,
{
    if k > 0 {
        lemma_count_in_bound(a, k - 1);
    }
}

/// The number of a candidate of the grid: `144 * row + 16 * col + num`.
pub open spec fn cand_index(x: Candidate) -> int {
    144 * x.row + 16 * x.col + x.num
}

/// A candidate that a note of the grid can be: a cell of the grid and a digit below 16.
pub open spec fn on_grid(x: Candidate) -> bool {
    x.row < 9 && x.col < 9 && x.num < 16
}

/// The notes of `s` among the candidates `r`.
pub open spec fn present(s: Puzzle, r: Set<Candidate>) -> Set<Candidate> {
    r.filter(|x: Candidate| x.row < 9 && x.col < 9 && s.cand(x.row as int, x.col as int, x.num as int))
}

/// The numbering of candidates is one to one on the grid.
pub proof fn lemma_cand_of_index(x: Candidate, k: int)
    requires
        on_grid(x),
        0 <= k < 1296,
    ensures
        (cand_of(k) == x) == (k == cand_index(x)),
{
    let r = x.row as int;
    let c = x.col as int;
    let n = x.num as int;
    if k == cand_index(x) {
        assert(k / 144 == r && (k / 16) % 9 == c && k % 16 == n) by (nonlinear_arith)
            requires
                k == 144 * r + 16 * c + n,
                0 <= r < 9,
                0 <= c < 9,
                0 <= n < 16,
        ;
    } else {
        if cand_of(k) == x {
            assert(k == 144 * (k / 144) + 16 * ((k / 16) % 9) + k % 16) by (nonlinear_arith)
                requires
                    0 <= k < 1296,
            ;
        }
    }
}

/// A set without candidates of the grid counts nothing.
pub proof fn lemma_count_in_none(a: Set<Candidate>, k: int)
    requires
        forall|i: int| 0 <= i < k ==> !a.contains(#[trigger] cand_of(i)),
    ensures
        count_in(a, k) == 0,
    decreases k,
{
    if k > 0 {
        lemma_count_in_none(a, k - 1);
    }
}

/// A single candidate of the grid counts once.
pub proof fn lemma_count_in_single(x: Candidate, k: int)
    requires
        on_grid(x),
        0 <= k <= 1296,
    ensures
        count_in(set![x], k) == if cand_index(x) < k { 1nat } else { 0nat },
    decreases k,
{
    if k > 0 {
        lemma_count_in_single(x, k - 1);
        lemma_cand_of_index(x, k - 1);
    }
}

/// Adding a new candidate of the grid adds one to the count.
pub proof fn lemma_count_in_insert(a: Set<Candidate>, x: Candidate)
    requires
        on_grid(x),
        !a.contains(x),
    ensures
        count_in(a.insert(x), 1296) == count_in(a, 1296) + 1,
{
    assert(cand_index(x) < 1296);
    lemma_count_in_union(a, set![x], 1296);
    lemma_count_in_single(x, 1296);
    assert(a.union(set![x]) =~= a.insert(x));
}

/// Which notes a removal takes away.
#[derive(Debug, Clone, Copy)]
pub enum Rule {
    /// The digits `nums` from the row, the column and the box of `(row, col)`.
    Around { nums: u16, row: usize, col: usize },
    /// The digits `nums` from the cells of house `h` of kind `u` whose position is not in `skip`.
    House { u: Unit, h: usize, skip: u16, nums: u16 },
}

pub open spec fn rule_hits(s: Puzzle, rule: Rule) -> Set<Candidate> {
    match rule {
        Rule::Around { nums, row, col } => around_hits(s, nums, row as int, col as int),
        Rule::House { u, h, skip, nums } => house_hits(s, u, h as int, skip, nums),
    }
}

/// The digits of a list as a candidate set.
pub open spec fn nums_mask_ok(nums: Seq<u8>, m: u16) -> bool {
    forall|n: int| #[trigger] in_mask(m, n) == (0 <= n < 16 && nums.contains(n as u8))
}

fn mask_of(nums: &[u8]) -> (m: u16)
    ensures
        nums_mask_ok(nums@, m),
{
    let mut m: u16 = 0;
    proof {
        lemma_empty_mask();
    }
    let mut i: usize = 0;
    while i < nums.len()
        invariant
            i <= nums@.len(),
            forall|n: int| #[trigger] in_mask(m, n) == (0 <= n < 16 && nums@.take(i as int).contains(n as u8)),
        decreases nums@.len() - i,
    {
        proof {
            crate::lemma_take_next(nums@, i as int);
        }
        if nums[i] < 16 {
            m = mask_insert(m, nums[i]);
        }
        proof {
            assert forall|n: int| #[trigger] in_mask(m, n) == (0 <= n < 16 && nums@.take(i + 1).contains(n as u8)) by {
                if 0 <= n < 16 && n as u8 == nums@[i as int] {
                    assert(nums@[i as int] < 16);
                }
            }
        }
        i = i + 1;
    }
    assert(nums@.take(nums@.len() as int) =~= nums@);
    m
}

/// Whether a rule names a note depends on that note alone.
proof fn lemma_rule_local(s1: Puzzle, s2: Puzzle, rule: Rule, r: int, c: int, n: u8)
    requires
        0 <= r < 9,
        0 <= c < 9,
        s1.cand(r, c, n as int) == s2.cand(r, c, n as int),
    ensures
        rule_hits(s1, rule).contains(Candidate { row: r as usize, col: c as usize, num: n })
            == rule_hits(s2, rule).contains(Candidate { row: r as usize, col: c as usize, num: n }),
{
}

impl Sudoku {
    /// Whether the note `(r, c, n)` is one the rule takes away.
    fn rule_test(&self, rule: Rule, r: usize, c: usize, n: u8) -> (b: bool)
        requires
            r < 9,
            c < 9,
        ensures
            b == rule_hits(self.grid, rule).contains(Candidate { row: r, col: c, num: n }),
    {
        if !mask_has(self.grid.candidates[r][c], n) {
            return false;
        }
        match rule {
            Rule::Around { nums, row, col } => (r == row || c == col || (row / 3 == r / 3 && col / 3 == c / 3)) && mask_has(nums, n),
            Rule::House { u, h, skip, nums } => crate::collect::is_in_house(u, h, r, c) && !mask_has(
                skip,
                crate::collect::get_house_pos(u, r, c) as u8,
            ) && mask_has(nums, n),
        }
    }

    /// Take away the notes that the rule names, and count them.
    #[verifier::rlimit(40)]
    pub(crate) fn take_notes(&mut self, rule: Rule) -> (n: usize)
        ensures
            notes_removed(old(self).grid, final(self).grid, rule_hits(old(self).grid, rule)),
            n == count_in(rule_hits(old(self).grid, rule), 1296),
            n <= 1296,
            final(self).rating == old(self).rating,
    {
        let ghost hits = rule_hits(old(self).grid, rule);
        let mut total: usize = 0;
        let mut k: usize = 0;
        while k < 1296
            invariant
                k <= 1296,
                hits == rule_hits(old(self).grid, rule),
                total == count_in(hits, k as int),
                total <= k,
                self.rating == old(self).rating,
                self.grid.board == old(self).grid.board,
                self.grid.original_board == old(self).grid.original_board,
                self.grid.rating == old(self).grid.rating,
                self.grid.undo_stack == old(self).grid.undo_stack,
                forall|i: int, j: int, m: int|
                    in_grid(i, j) ==> #[trigger] self.grid.cand(i, j, m) == (old(self).grid.cand(i, j, m) && !(hits.contains(
                        Candidate { row: i as usize, col: j as usize, num: m as u8 },
                    ) && 144 * i + 16 * j + m < k)),
            decreases 1296 - k,
        {
            let r = k / 144;
            let c = (k / 16) % 9;
            let n: u8 = (k % 16) as u8;
            let ghost g0 = self.grid;
            proof {
                assert(cand_of(k as int) == Candidate { row: r, col: c, num: n });
                assert(g0.cand(r as int, c as int, n as int) == (old(self).grid.cand(r as int, c as int, n as int) && !(hits.contains(
                    Candidate { row: r, col: c, num: n },
                ) && 144 * r + 16 * c + n < k)));
                lemma_rule_local(self.grid, old(self).grid, rule, r as int, c as int, n);
            }
            let hit = self.rule_test(rule, r, c, n);
            if hit {
                self.grid.candidates[r][c] = mask_remove(self.grid.candidates[r][c], n);
                total = total + 1;
            }
            proof {
                assert forall|i: int, j: int, m: int|
                    in_grid(i, j) implies #[trigger] self.grid.cand(i, j, m) == (old(self).grid.cand(i, j, m) && !(hits.contains(
                        Candidate { row: i as usize, col: j as usize, num: m as u8 },
                    ) && 144 * i + 16 * j + m < k + 1)) by {
                    assert(g0.cand(i, j, m) == (old(self).grid.cand(i, j, m) && !(hits.contains(
                        Candidate { row: i as usize, col: j as usize, num: m as u8 },
                    ) && 144 * i + 16 * j + m < k)));
                    if i == r && j == c && m == n {
                        assert(144 * i + 16 * j + m == k);
                        if hit {
                            assert(!self.grid.cand(i, j, m));
                        } else {
                            assert(self.grid.candidates[i][j] == g0.candidates[i][j]);
                        }
                    } else {
                        if i == r && j == c {
                            if hit {
                                assert(self.grid.cand(i, j, m) == g0.cand(i, j, m));
                            } else {
                                assert(self.grid.candidates[i][j] == g0.candidates[i][j]);
                            }
                        } else {
                            assert(self.grid.candidates[i][j] == g0.candidates[i][j]);
                        }
                        if 0 <= m < 16 {
                            assert(144 * i + 16 * j + m != k);
                        } else {
                            assert(!g0.cand(i, j, m));
                            assert(!self.grid.cand(i, j, m));
                        }
                    }
                }
            }
            k = k + 1;
        }
        proof {
            assert forall|i: int, j: int, m: int| in_grid(i, j) implies #[trigger] self.grid.cand(i, j, m) == (old(self).grid.cand(i, j, m)
                && !hits.contains(Candidate { row: i as usize, col: j as usize, num: m as u8 })) by {
                if old(self).grid.cand(i, j, m) {
                    assert(m < 16);
                }
            }
        }
        total
    }

    /// Take away the listed candidates that are notes of the grid, and count them.
    pub fn take_listed(&mut self, v: &Vec<Candidate>) -> (n: usize)
        ensures
            notes_removed(old(self).grid, final(self).grid, v@.to_set()),
            n == count_in(present(old(self).grid, v@.to_set()), 1296),
            final(self).rating == old(self).rating,
    {
        let ghost s0 = self.grid;
        let mut total: usize = 0;
        let mut i: usize = 0;
        proof {
            assert(present(s0, v@.take(0).to_set()) =~= Set::empty());
            lemma_count_in_none(Set::empty(), 1296);
        }
        while i < v.len()
            invariant
                i <= v@.len(),
                total == count_in(present(s0, v@.take(i as int).to_set()), 1296),
                total <= 1296,
                self.rating == old(self).rating,
                s0 == old(self).grid,
                notes_removed(s0, self.grid, v@.take(i as int).to_set()),
            decreases v@.len() - i,
        {
            let x = v[i];
            let ghost before = v@.take(i as int).to_set();
            let ghost g0 = self.grid;
            proof {
                assert(v@.take(i + 1) =~= v@.take(i as int).push(x));
                v@.take(i as int).lemma_push_to_set_commute(x);
            }
            if x.row < 9 && x.col < 9 && mask_has(self.grid.candidates[x.row][x.col], x.num) {
                self.grid.candidates[x.row][x.col] = mask_remove(self.grid.candidates[x.row][x.col], x.num);
                proof {
                    assert(g0.cand(x.row as int, x.col as int, x.num as int));
                    assert(x.num < 16);
                    assert(!present(s0, before).contains(x));
                    assert(present(s0, before.insert(x)) =~= present(s0, before).insert(x));
                    lemma_count_in_insert(present(s0, before), x);
                    lemma_count_in_bound(present(s0, before.insert(x)), 1296);
                    assert forall|a: int, b: int, m: int| in_grid(a, b) implies #[trigger] self.grid.cand(a, b, m) == (s0.cand(a, b, m)
                        && !before.insert(x).contains(Candidate { row: a as usize, col: b as usize, num: m as u8 })) by {
                        assert(g0.cand(a, b, m) == (s0.cand(a, b, m) && !before.contains(
                            Candidate { row: a as usize, col: b as usize, num: m as u8 },
                        )));
                        if a == x.row && b == x.col {
                            if s0.cand(a, b, m) {
                                assert(0 <= m < 16);
                                if m == x.num {
                                    assert(Candidate { row: a as usize, col: b as usize, num: m as u8 } == x);
                                } else {
                                    assert(Candidate { row: a as usize, col: b as usize, num: m as u8 } != x);
                                }
                            }
                        } else {
                            assert(self.grid.candidates[a][b] == g0.candidates[a][b]);
                        }
                    }
                }
                total = total + 1;
            } else {
                proof {
                    if x.row < 9 && x.col < 9 {
                        assert(g0.cand(x.row as int, x.col as int, x.num as int) == (s0.cand(x.row as int, x.col as int, x.num as int)
                            && !before.contains(Candidate { row: x.row, col: x.col, num: x.num as int as u8 })));
                    }
                    assert(present(s0, before.insert(x)) =~= present(s0, before));
                    assert forall|a: int, b: int, m: int| in_grid(a, b) implies #[trigger] self.grid.cand(a, b, m) == (s0.cand(a, b, m)
                        && !before.insert(x).contains(Candidate { row: a as usize, col: b as usize, num: m as u8 })) by {
                        if a == x.row && b == x.col && s0.cand(a, b, m) && m as u8 == x.num {
                            assert(0 <= m < 16);
                        }
                    }
                }
            }
            i = i + 1;
        }
        proof {
            assert(v@.take(v@.len() as int) =~= v@);
        }
        total
    }

    /// Take away the digits `nums` from the notes of row `row`; count them.
    pub fn remove_notes_in_row(&mut self, nums: &[u8], row: usize) -> (n: usize)
        ensures
            exists|m: u16| #[trigger] nums_mask_ok(nums@, m) && notes_removed(old(self).grid, final(self).grid, house_hits(old(self).grid, Unit::Row, row as int, 0u16, m))
                && n == count_in(house_hits(old(self).grid, Unit::Row, row as int, 0u16, m), 1296),
            final(self).rating == old(self).rating,
    {
        let m = mask_of(nums);
        self.take_notes(Rule::House { u: Unit::Row, h: row, skip: 0u16, nums: m })
    }

    /// Take away the digits `nums` from the notes of column `col`; count them.
    pub fn remove_notes_in_col(&mut self, nums: &[u8], col: usize) -> (n: usize)
        ensures
            exists|m: u16| #[trigger] nums_mask_ok(nums@, m) && notes_removed(old(self).grid, final(self).grid, house_hits(old(self).grid, Unit::Column, col as int, 0u16, m))
                && n == count_in(house_hits(old(self).grid, Unit::Column, col as int, 0u16, m), 1296),
            final(self).rating == old(self).rating,
    {
        let m = mask_of(nums);
        self.take_notes(Rule::House { u: Unit::Column, h: col, skip: 0u16, nums: m })
    }

    /// Take away the digits `nums` from the notes of the box of `(row, col)`; count them.
    pub fn remove_notes_in_box(&mut self, nums: &[u8], row: usize, col: usize) -> (n: usize)
        requires
            row < 9,
            col < 9,
        ensures
            exists|m: u16| #[trigger] nums_mask_ok(nums@, m) && notes_removed(old(self).grid, final(self).grid, house_hits(old(self).grid, Unit::Box, box_of(row as int, col as int), 0u16, m))
                && n == count_in(house_hits(old(self).grid, Unit::Box, box_of(row as int, col as int), 0u16, m), 1296),
            final(self).rating == old(self).rating,
    {
        let m = mask_of(nums);
        self.take_notes(Rule::House { u: Unit::Box, h: 3 * (row / 3) + col / 3, skip: 0u16, nums: m })
    }

    /// Take away the digits `nums` from the notes of the row, the column and the box of
    /// `(row, col)`; count them.
    pub fn remove_notes(&mut self, nums: &[u8], row: usize, col: usize) -> (n: usize)
        requires
            row < 9,
            col < 9,
        ensures
            exists|m: u16| #[trigger] nums_mask_ok(nums@, m) && notes_removed(old(self).grid, final(self).grid, around_hits(old(self).grid, m, row as int, col as int))
                && n == count_in(around_hits(old(self).grid, m, row as int, col as int), 1296),
            n <= 1296,
            final(self).rating == old(self).rating,
    {
        let m = mask_of(nums);
        self.take_notes(Rule::Around { nums: m, row, col })
    }

    /// Set `num` at `(row, col)`: its notes go, and `num` goes from the notes of its row,
    /// column and box. Returns how many notes went.
    pub fn set_num(&mut self, num: u8, row: usize, col: usize) -> (n: usize)
        requires
            row < 9,
            col < 9,
        ensures
            num_set(old(self).grid, final(self).grid, num, row as int, col as int),
            n == count(old(self).grid.candidates[row as int][col as int]) + count_in(peer_hits(old(self).grid, num, row as int, col as int), 1296),
            final(self).rating == old(self).rating,
    {
        self.grid.board[row][col] = num;
        let mut total = mask_len(self.grid.candidates[row][col]);
        self.grid.candidates[row][col] = 0;
        let ghost cleared = self.grid;
        proof {
            lemma_empty_mask();
        }
        let nums: [u8; 1] = [num];
        let removed = self.remove_notes(nums.as_slice(), row, col);
        proof {
            let m = choose|m: u16| #[trigger] nums_mask_ok(nums@, m) && notes_removed(cleared, self.grid, around_hits(cleared, m, row as int, col as int))
                && removed == count_in(around_hits(cleared, m, row as int, col as int), 1296);
            assert(nums@ =~= seq![num]);
            assert forall|x: Candidate| around_hits(cleared, m, row as int, col as int).contains(x) == peer_hits(old(self).grid, num, row as int, col as int).contains(x) by {
                if x.row < 9 && x.col < 9 {
                    if x.row == row && x.col == col {
                        assert(!cleared.cand(x.row as int, x.col as int, x.num as int));
                    } else {
                        assert(cleared.candidates[x.row as int][x.col as int] == old(self).grid.candidates[x.row as int][x.col as int]);
                        if in_mask(m, x.num as int) {
                            assert(seq![num].contains(x.num));
                            assert(x.num == num);
                        }
                        if x.num == num && peers(row as int, col as int, x.row as int, x.col as int) {
                            assert(seq![num][0] == x.num);
                            assert(in_mask(m, x.num as int) == (0 <= x.num < 16 && seq![num].contains(x.num)));
                        }
                    }
                }
            }
            assert(around_hits(cleared, m, row as int, col as int) =~= peer_hits(old(self).grid, num, row as int, col as int));
            assert forall|i: int, j: int, n: int| in_grid(i, j) implies #[trigger] self.grid.cand(i, j, n) == (old(self).grid.cand(i, j, n)
                && !(i == row && j == col) && !(peers(row as int, col as int, i, j) && n == num)) by {
                let x = Candidate { row: i as usize, col: j as usize, num: n as u8 };
                if !(i == row && j == col) {
                    assert(cleared.candidates[i][j] == old(self).grid.candidates[i][j]);
                    if old(self).grid.cand(i, j, n) {
                        assert(0 <= n < 16);
                    }
                }
            }
            assert(grid_set(old(self).grid.board, self.grid.board, row as int, col as int, num));
        }
        total = total + removed;
        total
    }
}

/// The board after reading the digits `d` of a text: the first 81 of them fill the cells
/// in order, the original board holds them and is empty beyond them, and the cells beyond
/// them keep their values.
pub open spec fn read_digits(s: Puzzle, t: Puzzle, d: Seq<u8>) -> bool {
    &&& forall|r: int, c: int|
        in_grid(r, c) ==> t.board[r][c] == if 9 * r + c < d.len() { d[9 * r + c] } else { s.board[r][c] }
    &&& forall|r: int, c: int|
        in_grid(r, c) ==> t.original_board[r][c] == if 9 * r + c < d.len() { d[9 * r + c] } else { EMPTY }
    &&& t.candidates == s.candidates
    &&& t.rating == s.rating
    &&& t.undo_stack == s.undo_stack
}

fn is_ascii_digit(c: char) -> (b: bool)
    ensures
        b == crate::codec::is_digit_char(c),
{
    c >= '0' && c <= '9'
}

impl Sudoku {
    /// An empty board with no notes and no rating.
    pub fn new() -> (s: Sudoku)
        ensures
            all_cells_zero(s.grid.board),
            all_cells_zero(s.grid.original_board),
            all_notes_empty(s.grid.candidates),
            forall|i: int| 0 <= i < 8 ==> s.rating[i] == 0,
    {
        Sudoku { grid: Puzzle::new(), rating: [0usize; 8] }
    }

    /// Empty the board and the notes and clear the rating; the original board stays.
    pub fn clear(&mut self)
        ensures
            all_cells_zero(final(self).grid.board),
            all_notes_empty(final(self).grid.candidates),
            forall|i: int| 0 <= i < 8 ==> final(self).rating[i] == 0,
            final(self).grid.original_board == old(self).grid.original_board,
    {
        self.grid.candidates = [[0u16; 9]; 9];
        self.grid.board = [[EMPTY; 9]; 9];
        self.rating = [0usize; 8];
    }

    /// How many cells of the original board are empty.
    pub fn original_empty_cells(&self) -> (n: usize)
        ensures
            n == empty_cells(self.grid.original_board),
    {
        let mut n: usize = 0;
        let mut k: usize = 0;
        while k < 81
            invariant
                k <= 81,
                n == empty_below(self.grid.original_board, k as int),
                n <= k,
            decreases 81 - k,
        {
            if self.grid.original_board[k / 9][k % 9] == EMPTY {
                n = n + 1;
            }
            k = k + 1;
        }
        n
    }

    /// Whether some cell is still empty.
    pub fn unsolved(&self) -> (b: bool)
        ensures
            b == exists|r: int, c: int| in_grid(r, c) && self.grid.board[r][c] == EMPTY,
    {
        self.grid.unsolved()
    }

    /// The two terms of the effort of a solve: how many notes the strategies took away,
    /// and that count with each note weighted by the difficulty of the strategy that took
    /// it. The effort is the second divided by the number of empty cells of the original
    /// board.
    pub fn effort_terms(&self) -> (res: (u128, u128))
        ensures
            res.0 == basic_removed_upto(self.rating, 8),
            res.1 == basic_weighted_upto(self.rating, 8),
    {
        let mut removed: u128 = 0;
        let mut weighted: u128 = 0;
        let mut i: usize = 0;
        while i < 8
            invariant
                i <= 8,
                removed == basic_removed_upto(self.rating, i as int),
                weighted == basic_weighted_upto(self.rating, i as int),
                removed <= i * 0x1_0000_0000_0000_0000,
                weighted <= i * 140 * 0x1_0000_0000_0000_0000,
            decreases 8 - i,
        {
            let d = basic_of_slot(i).difficulty();
            let n = self.rating[i];
            assert(0 <= d <= 140);
            assert(n < 0x1_0000_0000_0000_0000);
            assert((d as u128) * (n as u128) <= 140 * 0x1_0000_0000_0000_0000) by (nonlinear_arith)
                requires
                    0 <= d <= 140,
                    n < 0x1_0000_0000_0000_0000,
            ;
            removed = removed + n as u128;
            weighted = weighted + (d as u128) * (n as u128);
            i = i + 1;
        }
        (removed, weighted)
    }

    /// The strategies that took notes away, with how many each took, from the easiest
    /// to the hardest.
    pub fn rating_by_difficulty(&self) -> (res: Vec<(Strategy, usize)>)
        ensures
            res@ == basic_rated(self.rating, 7),
    {
        let mut res: Vec<(Strategy, usize)> = Vec::new();
        let mut k: usize = 0;
        while k < 7
            invariant
                k <= 7,
                res@ == basic_rated(self.rating, k as int),
            decreases 7 - k,
        {
            let st = basic_of_rank(k);
            let n = self.rating[st.index()];
            if n > 0 {
                res.push((st, n));
            }
            k = k + 1;
        }
        res
    }

    /// How many notes each strategy took away, indexed by `Strategy::index`.
    pub fn rating(&self) -> (r: [usize; 8])
        ensures
            r == self.rating,
    {
        self.rating
    }

    /// The board written as 81 characters `'0' + value`, row by row.
    pub fn serialized(&self) -> (s: String)
        requires
            printable(self.grid.board),
        ensures
            s@ == grid_chars(self.grid.board),
    {
        self.grid.to_board_string()
    }

    /// The value of the cell; `EMPTY` when it is empty.
    pub fn get_num(&self, row: usize, col: usize) -> (n: u8)
        requires
            row < 9,
            col < 9,
        ensures
            n == self.grid.board[row as int][col as int],
    {
        self.grid.get_num(row, col)
    }

    /// The notes of the cell, in increasing order.
    pub fn get_notes(&self, row: usize, col: usize) -> (v: Vec<u8>)
        requires
            row < 9,
            col < 9,
        ensures
            forall|i: int, j: int| 0 <= i < j < v@.len() ==> v@[i] < v@[j],
            forall|n: u8| v@.contains(n) <==> self.grid.cand(row as int, col as int, n as int),
    {
        self.grid.get_candidates(row, col)
    }

    /// Whether `num` can go into `(row, col)`: the cell is empty and its row, column and
    /// box do not hold `num`.
    pub fn can_place(&self, row: usize, col: usize, num: u8) -> (b: bool)
        requires
            row < 9,
            col < 9,
        ensures
            b == placeable(self.grid.board, row as int, col as int, num as int),
    {
        self.grid.can_place(row, col, num)
    }

    /// Note in every empty cell the digits `1..=9` that its row, column and box lack;
    /// filled cells keep their notes.
    pub fn calc_all_notes(&mut self)
        ensures
            forall|r: int, c: int|
                in_grid(r, c) && old(self).grid.board[r][c] != EMPTY ==> final(self).grid.candidates[r][c]
                    == old(self).grid.candidates[r][c],
            forall|r: int, c: int, n: int|
                in_grid(r, c) && old(self).grid.board[r][c] == EMPTY ==> final(self).grid.cand(r, c, n) == (1 <= n <= 9
                    && !in_row(old(self).grid.board, r, n) && !in_col(old(self).grid.board, c, n) && !in_box(
                    old(self).grid.board,
                    r,
                    c,
                    n,
                )),
            final(self).grid.board == old(self).grid.board,
            final(self).grid.original_board == old(self).grid.original_board,
            final(self).rating == old(self).rating,
    {
        self.grid.calc_candidates();
    }

    /// Fill the board by backtracking: on success the board is the first valid completion
    /// of the old one in row-major order; otherwise nothing changes and there is none.
    pub fn solve_by_backtracking(&mut self) -> (solved: bool)
        ensures
            solved ==> valid_completion(old(self).grid.board, final(self).grid.board),
            solved ==> forall|full: crate::board::Grid|
                valid_completion(old(self).grid.board, full) ==> crate::board::lex_le(final(self).grid.board, full),
            !solved ==> final(self).grid.board == old(self).grid.board,
            !solved ==> forall|full: crate::board::Grid| !valid_completion(old(self).grid.board, full),
            final(self).grid.candidates == old(self).grid.candidates,
            final(self).grid.original_board == old(self).grid.original_board,
            final(self).rating == old(self).rating,
    {
        self.grid.solve_by_backtracking()
    }

    /// Set the board back to the original board and note the candidates again.
    pub fn restore(&mut self)
        ensures
            final(self).grid.board == old(self).grid.original_board,
            final(self).grid.original_board == old(self).grid.original_board,
            forall|r: int, c: int|
                in_grid(r, c) && old(self).grid.original_board[r][c] != EMPTY ==> final(self).grid.candidates[r][c]
                    == old(self).grid.candidates[r][c],
            forall|r: int, c: int, n: int|
                in_grid(r, c) && old(self).grid.original_board[r][c] == EMPTY ==> final(self).grid.cand(r, c, n) == (1 <= n
                    <= 9 && !in_row(old(self).grid.original_board, r, n) && !in_col(old(self).grid.original_board, c, n)
                    && !in_box(old(self).grid.original_board, r, c, n)),
            final(self).rating == old(self).rating,
    {
        self.grid.board = self.grid.original_board;
        self.calc_all_notes();
    }

    /// Read the digits `0..=9` of the text: the first 81 fill the board and the original
    /// board in order (see `read_digits`). Returns whether the text held exactly 81 digits;
    /// with more, the rest are ignored, and with fewer, the rest of the board stays.
    pub fn from_string(&mut self, board_string: &str) -> (complete: bool)
        ensures
            complete == (digits_of(board_string@).len() == 81),
            read_digits(old(self).grid, final(self).grid, digits_of(board_string@).take(
                if digits_of(board_string@).len() < 81 { digits_of(board_string@).len() as int } else { 81 },
            )),
            final(self).rating == old(self).rating,
    {
        let mut digits: Vec<u8> = Vec::new();
        for ch in it: board_string.chars()
            invariant
                it.seq() == board_string@,
                digits@ == digits_of(it.seq().take(it.index() as int)),
        {
            let ghost i = it.index() as int;
            proof {
                assert(it.seq().take(i + 1).drop_last() =~= it.seq().take(i));
                assert(it.seq().take(i + 1).last() == ch);
            }
            if is_ascii_digit(ch) {
                let d: u8 = (ch as u32 - 48) as u8;
                digits.push(d);
            }
            proof {
                if !crate::codec::is_digit_char(ch) {
                    assert(digits_of(it.seq().take(i)) + Seq::<u8>::empty() =~= digits_of(it.seq().take(i)));
                }
            }
        }
        proof {
            assert(board_string@.take(board_string@.len() as int) =~= board_string@);
        }
        let ghost d = digits@;
        let count = digits.len();
        let used: usize = if count < 81 { count } else { 81 };
        self.grid.original_board = [[EMPTY; 9]; 9];
        let mut k: usize = 0;
        while k < used
            invariant
                k <= used,
                used <= 81,
                used <= digits@.len(),
                digits@ == d,
                self.grid.candidates == old(self).grid.candidates,
                self.grid.rating == old(self).grid.rating,
                self.grid.undo_stack == old(self).grid.undo_stack,
                self.rating == old(self).rating,
                forall|r: int, c: int|
                    in_grid(r, c) ==> self.grid.board[r][c] == if 9 * r + c < k { d[9 * r + c] } else { old(self).grid.board[r][c] },
                forall|r: int, c: int|
                    in_grid(r, c) ==> self.grid.original_board[r][c] == if 9 * r + c < k { d[9 * r + c] } else { EMPTY },
            decreases used - k,
        {
            let v = digits[k];
            self.grid.board[k / 9][k % 9] = v;
            self.grid.original_board[k / 9][k % 9] = v;
            proof {
                assert forall|r: int, c: int| in_grid(r, c) implies self.grid.board[r][c] == if 9 * r + c < k + 1 {
                    d[9 * r + c]
                } else {
                    old(self).grid.board[r][c]
                } && self.grid.original_board[r][c] == if 9 * r + c < k + 1 { d[9 * r + c] } else { EMPTY } by {
                    if 9 * r + c == k {
                        assert(r == k / 9 && c == k % 9);
                    } else {
                        assert(r != k / 9 || c != k % 9);
                    }
                }
            }
            k = k + 1;
        }
        count == 81
    }

    /// Stepping back is not offered: nothing changes and nothing is reported.
    pub fn prev_step(&mut self) -> (res: Resolution)
        ensures
            res.nums_removed == 0,
            res.strategy == Strategy::NoStrategy,
            *final(self) == *old(self),
    {
        Resolution { nums_removed: 0, strategy: Strategy::NoStrategy }
    }
}

} // verus!
