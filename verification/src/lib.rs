//! Rate the difficulty of a Sudoku by solving it with the strategies a human would use.
//!
//! The solver looks for the easiest strategy that removes candidates, applies it, and
//! keeps count of how many candidates each strategy removed.

use vstd::prelude::*;

pub mod digits;
pub mod board;
pub mod codec;
pub mod json;
pub mod search;
pub mod collect;
pub mod lastdigit;
pub mod singles;
pub mod pairs;
pub mod subsets;
pub mod steps;
pub mod fish;
pub mod hidden;
pub mod triplets;
pub mod skyscraper;
pub mod solver;
pub mod solutions;
pub mod generator;
pub mod stepper;
pub mod sound;
pub mod elimination;
pub mod basic_sound;
pub mod tally;
pub mod sudoku;
pub mod resolve;
pub mod pointing;

pub use board::Sudoku;

verus! {

/// The value of an empty cell.
pub const EMPTY: u8 = 0;

/// A house of the grid.
#[derive(Debug, Clone, Copy, PartialEq, Eq, Structural, Hash)]
pub enum Unit {
    Row,
    Column,
    Box,
}

impl Unit {
    /// The name of the house.
    pub fn name(&self) -> (s: &'static str)
        ensures
            s@ == unit_name(*self),
    {
        match self {
            Unit::Row => "Row",
            Unit::Column => "Column",
            Unit::Box => "Box",
        }
    }
}

pub open spec fn unit_name(u: Unit) -> Seq<char> {
    match u {
        Unit::Row => "Row"@,
        Unit::Column => "Column"@,
        Unit::Box => "Box"@,
    }
}

/// A solving strategy, from the easiest to the hardest.
#[derive(Debug, Copy, Clone, PartialEq, Eq, Structural, Hash)]
pub enum Strategy {
    NoStrategy,
    LastDigit,
    ObviousSingle,
    HiddenSingle,
    ObviousPair,
    HiddenPair,
    LockedPair,
    PointingPair,
    ClaimingPair,
    ObviousTriplet,
    Skyscraper,
    XWing,
}

/// Number of strategies, `None` included.
pub const STRATEGY_COUNT: usize = 12;

pub open spec fn strategy_name(s: Strategy) -> Seq<char> {
    match s {
        Strategy::NoStrategy => "None"@,
        Strategy::LastDigit => "Last Digit"@,
        Strategy::ObviousSingle => "Obvious Single"@,
        Strategy::HiddenSingle => "Hidden Single"@,
        Strategy::LockedPair => "Locked Pair"@,
        Strategy::PointingPair => "Pointing Pair"@,
        Strategy::ClaimingPair => "Claiming Pair"@,
        Strategy::ObviousPair => "Obvious Pair"@,
        Strategy::HiddenPair => "Hidden Pair"@,
        Strategy::ObviousTriplet => "Obvious Triplet"@,
        Strategy::Skyscraper => "Skyscraper"@,
        Strategy::XWing => "X-Wing"@,
    }
}

/// The effort that a human spends on one step of the strategy.
pub open spec fn strategy_difficulty(s: Strategy) -> int {
    match s {
        Strategy::NoStrategy => 0,
        Strategy::LastDigit => 4,
        Strategy::ObviousSingle => 5,
        Strategy::HiddenSingle => 14,
        Strategy::LockedPair => 40,
        Strategy::PointingPair => 50,
        Strategy::ClaimingPair => 50,
        Strategy::ObviousPair => 60,
        Strategy::HiddenPair => 70,
        Strategy::ObviousTriplet => 80,
        Strategy::Skyscraper => 130,
        Strategy::XWing => 140,
    }
}

/// Position of the strategy in the declaration order, used to index ratings.
pub open spec fn strategy_index(s: Strategy) -> int {
    match s {
        Strategy::NoStrategy => 0,
        Strategy::LastDigit => 1,
        Strategy::ObviousSingle => 2,
        Strategy::HiddenSingle => 3,
        Strategy::ObviousPair => 4,
        Strategy::HiddenPair => 5,
        Strategy::LockedPair => 6,
        Strategy::PointingPair => 7,
        Strategy::ClaimingPair => 8,
        Strategy::ObviousTriplet => 9,
        Strategy::Skyscraper => 10,
        Strategy::XWing => 11,
    }
}

impl Strategy {
    /// The display name of the strategy.
    pub fn to_string(&self) -> (s: &'static str)
        ensures
            s@ == strategy_name(*self),
    {
        match self {
            Strategy::NoStrategy => "None",
            Strategy::LastDigit => "Last Digit",
            Strategy::ObviousSingle => "Obvious Single",
            Strategy::HiddenSingle => "Hidden Single",
            Strategy::LockedPair => "Locked Pair",
            Strategy::PointingPair => "Pointing Pair",
            Strategy::ClaimingPair => "Claiming Pair",
            Strategy::ObviousPair => "Obvious Pair",
            Strategy::HiddenPair => "Hidden Pair",
            Strategy::ObviousTriplet => "Obvious Triplet",
            Strategy::Skyscraper => "Skyscraper",
            Strategy::XWing => "X-Wing",
        }
    }

    /// The effort of one application of the strategy.
    pub fn difficulty(&self) -> (d: i32)
        ensures
            d == strategy_difficulty(*self),
    {
        match self {
            Strategy::NoStrategy => 0,
            Strategy::LastDigit => 4,
            Strategy::ObviousSingle => 5,
            Strategy::HiddenSingle => 14,
            Strategy::LockedPair => 40,
            Strategy::PointingPair => 50,
            Strategy::ClaimingPair => 50,
            Strategy::ObviousPair => 60,
            Strategy::HiddenPair => 70,
            Strategy::ObviousTriplet => 80,
            Strategy::Skyscraper => 130,
            Strategy::XWing => 140,
        }
    }

    /// The slot of the strategy in a rating.
    pub fn index(&self) -> (i: usize)
        ensures
            i == strategy_index(*self),
            i < STRATEGY_COUNT,
    {
        match self {
            Strategy::NoStrategy => 0,
            Strategy::LastDigit => 1,
            Strategy::ObviousSingle => 2,
            Strategy::HiddenSingle => 3,
            Strategy::ObviousPair => 4,
            Strategy::HiddenPair => 5,
            Strategy::LockedPair => 6,
            Strategy::PointingPair => 7,
            Strategy::ClaimingPair => 8,
            Strategy::ObviousTriplet => 9,
            Strategy::Skyscraper => 10,
            Strategy::XWing => 11,
        }
    }
}

/// A candidate digit `num` in the cell at `row`, `col`.
#[derive(Debug, Clone, Copy, PartialEq, Eq, Structural, Hash)]
pub struct Candidate {
    pub row: usize,
    pub col: usize,
    pub num: u8,
}

/// A digit `num` placed in the cell at `row`, `col`.
#[derive(Debug, Clone, Copy, PartialEq, Eq, Structural, Hash)]
pub struct Cell {
    pub row: usize,
    pub col: usize,
    pub num: u8,
}

/// What a strategy found: the candidates it would remove, the cell it would fill,
/// and the candidates and house that justify it.
///
/// `candidates_about_to_be_removed` is a set: it holds no candidate twice.
#[derive(Debug)]
pub struct RemovalResult {
    pub sets_cell: Option<Cell>,
    pub cells_affected: Vec<Cell>,
    pub candidates_affected: Vec<Candidate>,
    pub candidates_about_to_be_removed: Vec<Candidate>,
    pub unit: Option<Unit>,
    pub unit_index: Option<Vec<usize>>,
}

/// The mathematical value of a `RemovalResult`.
pub struct RemovalView {
    pub sets_cell: Option<Cell>,
    pub cells_affected: Seq<Cell>,
    pub candidates_affected: Seq<Candidate>,
    pub removed: Set<Candidate>,
    pub unit: Option<Unit>,
    pub unit_index: Option<Seq<usize>>,
}

pub open spec fn opt_seq_view(o: Option<Vec<usize>>) -> Option<Seq<usize>> {
    match o {
        Some(v) => Some(v@),
        None => None,
    }
}

impl View for RemovalResult {
    type V = RemovalView;

    open spec fn view(&self) -> RemovalView {
        RemovalView {
            sets_cell: self.sets_cell,
            cells_affected: self.cells_affected@,
            candidates_affected: self.candidates_affected@,
            removed: self.candidates_about_to_be_removed@.to_set(),
            unit: self.unit,
            unit_index: opt_seq_view(self.unit_index),
        }
    }
}

/// The view of a result that found nothing.
pub open spec fn empty_view() -> RemovalView {
    RemovalView {
        sets_cell: None,
        cells_affected: Seq::empty(),
        candidates_affected: Seq::empty(),
        removed: Set::empty(),
        unit: None,
        unit_index: None,
    }
}

impl RemovalResult {
    /// The removals form a set: no candidate occurs twice.
    pub open spec fn wf(&self) -> bool {
        self.candidates_about_to_be_removed@.no_duplicates()
    }

    /// A result that found nothing.
    pub fn empty() -> (r: Self)
        ensures
            r@ == empty_view(),
            r.wf(),
            r.candidates_about_to_be_removed@ == Seq::<Candidate>::empty(),
    {
        let r = RemovalResult {
            sets_cell: None,
            cells_affected: Vec::new(),
            candidates_affected: Vec::new(),
            candidates_about_to_be_removed: Vec::new(),
            unit: None,
            unit_index: None,
        };
        assert(r@.removed =~= Set::empty());
        r
    }

    /// Whether applying the result removes any candidate.
    pub fn will_remove_candidates(&self) -> (b: bool)
        ensures
            b == (self@.removed != Set::<Candidate>::empty()),
    {
        proof {
            if self.candidates_about_to_be_removed@.len() > 0 {
                assert(self@.removed.contains(self.candidates_about_to_be_removed@[0]));
            } else {
                assert(self@.removed =~= Set::empty());
            }
        }
        self.candidates_about_to_be_removed.len() > 0
    }

    /// Forget everything the result holds.
    pub fn clear(&mut self)
        ensures
            final(self)@ == empty_view(),
            final(self).wf(),
    {
        self.sets_cell = None;
        self.cells_affected.clear();
        self.candidates_affected.clear();
        self.candidates_about_to_be_removed.clear();
        self.unit = None;
        self.unit_index = None;
        assert(self@.removed =~= Set::empty());
    }
}

/// Add `c` to a set of candidates kept as a vector without duplicates.
pub fn insert_candidate(v: &mut Vec<Candidate>, c: Candidate)
    requires
        old(v)@.no_duplicates(),
    ensures
        final(v)@.no_duplicates(),
        final(v)@.to_set() == old(v)@.to_set().insert(c),
        final(v)@.len() <= old(v)@.len() + 1,
        forall|x: Candidate| #[trigger] final(v)@.contains(x) <==> (old(v)@.contains(x) || x == c),
{
    let mut i: usize = 0;
    while i < v.len()
        invariant
            i <= v@.len(),
            v@ == old(v)@,
            v@.no_duplicates(),
            forall|j: int| 0 <= j < i ==> v@[j] != c,
        decreases v@.len() - i,
    {
        if v[i] == c {
            assert(v@.to_set() =~= old(v)@.to_set().insert(c));
            return;
        }
        i = i + 1;
    }
    let ghost prev = v@;
    v.push(c);
    proof {
        lemma_push_contains(prev, c);
        assert(v@.to_set() =~= old(v)@.to_set().insert(c));
    }
}

/// Add every candidate of `src` to the set `dst`.
pub fn extend_candidates(dst: &mut Vec<Candidate>, src: &Vec<Candidate>)
    requires
        old(dst)@.no_duplicates(),
    ensures
        final(dst)@.no_duplicates(),
        forall|x: Candidate| #[trigger] final(dst)@.contains(x) <==> (old(dst)@.contains(x) || src@.contains(x)),
{
    let mut i: usize = 0;
    while i < src.len()
        invariant
            i <= src@.len(),
            dst@.no_duplicates(),
            forall|x: Candidate| dst@.contains(x) <==> (old(dst)@.contains(x) || src@.take(i as int).contains(x)),
        decreases src@.len() - i,
    {
        let ghost prev = dst@;
        insert_candidate(dst, src[i]);
        proof {
            lemma_take_next(src@, i as int);
            assert forall|x: Candidate| dst@.contains(x) <==> (old(dst)@.contains(x) || src@.take(i + 1).contains(x)) by {
                assert(dst@.contains(x) <==> (prev.contains(x) || x == src@[i as int]));
                assert(src@.take(i + 1).contains(x) <==> (src@.take(i as int).contains(x) || x == src@[i as int]));
            }
        }
        i = i + 1;
    }
    assert(src@.take(src@.len() as int) =~= src@);
}

/// An element of `s.push(c)` is an element of `s` or `c`.
pub proof fn lemma_push_contains<A>(s: Seq<A>, c: A)
    ensures
        forall|x: A| #[trigger] s.push(c).contains(x) <==> (s.contains(x) || x == c),
{
    assert forall|x: A| #[trigger] s.push(c).contains(x) <==> (s.contains(x) || x == c) by {
        if s.push(c).contains(x) {
            let k = choose|k: int| 0 <= k < s.push(c).len() && s.push(c)[k] == x;
            if k < s.len() {
                assert(s[k] == x);
            }
        }
        if s.contains(x) {
            let k = choose|k: int| 0 <= k < s.len() && s[k] == x;
            assert(s.push(c)[k] == x);
        }
        if x == c {
            assert(s.push(c)[s.len() as int] == x);
        }
    }
}

/// The first `i + 1` elements are the first `i` and then `s[i]`.
pub proof fn lemma_take_next<A>(s: Seq<A>, i: int)
    requires
        0 <= i < s.len(),
    ensures
        s.take(i + 1) == s.take(i).push(s[i]),
        forall|x: A| #[trigger] s.take(i + 1).contains(x) <==> (s.take(i).contains(x) || x == s[i]),
{
    assert(s.take(i + 1) =~= s.take(i).push(s[i]));
    lemma_push_contains(s.take(i), s[i]);
}

/// A strategy together with what it found.
#[derive(Debug)]
pub struct StrategyResult {
    pub strategy: Strategy,
    pub removals: RemovalResult,
}

impl StrategyResult {
    /// A result of `strategy` that found nothing.
    pub fn new(strategy: Strategy) -> (r: Self)
        ensures
            r.strategy == strategy,
            r.removals@ == empty_view(),
            r.removals.wf(),
            r.removals.candidates_about_to_be_removed@ == Seq::<Candidate>::empty(),
    {
        StrategyResult { strategy, removals: RemovalResult::empty() }
    }

    /// No strategy, nothing found.
    pub fn empty() -> (r: Self)
        ensures
            r.strategy == Strategy::NoStrategy,
            r.removals@ == empty_view(),
            r.removals.wf(),
    {
        StrategyResult { strategy: Strategy::NoStrategy, removals: RemovalResult::empty() }
    }

    /// Forget the strategy and what it found.
    pub fn clear(&mut self)
        ensures
            final(self).strategy == Strategy::NoStrategy,
            final(self).removals@ == empty_view(),
            final(self).removals.wf(),
    {
        self.strategy = Strategy::NoStrategy;
        self.removals.clear();
    }
}

/// What applying a step did.
#[derive(Debug)]
pub struct Resolution {
    pub nums_removed: usize,
    pub strategy: Strategy,
}

impl Resolution {
    pub fn nums_removed(&self) -> (n: usize)
        ensures
            n == self.nums_removed,
    {
        self.nums_removed
    }

    pub fn strategy(&self) -> (s: Strategy)
        ensures
            s == self.strategy,
    {
        self.strategy
    }
}

/// Why a board could not be read.
#[derive(Debug)]
pub struct SudokuError {
    pub message: String,
}

} // verus!
