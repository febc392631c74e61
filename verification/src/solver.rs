//! Finding the next step, from the easiest strategy to the hardest, and solving as a
//! human would.

use vstd::prelude::*;

use crate::board::{in_grid, valid_completion, Grid, Sudoku};
use crate::sound::{bare, lemma_human_solution, lemma_unrated_run_safe, solvable};
use crate::digits::mask_has;
use crate::steps::{applied, can_apply};
use crate::fish::xwing_strategy;
use crate::hidden::hidden_pair_strategy_view;
use crate::lastdigit::{last_digit_defined, last_digit_view};
use crate::pairs::{claiming_pair_view, pointing_pair_view};
use crate::search::{first_from, lemma_first_end, lemma_first_hit, lemma_first_skip, select};
use crate::singles::{hidden_single_strategy_view, obvious_single_defined, obvious_single_view};
use crate::skyscraper::{skyscraper_defined, skyscraper_strategy_view};
use crate::subsets::{locked_pair_defined, locked_pair_strategy_view, obvious_pair_strategy_view};
use crate::triplets::obvious_triplet_strategy_view;
use crate::{empty_view, strategy_index, Candidate, RemovalView, Strategy, StrategyResult};

verus! {

/// The strategies in the order they are tried, by difficulty.
pub open spec fn step_strategy(k: int) -> Strategy {
    if k == 0 {
        Strategy::LastDigit
    } else if k == 1 {
        Strategy::ObviousSingle
    } else if k == 2 {
        Strategy::HiddenSingle
    } else if k == 3 {
        Strategy::LockedPair
    } else if k == 4 {
        Strategy::PointingPair
    } else if k == 5 {
        Strategy::ClaimingPair
    } else if k == 6 {
        Strategy::ObviousPair
    } else if k == 7 {
        Strategy::HiddenPair
    } else if k == 8 {
        Strategy::ObviousTriplet
    } else if k == 9 {
        Strategy::Skyscraper
    } else {
        Strategy::XWing
    }
}

/// What the `k`-th strategy finds.
#[verifier::opaque]
pub open spec fn step_view(s: Sudoku, k: int) -> RemovalView {
    if k == 0 {
        last_digit_view(s)
    } else if k == 1 {
        obvious_single_view(s)
    } else if k == 2 {
        hidden_single_strategy_view(s)
    } else if k == 3 {
        locked_pair_strategy_view(s)
    } else if k == 4 {
        pointing_pair_view(s)
    } else if k == 5 {
        claiming_pair_view(s)
    } else if k == 6 {
        obvious_pair_strategy_view(s)
    } else if k == 7 {
        hidden_pair_strategy_view(s)
    } else if k == 8 {
        obvious_triplet_strategy_view(s)
    } else if k == 9 {
        skyscraper_strategy_view(s)
    } else {
        xwing_strategy(s).1
    }
}

/// The `k`-th strategy removes some candidate.
pub open spec fn step_found(s: Sudoku, k: int) -> bool {
    step_view(s, k).removed != Set::<Candidate>::empty()
}

/// The first strategy that removes a candidate.
pub open spec fn first_step(s: Sudoku) -> Option<int> {
    first_from(|k: int| step_found(s, k), 0, 11)
}

/// The strategies that remove a candidate, in order.
pub open spec fn found_steps(s: Sudoku) -> Seq<int> {
    select(|k: int| step_found(s, k), 0, 11)
}

/// The `k`-th strategy can look at `s`.
pub open spec fn strategy_defined(s: Sudoku, k: int) -> bool {
    if k == 0 {
        last_digit_defined(s.board)
    } else if k == 1 {
        obvious_single_defined(s)
    } else if k == 3 {
        locked_pair_defined(s)
    } else if k == 9 {
        skyscraper_defined(s)
    } else {
        true
    }
}

/// Every strategy that is tried, up to the first that removes something, can look at `s`.
pub open spec fn step_defined(s: Sudoku) -> bool {
    let last = match first_step(s) {
        Some(k) => k,
        None => 10,
    };
    forall|k: int| 0 <= k <= last ==> #[trigger] strategy_defined(s, k)
}

/// The rating has room for the candidates that the next step removes.
pub open spec fn step_fits(s: Sudoku) -> bool {
    first_step(s) matches Some(k) ==> s.rated(step_strategy(k)) + step_view(s, k).removed.len() <= usize::MAX
}

/// `r` is the next step of `s`: the first strategy that removes a candidate with what it
/// found, or no strategy and nothing.
pub open spec fn is_next_step(s: Sudoku, r: StrategyResult) -> bool {
    &&& r.removals.wf()
    &&& match first_step(s) {
        None => r.strategy == Strategy::NoStrategy && r.removals@ == empty_view(),
        Some(k) => r.strategy == step_strategy(k) && r.removals@ == step_view(s, k),
    }
}

/// The candidates present in the grid, each numbered `144 * row + 16 * col + num`.
pub open spec fn present(s: Sudoku) -> Set<int> {
    Set::new(|i: int| 0 <= i < 1296 && s.cand(i / 144, (i / 16) % 9, i % 16))
}

pub proof fn lemma_present_finite(s: Sudoku)
    ensures
        present(s).finite(),
        present(s).len() <= 1296,
{
    vstd::set_lib::lemma_int_range(0, 1296);
    vstd::set_lib::lemma_len_subset(present(s), vstd::set_lib::set_int_range(0, 1296));
}

/// A step that removes some candidate leaves fewer candidates in the grid.
pub proof fn lemma_step_shrinks(s0: Sudoku, s1: Sudoku, sr: StrategyResult)
    requires
        can_apply(s0, sr),
        applied(s0, s1, sr),
        sr.removals.candidates_about_to_be_removed@.len() > 0,
    ensures
        present(s1).finite(),
        present(s1).len() < present(s0).len(),
{
    lemma_present_finite(s0);
    let x = sr.removals.candidates_about_to_be_removed@[0];
    assert(sr.removals.candidates_about_to_be_removed@.contains(x));
    let id = 144 * x.row + 16 * x.col + x.num;
    assert(x.num < 16);
    assert(id / 144 == x.row && (id / 16) % 9 == x.col && id % 16 == x.num);
    assert(present(s0).contains(id));
    assert(x == Candidate { row: x.row as int as usize, col: x.col as int as usize, num: x.num as int as u8 });
    assert(!present(s1).contains(id));
    assert forall|i: int| #[trigger] present(s1).contains(i) implies present(s0).remove(id).contains(i) by {
        assert(in_grid(i / 144, (i / 16) % 9));
    }
    vstd::set_lib::lemma_len_subset(present(s1), present(s0).remove(id));
}

/// The strategies are tried from the easiest to the hardest: their difficulty never
/// decreases along the order.
pub proof fn lemma_steps_by_difficulty(i: int, j: int)
    requires
        0 <= i <= j < 11,
    ensures
        crate::strategy_difficulty(step_strategy(i)) <= crate::strategy_difficulty(step_strategy(j)),
{
}

/// A next step with a strategy removes some candidate.
pub proof fn lemma_next_step_nonempty(s: Sudoku, r: StrategyResult)
    requires
        is_next_step(s, r),
        r.strategy != Strategy::NoStrategy,
    ensures
        r.removals.candidates_about_to_be_removed@.len() > 0,
{
    crate::search::lemma_first_from(|k: int| step_found(s, k), 0, 11);
    if r.removals.candidates_about_to_be_removed@.len() == 0 {
        assert(r.removals@.removed =~= Set::<Candidate>::empty());
    }
}

/// The next step is the easiest that finds something: whenever some strategy removes a
/// candidate, the next step uses a strategy no later in the order, and that one removes a
/// candidate too, while every strategy before it finds nothing.
pub proof fn lemma_next_step_easiest(s: Sudoku, k: int)
    requires
        0 <= k < 11,
        step_view(s, k).removed != Set::<Candidate>::empty(),
    ensures
        first_step(s) matches Some(j) && j <= k && step_view(s, j).removed != Set::<Candidate>::empty() && forall|i: int|
            0 <= i < j ==> #[trigger] step_view(s, i).removed == Set::<Candidate>::empty(),
{
    let p = |k: int| step_found(s, k);
    assert(p(k));
    crate::search::lemma_first_from(p, 0, 11);
    let j = first_step(s)->0;
    assert forall|i: int| 0 <= i < j implies #[trigger] step_view(s, i).removed == Set::<Candidate>::empty() by {
        assert(!p(i));
    }
}

/// The strategy of the first step that removes a candidate is a strategy.
pub proof fn lemma_first_step_strategy(s: Sudoku)
    ensures
        first_step(s) matches Some(k) ==> step_strategy(k) != Strategy::NoStrategy,
{
}

/// `mid` is `a` with the step `r` counted in its strategy's rating.
pub open spec fn counted(a: Sudoku, mid: Sudoku, r: StrategyResult) -> bool {
    &&& mid.rated(r.strategy) == a.rated(r.strategy) + r.removals@.removed.len()
    &&& forall|i: int| 0 <= i < 12 && i != strategy_index(r.strategy) ==> mid.rating[i] == a.rating[i]
    &&& mid.board == a.board
    &&& mid.original_board == a.original_board
    &&& mid.candidates == a.candidates
    &&& mid.undo_stack == a.undo_stack
}

/// `b` is `a` after one step of the solver: every strategy tried could look at `a`, and
/// the next step is counted in the rating and, as it can be, applied.
pub open spec fn human_step(a: Sudoku, b: Sudoku) -> bool {
    &&& step_defined(a)
    &&& exists|r: StrategyResult, mid: Sudoku|
        #![trigger is_next_step(a, r), applied(mid, b, r)]
        is_next_step(a, r) && r.strategy != Strategy::NoStrategy && counted(a, mid, r) && can_apply(mid, r) && applied(mid, b, r)
}

/// Each state of the trace is one step of the solver after the one before.
pub open spec fn is_human_run(trace: Seq<Sudoku>) -> bool {
    &&& trace.len() >= 1
    &&& forall|i: int| 0 <= i < trace.len() - 1 ==> human_step(#[trigger] trace[i], trace[i + 1])
}

/// A step can be taken from `s`: every strategy tried can look at the grid, one removes a
/// candidate, the rating has room to count what it removes, and what it removes and fills
/// lies in the grid.
pub open spec fn step_takes(s: Sudoku) -> bool {
    &&& step_defined(s)
    &&& first_step(s) matches Some(k) && {
        let v = step_view(s, k);
        &&& s.rated(step_strategy(k)) + v.removed.len() < usize::MAX
        &&& forall|x: Candidate|
            #[trigger] v.removed.contains(x) ==> x.row < 9 && x.col < 9 && s.cand(x.row as int, x.col as int, x.num as int)
        &&& v.sets_cell matches Some(cell) ==> cell.row < 9 && cell.col < 9
    }
}

/// `t` is `s` with the candidates computed as `calc_candidates` computes them and the
/// rating cleared.
pub open spec fn calculated(s: Sudoku, t: Sudoku) -> bool {
    &&& t.board == s.board
    &&& t.original_board == s.original_board
    &&& t.undo_stack == s.undo_stack
    &&& crate::board::all_zero_rating(t.rating)
    &&& forall|r: int, c: int| in_grid(r, c) && s.board[r][c] != crate::EMPTY ==> t.candidates[r][c] == s.candidates[r][c]
    &&& forall|r: int, c: int, n: int|
        in_grid(r, c) && s.board[r][c] == crate::EMPTY ==> t.cand(r, c, n) == (1 <= n <= 9 && !crate::board::in_row(s.board, r, n)
            && !crate::board::in_col(s.board, c, n) && !crate::board::in_box(s.board, r, c, n))
}

/// The strategies among the first `k` tried that removed candidates, with their counts,
/// in the order they are tried, which is by difficulty.
pub open spec fn rated_steps(s: Sudoku, k: int) -> Seq<(Strategy, usize)>
    decreases k,
{
    if k <= 0 {
        Seq::empty()
    } else {
        let st = step_strategy(k - 1);
        let n = s.rating[strategy_index(st)];
        if n > 0 {
            rated_steps(s, k - 1).push((st, n))
        } else {
            rated_steps(s, k - 1)
        }
    }
}

/// The `k`-th strategy tried.
fn tried_strategy(k: usize) -> (st: Strategy)
    requires
        k < 11,
    ensures
        st == step_strategy(k as int),
{
    if k == 0 {
        Strategy::LastDigit
    } else if k == 1 {
        Strategy::ObviousSingle
    } else if k == 2 {
        Strategy::HiddenSingle
    } else if k == 3 {
        Strategy::LockedPair
    } else if k == 4 {
        Strategy::PointingPair
    } else if k == 5 {
        Strategy::ClaimingPair
    } else if k == 6 {
        Strategy::ObviousPair
    } else if k == 7 {
        Strategy::HiddenPair
    } else if k == 8 {
        Strategy::ObviousTriplet
    } else if k == 9 {
        Strategy::Skyscraper
    } else {
        Strategy::XWing
    }
}

impl Sudoku {
    /// The strategies that removed candidates, with how many each removed, from the
    /// easiest to the hardest.
    pub fn rating_by_difficulty(&self) -> (res: Vec<(Strategy, usize)>)
        ensures
            res@ == rated_steps(*self, 11),
    {
        let mut res: Vec<(Strategy, usize)> = Vec::new();
        let mut k: usize = 0;
        while k < 11
            invariant
                k <= 11,
                res@ == rated_steps(*self, k as int),
            decreases 11 - k,
        {
            let st = tried_strategy(k);
            let n = self.rating[st.index()];
            if n > 0 {
                res.push((st, n));
            }
            k = k + 1;
        }
        res
    }

    /// The next step, without counting it in the rating.
    pub(crate) fn find_step(&self) -> (res: StrategyResult)
        requires
            step_defined(*self),
        ensures
            is_next_step(*self, res),
    {
        let ghost p = |k: int| step_found(*self, k);
        let mut k: usize = 0;
        while k < 11
            invariant
                k <= 11,
                step_defined(*self),
                p == (|k: int| step_found(*self, k)),
                first_step(*self) == first_from(p, k as int, 11),
            decreases 11 - k,
        {
            proof {
                crate::search::lemma_first_from(p, k as int, 11);
                assert(strategy_defined(*self, k as int));
            }
            let r = self.run_strategy(k);
            if r.removals.will_remove_candidates() {
                proof {
                    lemma_first_hit(p, k as int, 11);
                }
                return r;
            }
            proof {
                lemma_first_skip(p, k as int, 11);
            }
            k = k + 1;
        }
        proof {
            lemma_first_end(p, 11);
        }
        StrategyResult::empty()
    }

    /// Count the candidates that the step removes for its strategy.
    fn count_step(&mut self, r: &StrategyResult)
        requires
            r.removals.wf(),
            r.strategy != Strategy::NoStrategy ==> old(self).rated(r.strategy) + r.removals@.removed.len() <= usize::MAX,
        ensures
            r.strategy == Strategy::NoStrategy ==> *final(self) == *old(self),
            r.strategy != Strategy::NoStrategy ==> {
                &&& final(self).rated(r.strategy) == old(self).rated(r.strategy) + r.removals@.removed.len()
                &&& forall|i: int| 0 <= i < 12 && i != strategy_index(r.strategy) ==> final(self).rating[i] == old(self).rating[i]
                &&& final(self).board == old(self).board
                &&& final(self).original_board == old(self).original_board
                &&& final(self).candidates == old(self).candidates
                &&& final(self).undo_stack == old(self).undo_stack
            },
    {
        if r.strategy != Strategy::NoStrategy {
            proof {
                r.removals.candidates_about_to_be_removed@.unique_seq_to_set();
            }
            let k = r.strategy.index();
            let n = r.removals.candidates_about_to_be_removed.len();
            self.rating[k] = self.rating[k] + n;
        }
    }

    /// Find the next step: the first strategy, from the easiest, that removes a candidate.
    /// The candidates it removes are counted in the strategy's rating.
    pub fn next_step(&mut self) -> (res: StrategyResult)
        requires
            step_defined(*old(self)),
            step_fits(*old(self)),
        ensures
            is_next_step(*old(self), res),
            final(self).board == old(self).board,
            final(self).original_board == old(self).original_board,
            final(self).candidates == old(self).candidates,
            final(self).undo_stack == old(self).undo_stack,
            match first_step(*old(self)) {
                None => final(self).rating == old(self).rating,
                Some(k) => {
                    &&& final(self).rated(step_strategy(k)) == old(self).rated(step_strategy(k)) + step_view(*old(self), k).removed.len()
                    &&& forall|i: int| 0 <= i < 12 && i != strategy_index(step_strategy(k)) ==> final(self).rating[i] == old(self).rating[i]
                },
            },
    {
        let r = self.find_step();
        self.count_step(&r);
        r
    }

    /// Every strategy that removes a candidate, in order, with what it found.
    pub fn all_possible_strategies(&self) -> (res: Vec<StrategyResult>)
        requires
            forall|k: int| 0 <= k < 11 ==> #[trigger] strategy_defined(*self, k),
        ensures
            res@.len() == found_steps(*self).len(),
            forall|i: int|
                0 <= i < res@.len() ==> #[trigger] res@[i].strategy == step_strategy(found_steps(*self)[i]) && res@[i].removals@
                    == step_view(*self, found_steps(*self)[i]) && res@[i].removals.wf(),
    {
        let ghost p = |k: int| step_found(*self, k);
        let mut strategies: Vec<StrategyResult> = Vec::new();
        let mut k: usize = 0;
        while k < 11
            invariant
                k <= 11,
                forall|j: int| 0 <= j < 11 ==> #[trigger] strategy_defined(*self, j),
                p == (|k: int| step_found(*self, k)),
                strategies@.len() == select(p, 0, k as int).len(),
                forall|i: int|
                    0 <= i < strategies@.len() ==> #[trigger] strategies@[i].strategy == step_strategy(select(p, 0, k as int)[i])
                        && strategies@[i].removals@ == step_view(*self, select(p, 0, k as int)[i]) && strategies@[i].removals.wf(),
            decreases 11 - k,
        {
            proof {
                assert(strategy_defined(*self, k as int));
            }
            let r = self.run_strategy(k);
            if r.removals.will_remove_candidates() {
                strategies.push(r);
            }
            k = k + 1;
        }
        strategies
    }

    /// Run the `k`-th strategy.
    fn run_strategy(&self, k: usize) -> (res: StrategyResult)
        requires
            k < 11,
            strategy_defined(*self, k as int),
        ensures
            res.removals.wf(),
            res.removals@ == step_view(*self, k as int),
            step_found(*self, k as int) ==> res.strategy == step_strategy(k as int),
    {
        reveal(step_view);
        if k == 0 {
            self.find_last_digit()
        } else if k == 1 {
            self.find_obvious_single()
        } else if k == 2 {
            self.find_hidden_single()
        } else if k == 3 {
            self.find_locked_pair()
        } else if k == 4 {
            self.find_pointing_pair()
        } else if k == 5 {
            self.find_claiming_pair()
        } else if k == 6 {
            self.find_obvious_pair()
        } else if k == 7 {
            self.find_hidden_pair()
        } else if k == 8 {
            self.find_obvious_triplet()
        } else if k == 9 {
            self.find_skyscraper()
        } else {
            let r = self.find_xwing();
            StrategyResult { strategy: Strategy::XWing, removals: r.removals }
        }
    }

    /// Whether the `k`-th strategy can look at the grid.
    fn strategy_ok(&self, k: usize) -> (b: bool)
        requires
            k < 11,
        ensures
            b == strategy_defined(*self, k as int),
    {
        if k == 0 {
            self.last_digit_ok()
        } else if k == 1 {
            self.obvious_single_ok()
        } else if k == 3 {
            self.locked_pair_ok()
        } else if k == 9 {
            self.skyscraper_ok()
        } else {
            true
        }
    }

    /// The next step, when every strategy tried can look at the grid; `None` otherwise.
    pub fn find_step_checked(&self) -> (res: Option<StrategyResult>)
        ensures
            res is None <==> !step_defined(*self),
            res matches Some(r) ==> is_next_step(*self, r),
    {
        let ghost p = |k: int| step_found(*self, k);
        let mut k: usize = 0;
        while k < 11
            invariant
                k <= 11,
                p == (|k: int| step_found(*self, k)),
                first_step(*self) == first_from(p, k as int, 11),
                forall|j: int| 0 <= j < k ==> #[trigger] strategy_defined(*self, j),
            decreases 11 - k,
        {
            if !self.strategy_ok(k) {
                proof {
                    crate::search::lemma_first_from(p, k as int, 11);
                }
                return None;
            }
            let r = self.run_strategy(k);
            if r.removals.will_remove_candidates() {
                proof {
                    lemma_first_hit(p, k as int, 11);
                }
                return Some(r);
            }
            proof {
                lemma_first_skip(p, k as int, 11);
            }
            k = k + 1;
        }
        proof {
            lemma_first_end(p, 11);
        }
        Some(StrategyResult::empty())
    }

    /// Whether the step can be applied; see `can_apply`.
    pub fn can_apply_check(&self, sr: &StrategyResult) -> (b: bool)
        requires
            sr.removals.wf(),
        ensures
            b == can_apply(*self, *sr),
    {
        let removals = &sr.removals.candidates_about_to_be_removed;
        let mut i: usize = 0;
        while i < removals.len()
            invariant
                i <= removals@.len(),
                removals == &sr.removals.candidates_about_to_be_removed,
                forall|j: int| 0 <= j < i ==> #[trigger] removals@[j].row < 9 && removals@[j].col < 9 && self.cand(
                    removals@[j].row as int,
                    removals@[j].col as int,
                    removals@[j].num as int,
                ),
            decreases removals@.len() - i,
        {
            let x = removals[i];
            if !(x.row < 9 && x.col < 9 && mask_has(self.candidates[x.row][x.col], x.num)) {
                proof {
                    assert(removals@.contains(x));
                }
                return false;
            }
            i = i + 1;
        }
        proof {
            assert forall|x: Candidate| #[trigger] removals@.contains(x) implies x.row < 9 && x.col < 9 && self.cand(
                x.row as int,
                x.col as int,
                x.num as int,
            ) by {
                let j = choose|j: int| 0 <= j < removals@.len() && removals@[j] == x;
                assert(removals@[j].row < 9);
            }
        }
        match &sr.removals.sets_cell {
            Some(cell) => cell.row < 9 && cell.col < 9 && self.rating[sr.strategy.index()] < usize::MAX,
            None => true,
        }
    }

    /// Take the next step, if it can be taken (see `step_takes`): count it in the rating
    /// and apply it. Returns whether a step was taken; otherwise nothing changes.
    fn take_step(&mut self) -> (progress: bool)
        requires
            present(*old(self)).finite(),
        ensures
            progress == step_takes(*old(self)),
            progress ==> human_step(*old(self), *final(self)),
            progress ==> present(*final(self)).len() < present(*old(self)).len(),
            !progress ==> *final(self) == *old(self),
            present(*final(self)).finite(),
    {
        let result = match self.find_step_checked() {
            Some(r) => r,
            None => return false,
        };
        if result.strategy == Strategy::NoStrategy {
            proof {
                lemma_first_step_strategy(*self);
            }
            return false;
        }
        proof {
            lemma_next_step_nonempty(*self, result);
            lemma_first_step_strategy(*self);
            result.removals.candidates_about_to_be_removed@.unique_seq_to_set();
        }
        let k = result.strategy.index();
        let n = result.removals.candidates_about_to_be_removed.len();
        if self.rating[k] >= usize::MAX - n {
            proof {
                let kk = first_step(*self)->0;
                assert(result.removals@ == step_view(*self, kk));
                assert(step_view(*self, kk).removed.len() == n);
                assert(self.rated(step_strategy(kk)) == self.rating[k as int]);
                assert(first_step(*self) == Some(kk));
                assert(self.rated(step_strategy(kk)) + step_view(*self, kk).removed.len() >= usize::MAX);
                assert(!step_takes(*self));
            }
            return false;
        }
        if !self.can_apply_check(&result) {
            proof {
                let kk = first_step(*self)->0;
                assert(result.removals@ == step_view(*self, kk));
                assert(first_step(*self) == Some(kk));
                assert(self.rating[k as int] < usize::MAX);
                assert(self.rated(step_strategy(kk)) == self.rating[k as int]);
                if step_takes(*self) {
                    assert forall|x: Candidate| #[trigger] result.removals.candidates_about_to_be_removed@.contains(x) implies x.row < 9
                        && x.col < 9 && self.cand(x.row as int, x.col as int, x.num as int) by {
                        assert(result.removals@.removed.contains(x));
                    }
                    assert(can_apply(*self, result));
                }
            }
            return false;
        }
        let ghost before = *self;
        self.count_step(&result);
        let ghost mid = *self;
        proof {
            assert(counted(before, mid, result));
            assert(can_apply(mid, result));
        }
        self.apply(&result);
        proof {
            lemma_step_shrinks(mid, *self, result);
            assert(present(mid) == present(before));
            assert(is_next_step(before, result) && applied(mid, *self, result));
        }
        true
    }

    /// Solve as a human would: compute the candidates, clear the rating, then take steps
    /// (see `human_step`) until the board is full or no step can be taken (see
    /// `step_takes`). Returns whether the board is full. When the board has a solution and
    /// no candidates in its filled cells, and the run took no Locked Pair step (its count
    /// stays at zero), a full board is that solution, and the only one.
    pub fn solve_human_like(&mut self) -> (solved: bool)
        ensures
            exists|trace: Seq<Sudoku>|
                is_human_run(trace) && calculated(*old(self), trace[0]) && trace.last() == *final(self),
            solved == forall|r: int, c: int| in_grid(r, c) ==> final(self).board[r][c] != crate::EMPTY,
            !solved ==> !step_takes(*final(self)),
            final(self).original_board == old(self).original_board,
            solved && solvable(old(self).board) && bare(*old(self)) && final(self).rated(Strategy::LockedPair) == 0 ==> {
                &&& valid_completion(old(self).board, final(self).board)
                &&& forall|full: Grid, r: int, c: int|
                    valid_completion(old(self).board, full) && in_grid(r, c) ==> full[r][c] == final(self).board[r][c]
            },
    {
        self.calc_candidates();
        let ghost calc = *self;
        self.rating = [0usize; 12];
        proof {
            lemma_present_finite(*self);
        }
        let ghost start = *self;
        proof {
            assert(crate::board::all_zero_rating(start.rating));
            assert(start.board == old(self).board);
            assert(start.undo_stack == old(self).undo_stack);
            assert(forall|r: int, c: int| in_grid(r, c) && old(self).board[r][c] != crate::EMPTY ==> start.candidates[r][c] == old(self).candidates[r][c]);
            assert forall|r: int, c: int, n: int|
                in_grid(r, c) && old(self).board[r][c] == crate::EMPTY implies start.cand(r, c, n) == (1 <= n <= 9 && !crate::board::in_row(old(self).board, r, n)
                    && !crate::board::in_col(old(self).board, c, n) && !crate::board::in_box(old(self).board, r, c, n)) by {
                assert(calc.cand(r, c, n) == start.cand(r, c, n));
            }
            assert(calculated(*old(self), start));
        }
        let ghost mut trace: Seq<Sudoku> = seq![*self];
        loop
            invariant
                self.original_board == old(self).original_board,
                present(*self).finite(),
                is_human_run(trace),
                trace[0] == start,
                trace.last() == *self,
            ensures
                self.original_board == old(self).original_board,
                is_human_run(trace),
                trace[0] == start,
                trace.last() == *self,
                (forall|r: int, c: int| in_grid(r, c) ==> self.board[r][c] != crate::EMPTY) || !step_takes(*self),
            decreases present(*self).len(),
        {
            if !self.unsolved() {
                break;
            }
            let ghost before = *self;
            if !self.take_step() {
                break;
            }
            proof {
                let longer = trace.push(*self);
                assert forall|i: int| 0 <= i < longer.len() - 1 implies human_step(#[trigger] longer[i], longer[i + 1]) by {
                    if i < trace.len() - 1 {
                        assert(longer[i] == trace[i] && longer[i + 1] == trace[i + 1]);
                    } else {
                        assert(longer[i] == before);
                    }
                }
                trace = longer;
            }
        }
        let solved = self.is_solved();
        proof {
            if solved && solvable(old(self).board) && bare(*old(self)) && self.rated(Strategy::LockedPair) == 0 {
                assert(trace[0].rated(Strategy::LockedPair) == 0);
                lemma_unrated_run_safe(trace);
                lemma_human_solution(*old(self), trace);
            }
        }
        solved
    }
}

} // verus!
