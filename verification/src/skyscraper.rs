//! Skyscrapers: two rows (or columns) that each hold a digit in exactly two places, one
//! of them shared; the digit leaves the cells that see both other ends.

use vstd::prelude::*;

use crate::board::{in_grid, Sudoku};
use crate::collect::{house_has, house_hits};
use crate::digits::single_bit;
use crate::fish::{cross, house_cand_at, places};
use crate::search::{first_from, ints, lemma_first_end, lemma_first_ext, lemma_first_from, lemma_first_hit, lemma_first_skip, lemma_ints_push, lemma_select, select};
use crate::pairs::house_cand;
use crate::pointing::lemma_select_ext;
use crate::{empty_view, extend_candidates, Candidate, RemovalResult, RemovalView, Strategy, StrategyResult, Unit, EMPTY};

verus! {

/// One end (`base`) and the other end (`top`), as positions in house `house`, of a digit
/// that the house holds in exactly two places.
#[derive(Debug, Clone, Copy)]
pub struct StrongLink {
    pub house: usize,
    pub base: usize,
    pub top: usize,
}

pub open spec fn link(h: int, base: int, top: int) -> StrongLink {
    StrongLink { house: h as usize, base: base as usize, top: top as usize }
}

/// Every link lies in the grid: house, base and top below 9.
pub open spec fn links_ok(v: Seq<StrongLink>) -> bool {
    forall|k: int| 0 <= k < v.len() ==> #[trigger] v[k].house < 9 && v[k].base < 9 && v[k].top < 9
}

/// The houses of kind `u` that hold `num` in exactly two places.
pub open spec fn sky_lines(s: Sudoku, u: Unit, num: int) -> Seq<int> {
    select(|h: int| places(s, u, h, num).len() == 2, 0, 9)
}

/// The links made by lines `i < j`: when their first places agree, those are the bases;
/// else when their second places agree, those are.
pub open spec fn pair_links(s: Sudoku, u: Unit, num: int, i: int, j: int) -> Seq<StrongLink> {
    let lines = sky_lines(s, u, num);
    if 0 <= i < j < lines.len() {
        let a = places(s, u, lines[i], num);
        let b = places(s, u, lines[j], num);
        if a[0] == b[0] {
            seq![link(lines[i], a[0], a[1]), link(lines[j], b[0], b[1])]
        } else if a[1] == b[1] {
            seq![link(lines[i], a[1], a[0]), link(lines[j], b[1], b[0])]
        } else {
            Seq::empty()
        }
    } else {
        Seq::empty()
    }
}

/// The links of the first `q` pairs of lines (`i = q / 9`, `j = q % 9`).
pub open spec fn links_upto(s: Sudoku, u: Unit, num: int, q: int) -> Seq<StrongLink>
    decreases q,
{
    if q <= 0 {
        Seq::empty()
    } else {
        links_upto(s, u, num, q - 1) + pair_links(s, u, num, (q - 1) / 9, (q - 1) % 9)
    }
}

/// The first `n` links whose two ends lie in different boxes.
pub open spec fn keep_apart(v: Seq<StrongLink>, n: int) -> Seq<StrongLink>
    decreases n,
{
    if n <= 0 {
        Seq::empty()
    } else if v[n - 1].base / 3 != v[n - 1].top / 3 {
        keep_apart(v, n - 1).push(v[n - 1])
    } else {
        keep_apart(v, n - 1)
    }
}

/// A rule by which two links leave the list together.
#[derive(Debug, Clone, Copy)]
pub enum DropRule {
    /// The bases share a box.
    SameBaseBox,
    /// The tops share a position.
    SameTop,
    /// The tops lie in different bands.
    TopBandsDiffer,
}

pub open spec fn drop_rule(r: DropRule, a: StrongLink, b: StrongLink) -> bool {
    match r {
        DropRule::SameBaseBox => a.house / 3 == b.house / 3 && a.base / 3 == b.base / 3,
        DropRule::SameTop => a.top == b.top,
        DropRule::TopBandsDiffer => a.top / 3 != b.top / 3,
    }
}

/// The last index `j` in `i + 1..k` whose link pairs with link `i` under the rule.
pub open spec fn last_match(v: Seq<StrongLink>, i: int, k: int, r: DropRule) -> Option<int>
    decreases k - i,
{
    if k <= i + 1 {
        None
    } else if drop_rule(r, v[i], v[k - 1]) {
        Some(k - 1)
    } else {
        last_match(v, i, k - 1, r)
    }
}

/// Walking the indices from `n - 1` down to 0, a link that pairs with a later one under the
/// rule leaves together with the last such one.
pub open spec fn drop_pairs(v: Seq<StrongLink>, n: int, r: DropRule) -> Seq<StrongLink>
    decreases n,
{
    if n <= 0 {
        v
    } else {
        match last_match(v, n - 1, v.len() as int, r) {
            Some(j) => drop_pairs(v.remove(j).remove(n - 1), n - 1, r),
            None => drop_pairs(v, n - 1, r),
        }
    }
}

/// The links of `num` left after the filters.
pub open spec fn sky_links(s: Sudoku, u: Unit, num: int) -> Seq<StrongLink> {
    let g = links_upto(s, u, num, 81);
    let k = keep_apart(g, g.len() as int);
    let d1 = drop_pairs(k, k.len() as int, DropRule::SameBaseBox);
    let d2 = drop_pairs(d1, d1.len() as int, DropRule::SameTop);
    drop_pairs(d2, d2.len() as int, DropRule::TopBandsDiffer)
}

/// The three positions of band `b`.
pub open spec fn band_bits(b: int) -> u16 {
    7u16 << (b as u16)
}

/// The candidates `num` of the crossing house at `pos`, in the houses of the band that
/// starts at `b`.
pub open spec fn segment(s: Sudoku, u: Unit, num: int, b: int, pos: int) -> Set<Candidate> {
    house_hits(s, cross(u), pos, !band_bits(b), single_bit(num as u16))
}

pub open spec fn segment_has(s: Sudoku, u: Unit, num: int, b: int, pos: int) -> bool {
    house_has(s, cross(u), pos, !band_bits(b), single_bit(num as u16))
}

/// Links `i < j` share their base position.
pub open spec fn sky_match(f: Seq<StrongLink>, i: int, j: int) -> bool {
    0 <= i < j < f.len() && f[i].base == f[j].base
}

/// Each top sees the cells of the other top's band in its own crossing house.
pub open spec fn sky_removed(s: Sudoku, u: Unit, num: int, a: StrongLink, b: StrongLink) -> Set<Candidate> {
    segment(s, u, num, 3 * (b.house / 3), a.top as int).union(segment(s, u, num, 3 * (a.house / 3), b.top as int))
}

pub open spec fn sky_len(s: Sudoku, u: Unit, num: int) -> int {
    sky_links(s, u, num).len() as int
}

/// Pair `q` of the filtered links of `num` (`i = q / L`, `j = q % L`) is a skyscraper that
/// removes something.
pub open spec fn sky_removes(s: Sudoku, u: Unit, num: int, q: int) -> bool {
    let f = sky_links(s, u, num);
    let l = f.len() as int;
    let i = q / l;
    let j = q % l;
    sky_match(f, i, j) && (segment_has(s, u, num, 3 * (f[j].house / 3), f[i].top as int) || segment_has(
        s,
        u,
        num,
        3 * (f[i].house / 3),
        f[j].top as int,
    ))
}

pub open spec fn sky_pair_cands(u: Unit, num: int, a: StrongLink, b: StrongLink) -> Seq<Candidate> {
    seq![
        house_cand_at(u, a.house as int, a.base as int, num),
        house_cand_at(u, b.house as int, b.base as int, num),
        house_cand_at(u, a.house as int, a.top as int, num),
        house_cand_at(u, b.house as int, b.top as int, num),
    ]
}

/// The ends of the skyscrapers among the first `q` pairs of the filtered links of `num`.
pub open spec fn sky_aff_num(s: Sudoku, u: Unit, num: int, q: int) -> Seq<Candidate>
    decreases q,
{
    let f = sky_links(s, u, num);
    let l = f.len() as int;
    if q <= 0 {
        Seq::empty()
    } else if sky_match(f, (q - 1) / l, (q - 1) % l) {
        sky_aff_num(s, u, num, q - 1) + sky_pair_cands(u, num, f[(q - 1) / l], f[(q - 1) % l])
    } else {
        sky_aff_num(s, u, num, q - 1)
    }
}

/// The ends of the skyscrapers of the digits below `n`.
pub open spec fn sky_aff_upto(s: Sudoku, u: Unit, n: int) -> Seq<Candidate>
    decreases n,
{
    if n <= 1 {
        Seq::empty()
    } else {
        sky_aff_upto(s, u, n - 1) + sky_aff_num(s, u, n - 1, sky_len(s, u, n - 1) * sky_len(s, u, n - 1))
    }
}

pub open spec fn first_sky_pair(s: Sudoku, u: Unit, num: int) -> Option<int> {
    first_from(|q: int| sky_removes(s, u, num, q), 0, sky_len(s, u, num) * sky_len(s, u, num))
}

pub open spec fn first_sky_num(s: Sudoku, u: Unit) -> Option<int> {
    first_from(|n: int| first_sky_pair(s, u, n) is Some, 1, 10)
}

/// Skyscrapers in the houses of kind `u`, digits in order, then pairs of filtered links:
/// the first that removes something is the result. The ends of every skyscraper met so
/// far are kept, as is done when nothing is found.
pub open spec fn skyscraper_view(s: Sudoku, u: Unit) -> RemovalView {
    match first_sky_num(s, u) {
        None => RemovalView { candidates_affected: sky_aff_upto(s, u, 10), ..empty_view() },
        Some(n) => {
            let f = sky_links(s, u, n);
            let l = f.len() as int;
            let q = first_sky_pair(s, u, n)->0;
            RemovalView {
                candidates_affected: sky_aff_upto(s, u, n) + sky_aff_num(s, u, n, q + 1),
                removed: sky_removed(s, u, n, f[q / l], f[q % l]),
                unit: Some(u),
                unit_index: Some(seq![f[q / l].house, f[q % l].house]),
                ..empty_view()
            }
        },
    }
}

/// Every cell that the search looks at for removal, up to the result, is empty.
pub open spec fn skyscraper_in_defined(s: Sudoku, u: Unit) -> bool {
    let last_num = match first_sky_num(s, u) {
        Some(n) => n,
        None => 10,
    };
    forall|n: int, q: int|
        1 <= n <= 9 && 0 <= q < sky_len(s, u, n) * sky_len(s, u, n) && #[trigger] sky_match(
            sky_links(s, u, n),
            q / sky_len(s, u, n),
            q % sky_len(s, u, n),
        ) && (n < last_num || (n == last_num && q <= first_sky_pair(s, u, n)->0)) ==> forall|x: Candidate|
            #[trigger] sky_removed(
                s,
                u,
                n,
                sky_links(s, u, n)[q / sky_len(s, u, n)],
                sky_links(s, u, n)[q % sky_len(s, u, n)],
            ).contains(x) ==> s.board[x.row as int][x.col as int] == EMPTY
}

pub open spec fn skyscraper_defined(s: Sudoku) -> bool {
    &&& skyscraper_in_defined(s, Unit::Row)
    &&& first_sky_num(s, Unit::Row) is None ==> skyscraper_in_defined(s, Unit::Column)
}

/// Rows first, then columns.
pub open spec fn skyscraper_strategy_view(s: Sudoku) -> RemovalView {
    if first_sky_num(s, Unit::Row) is Some {
        skyscraper_view(s, Unit::Row)
    } else {
        skyscraper_view(s, Unit::Column)
    }
}

/// A skyscraper result removes something exactly when one was found.
pub proof fn lemma_skyscraper_nonempty(s: Sudoku, u: Unit)
    ensures
        (skyscraper_view(s, u).removed != Set::<Candidate>::empty()) == (first_sky_num(s, u) is Some),
{
    lemma_first_from(|n: int| first_sky_pair(s, u, n) is Some, 1, 10);
    if first_sky_num(s, u) is Some {
        let n = first_sky_num(s, u)->0;
        let l = sky_len(s, u, n);
        lemma_first_from(|q: int| sky_removes(s, u, n, q), 0, l * l);
        let q = first_sky_pair(s, u, n)->0;
        let f = sky_links(s, u, n);
        let a = f[q / l];
        let b = f[q % l];
        if segment_has(s, u, n, 3 * (b.house / 3), a.top as int) {
            let x = choose|x: Candidate| #[trigger] house_hits(s, cross(u), a.top as int, !band_bits(3 * (b.house / 3)), single_bit(n as u16)).contains(x);
            assert(skyscraper_view(s, u).removed.contains(x));
        } else {
            let x = choose|x: Candidate| #[trigger] house_hits(s, cross(u), b.top as int, !band_bits(3 * (a.house / 3)), single_bit(n as u16)).contains(x);
            assert(skyscraper_view(s, u).removed.contains(x));
        }
    }
}

fn rule_holds(r: DropRule, a: StrongLink, b: StrongLink) -> (res: bool)
    ensures
        res == drop_rule(r, a, b),
{
    match r {
        DropRule::SameBaseBox => a.house / 3 == b.house / 3 && a.base / 3 == b.base / 3,
        DropRule::SameTop => a.top == b.top,
        DropRule::TopBandsDiffer => a.top / 3 != b.top / 3,
    }
}

/// The links whose two ends lie in different boxes.
fn sky_keep(v: &Vec<StrongLink>) -> (out: Vec<StrongLink>)
    requires
        links_ok(v@),
    ensures
        out@ == keep_apart(v@, v@.len() as int),
        out@.len() <= v@.len(),
        links_ok(out@),
{
    let mut out: Vec<StrongLink> = Vec::new();
    let mut k: usize = 0;
    while k < v.len()
        invariant
            k <= v@.len(),
            out@ == keep_apart(v@, k as int),
            out@.len() <= k,
            links_ok(v@),
            links_ok(out@),
        decreases v@.len() - k,
    {
        if v[k].base / 3 != v[k].top / 3 {
            out.push(v[k]);
        }
        k = k + 1;
    }
    out
}

/// Apply `drop_pairs` with the rule to the whole list.
fn sky_drop(v: Vec<StrongLink>, r: DropRule) -> (out: Vec<StrongLink>)
    requires
        links_ok(v@),
    ensures
        out@ == drop_pairs(v@, v@.len() as int, r),
        out@.len() <= v@.len(),
        links_ok(out@),
{
    let ghost orig = v@;
    let mut v = v;
    let mut n: usize = v.len();
    while n > 0
        invariant
            n <= v@.len(),
            v@.len() <= orig.len(),
            drop_pairs(orig, orig.len() as int, r) == drop_pairs(v@, n as int, r),
            links_ok(v@),
        decreases n,
    {
        let i = n - 1;
        let mut k: usize = v.len();
        let mut found: Option<usize> = None;
        while k > i + 1
            invariant_except_break
                found is None,
            invariant
                i < k <= v@.len(),
                last_match(v@, i as int, v@.len() as int, r) == last_match(v@, i as int, k as int, r),
            ensures
                found matches Some(j) ==> last_match(v@, i as int, v@.len() as int, r) == Some(j as int) && i < j < v@.len(),
                found is None ==> last_match(v@, i as int, v@.len() as int, r) is None,
            decreases k,
        {
            if rule_holds(r, v[i], v[k - 1]) {
                found = Some(k - 1);
                break;
            }
            k = k - 1;
        }
        match found {
            Some(j) => {
                let ghost v0 = v@;
                v.remove(j);
                let ghost v1 = v@;
                v.remove(i);
                proof {
                    v0.remove_ensures(j as int);
                    v1.remove_ensures(i as int);
                }
            },
            None => {},
        }
        n = i;
    }
    v
}

impl Sudoku {
    /// The links of `num` made by the pairs of lines; see `links_upto`.
    fn sky_gen(&self, u: Unit, num: u8) -> (v: Vec<StrongLink>)
        ensures
            v@ == links_upto(*self, u, num as int, 81),
            v@.len() <= 162,
            links_ok(v@),
    {
        let ghost p = |h: int| places(*self, u, h, num as int).len() == 2;
        let mut lines: Vec<usize> = Vec::new();
        let mut firsts: Vec<usize> = Vec::new();
        let mut seconds: Vec<usize> = Vec::new();
        let mut h: usize = 0;
        while h < 9
            invariant
                h <= 9,
                p == (|h: int| places(*self, u, h, num as int).len() == 2),
                ints(lines@) == select(p, 0, h as int),
                lines@.len() == firsts@.len(),
                lines@.len() == seconds@.len(),
                forall|k: int| 0 <= k < lines@.len() ==> #[trigger] lines@[k] < 9 && places(*self, u, lines@[k] as int, num as int).len() == 2
                    && firsts@[k] == places(*self, u, lines@[k] as int, num as int)[0] && seconds@[k] == places(*self, u, lines@[k] as int, num as int)[1],
                forall|k: int| 0 <= k < lines@.len() ==> #[trigger] firsts@[k] < 9 && seconds@[k] < 9,
            decreases 9 - h,
        {
            let cells = self.cells_with(u, h, num, 0, 9);
            proof {
                assert(ints(cells@).len() == cells@.len());
            }
            if cells.len() == 2 {
                proof {
                    lemma_ints_push(lines@, h);
                }
                lines.push(h);
                firsts.push(cells[0]);
                seconds.push(cells[1]);
            }
            h = h + 1;
        }
        let m = lines.len();
        let mut v: Vec<StrongLink> = Vec::new();
        let mut q: usize = 0;
        while q < 81
            invariant
                q <= 81,
                m == lines@.len(),
                ints(lines@) == sky_lines(*self, u, num as int),
                lines@.len() == firsts@.len(),
                lines@.len() == seconds@.len(),
                forall|k: int| 0 <= k < lines@.len() ==> #[trigger] lines@[k] < 9 && places(*self, u, lines@[k] as int, num as int).len() == 2
                    && firsts@[k] == places(*self, u, lines@[k] as int, num as int)[0] && seconds@[k] == places(*self, u, lines@[k] as int, num as int)[1],
                v@ == links_upto(*self, u, num as int, q as int),
                v@.len() <= 2 * q,
                links_ok(v@),
                forall|k: int| 0 <= k < lines@.len() ==> #[trigger] firsts@[k] < 9 && seconds@[k] < 9,
            decreases 81 - q,
        {
            let i = q / 9;
            let j = q % 9;
            let ghost before = v@;
            if i < j && j < m {
                assert(ints(lines@)[i as int] == lines@[i as int]);
                assert(ints(lines@)[j as int] == lines@[j as int]);
                if firsts[i] == firsts[j] {
                    v.push(StrongLink { house: lines[i], base: firsts[i], top: seconds[i] });
                    v.push(StrongLink { house: lines[j], base: firsts[j], top: seconds[j] });
                } else if seconds[i] == seconds[j] {
                    v.push(StrongLink { house: lines[i], base: seconds[i], top: firsts[i] });
                    v.push(StrongLink { house: lines[j], base: seconds[j], top: firsts[j] });
                }
            }
            proof {
                assert(v@ =~= before + pair_links(*self, u, num as int, i as int, j as int));
            }
            q = q + 1;
        }
        v
    }

    /// The links of `num` left after the filters; see `sky_links`.
    fn sky_links_of(&self, u: Unit, num: u8) -> (f: Vec<StrongLink>)
        ensures
            f@ == sky_links(*self, u, num as int),
            f@.len() <= 162,
            links_ok(f@),
    {
        let g = self.sky_gen(u, num);
        let k = sky_keep(&g);
        let d1 = sky_drop(k, DropRule::SameBaseBox);
        let d2 = sky_drop(d1, DropRule::SameTop);
        sky_drop(d2, DropRule::TopBandsDiffer)
    }

    /// The candidates a skyscraper of links `a` and `b` removes; see `sky_removed`.
    fn sky_removals(&self, u: Unit, cu: Unit, num: u8, a: StrongLink, b: StrongLink) -> (v: Vec<Candidate>)
        requires
            cu == cross(u),
            1 <= num <= 9,
            a.house < 9,
            b.house < 9,
        ensures
            v@.no_duplicates(),
            v@.to_set() == sky_removed(*self, u, num as int, a, b),
            (v@.len() > 0) == (segment_has(*self, u, num as int, 3 * (b.house / 3), a.top as int) || segment_has(
                *self,
                u,
                num as int,
                3 * (a.house / 3),
                b.top as int,
            )),
    {
        let band_b: u16 = (3 * (b.house / 3)) as u16;
        let band_a: u16 = (3 * (a.house / 3)) as u16;
        let nums: u16 = 1u16 << (num as u16);
        let mut removed = self.collect_house(cu, a.top, !(7u16 << band_b), nums);
        let more = self.collect_house(cu, b.top, !(7u16 << band_a), nums);
        let ghost first_part = removed@;
        extend_candidates(&mut removed, &more);
        proof {
            assert(removed@.to_set() =~= first_part.to_set().union(more@.to_set()));
            if first_part.len() > 0 {
                assert(removed@.contains(first_part[0]));
            }
            if more@.len() > 0 {
                assert(removed@.contains(more@[0]));
            }
            if removed@.len() > 0 {
                assert(removed@.contains(removed@[0]));
            }
        }
        removed
    }

    /// The first skyscraper of `num` that removes something: the candidates it removes and
    /// the houses of its two bases. The ends of the skyscrapers met are appended to `affected`.
    #[verifier::rlimit(40)]
    fn sky_in_num(&self, u: Unit, cu: Unit, num: u8, affected: &mut Vec<Candidate>) -> (res: Option<(Vec<Candidate>, usize, usize)>)
        requires
            u != Unit::Box,
            cu == cross(u),
            1 <= num <= 9,
        ensures
            res is None <==> first_sky_pair(*self, u, num as int) is None,
            res is None ==> final(affected)@ == old(affected)@ + sky_aff_num(*self, u, num as int, sky_len(*self, u, num as int) * sky_len(*self, u, num as int)),
            res matches Some((v, h1, h2)) ==> {
                let f = sky_links(*self, u, num as int);
                let l = f.len() as int;
                let q = first_sky_pair(*self, u, num as int)->0;
                &&& final(affected)@ == old(affected)@ + sky_aff_num(*self, u, num as int, q + 1)
                &&& v@.no_duplicates()
                &&& v@.to_set() == sky_removed(*self, u, num as int, f[q / l], f[q % l])
                &&& h1 == f[q / l].house
                &&& h2 == f[q % l].house
            },
    {
        let f = self.sky_links_of(u, num);
        let l = f.len();
        assert(l * l <= 162 * 162) by (nonlinear_arith)
            requires
                l <= 162,
        ;
        let ll = l * l;
        let ghost start = affected@;
        let ghost pq = |q: int| sky_removes(*self, u, num as int, q);
        let mut q: usize = 0;
        while q < ll
            invariant
                1 <= num <= 9,
                cu == cross(u),
                l == f@.len(),
                ll == l * l,
                links_ok(f@),
                f@ == sky_links(*self, u, num as int),
                pq == (|q: int| sky_removes(*self, u, num as int, q)),
                first_sky_pair(*self, u, num as int) == first_from(pq, q as int, ll as int),
                q <= ll,
                start == old(affected)@,
                affected@ == start + sky_aff_num(*self, u, num as int, q as int),
            decreases ll - q,
        {
            let i = q / l;
            let j = q % l;
            let ghost before = affected@;
            if i < j && f[i].base == f[j].base {
                let a = f[i];
                let b = f[j];
                let (r1, c1) = Self::unit_cell(u, 9 * a.house + a.base);
                let (r2, c2) = Self::unit_cell(u, 9 * b.house + b.base);
                let (r3, c3) = Self::unit_cell(u, 9 * a.house + a.top);
                let (r4, c4) = Self::unit_cell(u, 9 * b.house + b.top);
                affected.push(Candidate { row: r1, col: c1, num });
                affected.push(Candidate { row: r2, col: c2, num });
                affected.push(Candidate { row: r3, col: c3, num });
                affected.push(Candidate { row: r4, col: c4, num });
                proof {
                    assert(sky_match(f@, i as int, j as int));
                    assert(affected@ =~= before + sky_pair_cands(u, num as int, a, b));
                    assert(sky_aff_num(*self, u, num as int, q + 1) == sky_aff_num(*self, u, num as int, q as int) + sky_pair_cands(u, num as int, a, b));
                    assert(affected@ =~= start + sky_aff_num(*self, u, num as int, q + 1));
                }
                let removed = self.sky_removals(u, cu, num, a, b);
                if removed.len() > 0 {
                    proof {
                        assert(pq(q as int));
                        lemma_first_hit(pq, q as int, ll as int);
                        assert(first_sky_pair(*self, u, num as int)->0 == q);
                        assert(f@[q as int / l as int] == a);
                        assert(f@[q as int % l as int] == b);
                        assert(affected@ == old(affected)@ + sky_aff_num(*self, u, num as int, q + 1));
                    }
                    return Some((removed, a.house, b.house));
                }
            } else {
                proof {
                    assert(!sky_match(f@, i as int, j as int));
                }
            }
            proof {
                assert(!pq(q as int));
                lemma_first_skip(pq, q as int, ll as int);
            }
            q = q + 1;
        }
        proof {
            lemma_first_end(pq, ll as int);
        }
        None
    }

    /// Skyscrapers in the houses of kind `u`, rows or columns; see `skyscraper_view`.
    fn find_skyscraper_in(&self, u: Unit) -> (res: RemovalResult)
        requires
            u != Unit::Box,
            skyscraper_in_defined(*self, u),
        ensures
            res.wf(),
            res@ == skyscraper_view(*self, u),
    {
        let cu = match u {
            Unit::Row => Unit::Column,
            _ => Unit::Row,
        };
        let ghost pn = |n: int| first_sky_pair(*self, u, n) is Some;
        let mut affected: Vec<Candidate> = Vec::new();
        let mut num: u8 = 1;
        while num <= 9
            invariant
                1 <= num <= 10,
                u != Unit::Box,
                cu == cross(u),
                pn == (|n: int| first_sky_pair(*self, u, n) is Some),
                first_sky_num(*self, u) == first_from(pn, num as int, 10),
                affected@ == sky_aff_upto(*self, u, num as int),
            decreases 10 - num,
        {
            match self.sky_in_num(u, cu, num, &mut affected) {
                Some((removed, h1, h2)) => {
                    proof {
                        assert(pn(num as int));
                        lemma_first_hit(pn, num as int, 10);
                    }
                    let result = RemovalResult {
                        sets_cell: None,
                        cells_affected: Vec::new(),
                        candidates_affected: affected,
                        candidates_about_to_be_removed: removed,
                        unit: Some(u),
                        unit_index: Some(vec![h1, h2]),
                    };
                    proof {
                        assert(result@.unit_index == Some(seq![h1, h2]));
                        assert(result@ =~= skyscraper_view(*self, u));
                    }
                    return result;
                },
                None => {
                    proof {
                        assert(!pn(num as int));
                        lemma_first_skip(pn, num as int, 10);
                        assert(affected@ =~= sky_aff_upto(*self, u, num + 1));
                    }
                },
            }
            num = num + 1;
        }
        proof {
            lemma_first_end(pn, 10);
        }
        let mut result = RemovalResult::empty();
        result.candidates_affected = affected;
        proof {
            assert(result@ =~= skyscraper_view(*self, u));
        }
        result
    }

    /// Skyscrapers in rows; the cells it looks at for removal must be empty.
    pub fn find_skyscraper_in_rows(&self) -> (res: RemovalResult)
        requires
            skyscraper_in_defined(*self, Unit::Row),
        ensures
            res.wf(),
            res@ == skyscraper_view(*self, Unit::Row),
    {
        self.find_skyscraper_in(Unit::Row)
    }

    /// Skyscrapers in columns; the cells it looks at for removal must be empty.
    pub fn find_skyscraper_in_cols(&self) -> (res: RemovalResult)
        requires
            skyscraper_in_defined(*self, Unit::Column),
        ensures
            res.wf(),
            res@ == skyscraper_view(*self, Unit::Column),
    {
        self.find_skyscraper_in(Unit::Column)
    }

    /// Skyscrapers: rows first, then columns.
    pub fn find_skyscraper(&self) -> (res: StrategyResult)
        requires
            skyscraper_defined(*self),
        ensures
            res.strategy == Strategy::Skyscraper,
            res.removals.wf(),
            res.removals@ == skyscraper_strategy_view(*self),
    {
        proof {
            lemma_skyscraper_nonempty(*self, Unit::Row);
        }
        let result = self.find_skyscraper_in_rows();
        if result.will_remove_candidates() {
            return StrategyResult { strategy: Strategy::Skyscraper, removals: result };
        }
        let result = self.find_skyscraper_in_cols();
        StrategyResult { strategy: Strategy::Skyscraper, removals: result }
    }

    /// Whether every listed candidate sits in an empty cell.
    fn cells_empty(&self, v: &Vec<Candidate>) -> (b: bool)
        requires
            forall|x: Candidate| #[trigger] v@.contains(x) ==> x.row < 9 && x.col < 9,
        ensures
            b == forall|x: Candidate| #[trigger] v@.contains(x) ==> self.board[x.row as int][x.col as int] == EMPTY,
    {
        let mut k: usize = 0;
        while k < v.len()
            invariant
                k <= v@.len(),
                forall|x: Candidate| #[trigger] v@.contains(x) ==> x.row < 9 && x.col < 9,
                forall|j: int| 0 <= j < k ==> self.board[v@[j].row as int][v@[j].col as int] == EMPTY,
            decreases v@.len() - k,
        {
            let x = v[k];
            assert(v@.contains(x));
            if self.board[x.row][x.col] != EMPTY {
                return false;
            }
            k = k + 1;
        }
        proof {
            assert forall|x: Candidate| #[trigger] v@.contains(x) implies self.board[x.row as int][x.col as int] == EMPTY by {
                let j = choose|j: int| 0 <= j < v@.len() && v@[j] == x;
            }
        }
        true
    }

    /// Whether the search for skyscrapers in the houses of kind `u` only looks at empty
    /// cells for removal; see `skyscraper_in_defined`.
    fn sky_clean_in(&self, u: Unit) -> (b: bool)
        requires
            u != Unit::Box,
        ensures
            b == skyscraper_in_defined(*self, u),
    {
        let cu = match u {
            Unit::Row => Unit::Column,
            _ => Unit::Row,
        };
        let ghost pn = |n: int| first_sky_pair(*self, u, n) is Some;
        let mut num: u8 = 1;
        while num <= 9
            invariant
                1 <= num <= 10,
                u != Unit::Box,
                cu == cross(u),
                pn == (|n: int| first_sky_pair(*self, u, n) is Some),
                first_sky_num(*self, u) == first_from(pn, num as int, 10),
                forall|n: int, q: int|
                    1 <= n < num && 0 <= q < sky_len(*self, u, n) * sky_len(*self, u, n) && #[trigger] sky_match(
                        sky_links(*self, u, n),
                        q / sky_len(*self, u, n),
                        q % sky_len(*self, u, n),
                    ) ==> forall|x: Candidate|
                        #[trigger] sky_removed(
                            *self,
                            u,
                            n,
                            sky_links(*self, u, n)[q / sky_len(*self, u, n)],
                            sky_links(*self, u, n)[q % sky_len(*self, u, n)],
                        ).contains(x) ==> self.board[x.row as int][x.col as int] == EMPTY,
            decreases 10 - num,
        {
            let f = self.sky_links_of(u, num);
            let l = f.len();
            assert(l * l <= 162 * 162) by (nonlinear_arith)
                requires
                    l <= 162,
            ;
            let ll = l * l;
            let ghost pq = |q: int| sky_removes(*self, u, num as int, q);
            let mut q: usize = 0;
            while q < ll
                invariant
                    1 <= num <= 9,
                    u != Unit::Box,
                    cu == cross(u),
                    l == f@.len(),
                    ll == l * l,
                    links_ok(f@),
                    f@ == sky_links(*self, u, num as int),
                    pq == (|q: int| sky_removes(*self, u, num as int, q)),
                    first_sky_pair(*self, u, num as int) == first_from(pq, q as int, ll as int),
                    q <= ll,
                    pn == (|n: int| first_sky_pair(*self, u, n) is Some),
                    first_sky_num(*self, u) == first_from(pn, num as int, 10),
                    forall|n: int, q: int|
                        1 <= n < num && 0 <= q < sky_len(*self, u, n) * sky_len(*self, u, n) && #[trigger] sky_match(
                            sky_links(*self, u, n),
                            q / sky_len(*self, u, n),
                            q % sky_len(*self, u, n),
                        ) ==> forall|x: Candidate|
                            #[trigger] sky_removed(
                                *self,
                                u,
                                n,
                                sky_links(*self, u, n)[q / sky_len(*self, u, n)],
                                sky_links(*self, u, n)[q % sky_len(*self, u, n)],
                            ).contains(x) ==> self.board[x.row as int][x.col as int] == EMPTY,
                    forall|q2: int|
                        0 <= q2 < q && #[trigger] sky_match(f@, q2 / (l as int), q2 % (l as int)) ==> forall|x: Candidate|
                            #[trigger] sky_removed(*self, u, num as int, f@[q2 / (l as int)], f@[q2 % (l as int)]).contains(x)
                                ==> self.board[x.row as int][x.col as int] == EMPTY,
                decreases ll - q,
            {
                let i = q / l;
                let j = q % l;
                if i < j && f[i].base == f[j].base {
                    let a = f[i];
                    let b = f[j];
                    let v = self.sky_removals(u, cu, num, a, b);
                    proof {
                        assert forall|x: Candidate| #[trigger] v@.contains(x) implies x.row < 9 && x.col < 9 by {
                            assert(v@.to_set().contains(x));
                        }
                    }
                    let clean = self.cells_empty(&v);
                    proof {
                        assert(sky_match(f@, i as int, j as int));
                        assert forall|x: Candidate| #[trigger] sky_removed(*self, u, num as int, a, b).contains(x) implies (v@.contains(x)) by {
                            assert(v@.to_set().contains(x));
                        }
                    }
                    if !clean {
                        proof {
                            let x = choose|x: Candidate| #[trigger] v@.contains(x) && self.board[x.row as int][x.col as int] != EMPTY;
                            assert(v@.to_set().contains(x));
                            lemma_first_from(pn, num as int, 10);
                            lemma_first_from(pq, q as int, ll as int);
                            if first_sky_num(*self, u) == Some(num as int) {
                                assert(pn(num as int));
                            }
                            assert(sky_match(sky_links(*self, u, num as int), (q as int) / sky_len(*self, u, num as int), (q as int) % sky_len(*self, u, num as int)));
                        }
                        return false;
                    }
                    if v.len() > 0 {
                        proof {
                            assert(pq(q as int));
                            lemma_first_hit(pq, q as int, ll as int);
                            assert(pn(num as int));
                            lemma_first_hit(pn, num as int, 10);
                            assert forall|n: int, q3: int|
                                1 <= n <= 9 && 0 <= q3 < sky_len(*self, u, n) * sky_len(*self, u, n) && #[trigger] sky_match(
                                    sky_links(*self, u, n),
                                    q3 / sky_len(*self, u, n),
                                    q3 % sky_len(*self, u, n),
                                ) && (n < num || (n == num && q3 <= q)) implies forall|x: Candidate|
                                    #[trigger] sky_removed(
                                        *self,
                                        u,
                                        n,
                                        sky_links(*self, u, n)[q3 / sky_len(*self, u, n)],
                                        sky_links(*self, u, n)[q3 % sky_len(*self, u, n)],
                                    ).contains(x) ==> self.board[x.row as int][x.col as int] == EMPTY by {
                                if n == num && q3 < q {
                                    assert(sky_match(f@, q3 / (l as int), q3 % (l as int)));
                                }
                            }
                        }
                        return true;
                    }
                }
                q = q + 1;
            }
            proof {
                lemma_first_end(pq, ll as int);
                assert(!pn(num as int));
                lemma_first_skip(pn, num as int, 10);
                assert forall|n: int, q3: int|
                    1 <= n < num + 1 && 0 <= q3 < sky_len(*self, u, n) * sky_len(*self, u, n) && #[trigger] sky_match(
                        sky_links(*self, u, n),
                        q3 / sky_len(*self, u, n),
                        q3 % sky_len(*self, u, n),
                    ) implies forall|x: Candidate|
                        #[trigger] sky_removed(
                            *self,
                            u,
                            n,
                            sky_links(*self, u, n)[q3 / sky_len(*self, u, n)],
                            sky_links(*self, u, n)[q3 % sky_len(*self, u, n)],
                        ).contains(x) ==> self.board[x.row as int][x.col as int] == EMPTY by {
                    if n == num {
                        assert(sky_match(f@, q3 / (l as int), q3 % (l as int)));
                    }
                }
            }
            num = num + 1;
        }
        proof {
            lemma_first_end(pn, 10);
        }
        true
    }

    /// Whether the search for skyscrapers can look at the grid; see `skyscraper_defined`.
    pub fn skyscraper_ok(&self) -> (b: bool)
        ensures
            b == skyscraper_defined(*self),
    {
        if !self.sky_clean_in(Unit::Row) {
            return false;
        }
        proof {
            lemma_skyscraper_nonempty(*self, Unit::Row);
        }
        let rows = self.find_skyscraper_in_rows();
        if rows.will_remove_candidates() {
            return true;
        }
        self.sky_clean_in(Unit::Column)
    }
}

/// `t` is `s` with rows and columns swapped, the board and the candidates.
pub open spec fn transposed(s: Sudoku, t: Sudoku) -> bool {
    forall|r: int, c: int| in_grid(r, c) ==> t.board[r][c] == s.board[c][r] && #[trigger] t.candidates[r][c] == s.candidates[c][r]
}

/// The candidate with its row and column swapped.
pub open spec fn flip(x: Candidate) -> Candidate {
    Candidate { row: x.col, col: x.row, num: x.num }
}

/// The places of a digit in a column of the swapped grid are those in the row of the grid.
proof fn lemma_places_transposed(s: Sudoku, t: Sudoku, h: int, num: int)
    requires
        transposed(s, t),
        0 <= h < 9,
    ensures
        places(t, Unit::Column, h, num) == places(s, Unit::Row, h, num),
{
    let p = house_cand(t, Unit::Column, h, num);
    let q = house_cand(s, Unit::Row, h, num);
    assert forall|i: int| 0 <= i < 9 implies #[trigger] p(i) == q(i) by {
        assert((9 * h + i) / 9 == h && (9 * h + i) % 9 == i);
        assert(in_grid(i, h));
        assert(t.candidates[i][h] == s.candidates[h][i]);
    }
    lemma_select_ext(p, q, 0, 9);
}

/// The links of a digit in the columns of the swapped grid are those in the rows.
proof fn lemma_links_transposed(s: Sudoku, t: Sudoku, num: int)
    requires
        transposed(s, t),
    ensures
        sky_lines(t, Unit::Column, num) == sky_lines(s, Unit::Row, num),
        forall|q: int| 0 <= q <= 81 ==> #[trigger] links_upto(t, Unit::Column, num, q) == links_upto(s, Unit::Row, num, q),
        sky_links(t, Unit::Column, num) == sky_links(s, Unit::Row, num),
{
    assert forall|h: int| 0 <= h < 9 implies places(t, Unit::Column, h, num) == places(s, Unit::Row, h, num) by {
        lemma_places_transposed(s, t, h, num);
    }
    let pl = |h: int| places(t, Unit::Column, h, num).len() == 2;
    let ql = |h: int| places(s, Unit::Row, h, num).len() == 2;
    assert forall|h: int| 0 <= h < 9 implies #[trigger] pl(h) == ql(h) by {}
    lemma_select_ext(pl, ql, 0, 9);
    let lines = sky_lines(s, Unit::Row, num);
    crate::search::lemma_select(ql, 0, 9);
    assert forall|i: int, j: int| #[trigger] pair_links(t, Unit::Column, num, i, j) == pair_links(s, Unit::Row, num, i, j) by {
        if 0 <= i < j < lines.len() {
            assert(0 <= lines[i] < 9 && 0 <= lines[j] < 9);
        }
    }
    assert forall|q: int| 0 <= q <= 81 implies #[trigger] links_upto(t, Unit::Column, num, q) == links_upto(s, Unit::Row, num, q) by {
        lemma_links_upto_transposed(s, t, num, q);
    }
    assert(links_upto(t, Unit::Column, num, 81) == links_upto(s, Unit::Row, num, 81));
}

proof fn lemma_links_upto_transposed(s: Sudoku, t: Sudoku, num: int, q: int)
    requires
        forall|i: int, j: int| #[trigger] pair_links(t, Unit::Column, num, i, j) == pair_links(s, Unit::Row, num, i, j),
    ensures
        links_upto(t, Unit::Column, num, q) == links_upto(s, Unit::Row, num, q),
    decreases q,
{
    if q > 0 {
        lemma_links_upto_transposed(s, t, num, q - 1);
        assert(pair_links(t, Unit::Column, num, (q - 1) / 9, (q - 1) % 9) == pair_links(s, Unit::Row, num, (q - 1) / 9, (q - 1) % 9));
    }
}

/// A stretch of a row of the swapped grid holds, swapped, what the same stretch of the
/// column of the grid holds.
proof fn lemma_segment_transposed(s: Sudoku, t: Sudoku, num: int, b: int, pos: int)
    requires
        transposed(s, t),
    ensures
        forall|x: Candidate| #[trigger] segment(t, Unit::Column, num, b, pos).contains(x) == segment(s, Unit::Row, num, b, pos).contains(flip(x)),
        segment_has(t, Unit::Column, num, b, pos) == segment_has(s, Unit::Row, num, b, pos),
{
    assert forall|x: Candidate| #[trigger] segment(t, Unit::Column, num, b, pos).contains(x) == segment(s, Unit::Row, num, b, pos).contains(
        flip(x),
    ) by {
        if x.row < 9 && x.col < 9 {
            assert(in_grid(x.row as int, x.col as int));
            assert(t.candidates[x.row as int][x.col as int] == s.candidates[x.col as int][x.row as int]);
        }
    }
    if segment_has(t, Unit::Column, num, b, pos) {
        let x = choose|x: Candidate| #[trigger] house_hits(t, Unit::Row, pos, !band_bits(b), single_bit(num as u16)).contains(x);
        assert(segment(t, Unit::Column, num, b, pos).contains(x));
        assert(house_hits(s, Unit::Column, pos, !band_bits(b), single_bit(num as u16)).contains(flip(x)));
    }
    if segment_has(s, Unit::Row, num, b, pos) {
        let y = choose|y: Candidate| #[trigger] house_hits(s, Unit::Column, pos, !band_bits(b), single_bit(num as u16)).contains(y);
        assert(flip(flip(y)) == y);
        assert(segment(s, Unit::Row, num, b, pos).contains(flip(flip(y))));
        assert(house_hits(t, Unit::Row, pos, !band_bits(b), single_bit(num as u16)).contains(flip(y)));
    }
}

/// Skyscrapers in the columns of the swapped grid are those in the rows of the grid,
/// swapped: the same digit and houses, and the removed candidates with their rows and
/// columns swapped.
pub proof fn lemma_skyscraper_transposed(s: Sudoku, t: Sudoku)
    requires
        transposed(s, t),
    ensures
        first_sky_num(t, Unit::Column) == first_sky_num(s, Unit::Row),
        skyscraper_view(t, Unit::Column).unit_index == skyscraper_view(s, Unit::Row).unit_index,
        forall|x: Candidate| #[trigger] skyscraper_view(t, Unit::Column).removed.contains(x) == skyscraper_view(s, Unit::Row).removed.contains(
            flip(x),
        ),
        skyscraper_view(t, Unit::Column).sets_cell is None,
{
    assert forall|n: int| #[trigger] first_sky_pair(t, Unit::Column, n) == first_sky_pair(s, Unit::Row, n) by {
        lemma_links_transposed(s, t, n);
        let l = sky_len(s, Unit::Row, n);
        let f = sky_links(s, Unit::Row, n);
        let p = |q: int| sky_removes(t, Unit::Column, n, q);
        let r = |q: int| sky_removes(s, Unit::Row, n, q);
        assert forall|q: int| 0 <= q < l * l implies #[trigger] p(q) == r(q) by {
            lemma_segment_transposed(s, t, n, 3 * (f[q % l].house / 3), f[q / l].top as int);
            lemma_segment_transposed(s, t, n, 3 * (f[q / l].house / 3), f[q % l].top as int);
        }
        lemma_first_ext(p, r, 0, l * l);
    }
    let pn = |n: int| first_sky_pair(t, Unit::Column, n) is Some;
    let rn = |n: int| first_sky_pair(s, Unit::Row, n) is Some;
    assert forall|n: int| 1 <= n < 10 implies #[trigger] pn(n) == rn(n) by {
        assert(first_sky_pair(t, Unit::Column, n) == first_sky_pair(s, Unit::Row, n));
    }
    lemma_first_ext(pn, rn, 1, 10);
    if let Some(n) = first_sky_num(s, Unit::Row) {
        lemma_links_transposed(s, t, n);
        assert(first_sky_pair(t, Unit::Column, n) == first_sky_pair(s, Unit::Row, n));
        let f = sky_links(s, Unit::Row, n);
        let l = f.len() as int;
        let q = first_sky_pair(s, Unit::Row, n)->0;
        lemma_segment_transposed(s, t, n, 3 * (f[q % l].house / 3), f[q / l].top as int);
        lemma_segment_transposed(s, t, n, 3 * (f[q / l].house / 3), f[q % l].top as int);
        assert forall|x: Candidate| #[trigger] skyscraper_view(t, Unit::Column).removed.contains(x) == skyscraper_view(
            s,
            Unit::Row,
        ).removed.contains(flip(x)) by {
            assert(segment(t, Unit::Column, n, 3 * (f[q % l].house / 3), f[q / l].top as int).contains(x) == segment(
                s,
                Unit::Row,
                n,
                3 * (f[q % l].house / 3),
                f[q / l].top as int,
            ).contains(flip(x)));
            assert(segment(t, Unit::Column, n, 3 * (f[q / l].house / 3), f[q % l].top as int).contains(x) == segment(
                s,
                Unit::Row,
                n,
                3 * (f[q / l].house / 3),
                f[q % l].top as int,
            ).contains(flip(x)));
        }
    }
}


// ---- what the filters leave ----

/// Link `l` joins the two places of `num` in its house, one as base and one as top.
pub open spec fn genuine(s: Sudoku, u: Unit, num: int, l: StrongLink) -> bool {
    let ps = places(s, u, l.house as int, num);
    &&& l.house < 9
    &&& ps.len() == 2
    &&& ((l.base == ps[0] && l.top == ps[1]) || (l.base == ps[1] && l.top == ps[0]))
}

pub open spec fn all_genuine(s: Sudoku, u: Unit, num: int, v: Seq<StrongLink>) -> bool {
    forall|k: int| 0 <= k < v.len() ==> #[trigger] genuine(s, u, num, v[k])
}

/// No two links at positions `a < b`, from `lo` on, pair under the rule.
pub open spec fn rule_free(v: Seq<StrongLink>, lo: int, r: DropRule) -> bool {
    forall|a: int, b: int| lo <= a < b < v.len() ==> !#[trigger] drop_rule(r, v[a], v[b])
}

/// Where position `k` of a list that lost positions `i < j` was before.
pub open spec fn skip_two(i: int, j: int, k: int) -> int {
    if k < i {
        k
    } else if k + 1 < j {
        k + 1
    } else {
        k + 2
    }
}

proof fn lemma_last_match(v: Seq<StrongLink>, i: int, k: int, r: DropRule)
    requires
        0 <= i,
        k <= v.len(),
    ensures
        last_match(v, i, k, r) matches Some(j) ==> i < j < k && drop_rule(r, v[i], v[j]),
        last_match(v, i, k, r) is None ==> forall|j: int| i < j < k ==> !#[trigger] drop_rule(r, v[i], v[j]),
    decreases k - i,
{
    if k > i + 1 {
        lemma_last_match(v, i, k - 1, r);
    }
}

proof fn lemma_remove_two(v: Seq<StrongLink>, i: int, j: int)
    requires
        0 <= i < j < v.len(),
    ensures
        v.remove(j).remove(i).len() == v.len() - 2,
        forall|k: int| 0 <= k < v.len() - 2 ==> #[trigger] v.remove(j).remove(i)[k] == v[skip_two(i, j, k)],
{
    v.remove_ensures(j);
    v.remove(j).remove_ensures(i);
}

/// Taking out two links keeps the others' order, so what no pair broke stays unbroken.
proof fn lemma_remove_two_free(v: Seq<StrongLink>, i: int, j: int, lo: int, r: DropRule)
    requires
        0 <= i < j < v.len(),
        0 <= lo <= i + 1,
        rule_free(v, lo, r),
    ensures
        rule_free(v.remove(j).remove(i), if lo == i + 1 { i } else { lo }, r),
{
    lemma_remove_two(v, i, j);
    let w = v.remove(j).remove(i);
    let lo2 = if lo == i + 1 { i } else { lo };
    assert forall|a: int, b: int| lo2 <= a < b < w.len() implies !#[trigger] drop_rule(r, w[a], w[b]) by {
        assert(w[a] == v[skip_two(i, j, a)]);
        assert(w[b] == v[skip_two(i, j, b)]);
        assert(lo <= skip_two(i, j, a) < skip_two(i, j, b) < v.len());
    }
}

proof fn lemma_remove_two_genuine(s: Sudoku, u: Unit, num: int, v: Seq<StrongLink>, i: int, j: int)
    requires
        0 <= i < j < v.len(),
        all_genuine(s, u, num, v),
    ensures
        all_genuine(s, u, num, v.remove(j).remove(i)),
{
    lemma_remove_two(v, i, j);
    let w = v.remove(j).remove(i);
    assert forall|k: int| 0 <= k < w.len() implies #[trigger] genuine(s, u, num, w[k]) by {
        assert(w[k] == v[skip_two(i, j, k)]);
    }
}

/// After a pass of the rule, no two links left pair under it; what held of every pair
/// before, for another rule, still holds; and every link left is one of the list's.
pub proof fn lemma_drop_pairs(s: Sudoku, u: Unit, num: int, v: Seq<StrongLink>, n: int, r: DropRule, r2: DropRule)
    requires
        0 <= n <= v.len(),
        rule_free(v, n, r),
    ensures
        rule_free(drop_pairs(v, n, r), 0, r),
        rule_free(v, 0, r2) ==> rule_free(drop_pairs(v, n, r), 0, r2),
        all_genuine(s, u, num, v) ==> all_genuine(s, u, num, drop_pairs(v, n, r)),
    decreases n,
{
    if n > 0 {
        let i = n - 1;
        lemma_last_match(v, i, v.len() as int, r);
        match last_match(v, i, v.len() as int, r) {
            Some(j) => {
                let w = v.remove(j).remove(i);
                lemma_remove_two_free(v, i, j, n, r);
                if rule_free(v, 0, r2) {
                    lemma_remove_two_free(v, i, j, 0, r2);
                }
                if all_genuine(s, u, num, v) {
                    lemma_remove_two_genuine(s, u, num, v, i, j);
                }
                lemma_remove_two(v, i, j);
                lemma_drop_pairs(s, u, num, w, i, r, r2);
            },
            None => {
                assert forall|a: int, b: int| i <= a < b < v.len() implies !#[trigger] drop_rule(r, v[a], v[b]) by {
                    if a == i {
                        assert(!drop_rule(r, v[i], v[b]));
                    }
                }
                lemma_drop_pairs(s, u, num, v, i, r, r2);
            },
        }
    }
}

proof fn lemma_keep_apart_genuine(s: Sudoku, u: Unit, num: int, v: Seq<StrongLink>, n: int)
    requires
        0 <= n <= v.len(),
        all_genuine(s, u, num, v),
    ensures
        all_genuine(s, u, num, keep_apart(v, n)),
    decreases n,
{
    if n > 0 {
        lemma_keep_apart_genuine(s, u, num, v, n - 1);
        assert(genuine(s, u, num, v[n - 1]));
    }
}

proof fn lemma_pair_links_genuine(s: Sudoku, u: Unit, num: int, i: int, j: int)
    ensures
        all_genuine(s, u, num, pair_links(s, u, num, i, j)),
{
    let lines = sky_lines(s, u, num);
    lemma_select(|h: int| places(s, u, h, num).len() == 2, 0, 9);
    if 0 <= i < j < lines.len() {
        let hi = lines[i];
        let hj = lines[j];
        assert(0 <= hi < 9 && places(s, u, hi, num).len() == 2);
        assert(0 <= hj < 9 && places(s, u, hj, num).len() == 2);
        let a = places(s, u, hi, num);
        let b = places(s, u, hj, num);
        lemma_select(house_cand(s, u, hi, num), 0, 9);
        lemma_select(house_cand(s, u, hj, num), 0, 9);
        assert(0 <= a[0] < 9 && 0 <= a[1] < 9 && 0 <= b[0] < 9 && 0 <= b[1] < 9);
        let v = pair_links(s, u, num, i, j);
        if a[0] == b[0] {
            assert(genuine(s, u, num, link(hi, a[0], a[1])));
            assert(genuine(s, u, num, link(hj, b[0], b[1])));
        } else if a[1] == b[1] {
            assert(genuine(s, u, num, link(hi, a[1], a[0])));
            assert(genuine(s, u, num, link(hj, b[1], b[0])));
        }
        assert forall|k: int| 0 <= k < v.len() implies #[trigger] genuine(s, u, num, v[k]) by {
            if a[0] == b[0] {
                assert(v[k] == link(hi, a[0], a[1]) || v[k] == link(hj, b[0], b[1]));
            } else {
                assert(v[k] == link(hi, a[1], a[0]) || v[k] == link(hj, b[1], b[0]));
            }
        }
    }
}

proof fn lemma_links_upto_genuine(s: Sudoku, u: Unit, num: int, q: int)
    ensures
        all_genuine(s, u, num, links_upto(s, u, num, q)),
    decreases q,
{
    if q > 0 {
        lemma_links_upto_genuine(s, u, num, q - 1);
        lemma_pair_links_genuine(s, u, num, (q - 1) / 9, (q - 1) % 9);
        let a = links_upto(s, u, num, q - 1);
        let b = pair_links(s, u, num, (q - 1) / 9, (q - 1) % 9);
        assert forall|k: int| 0 <= k < (a + b).len() implies #[trigger] genuine(s, u, num, (a + b)[k]) by {
            if k < a.len() {
                assert((a + b)[k] == a[k]);
            } else {
                assert((a + b)[k] == b[k - a.len()]);
            }
        }
    }
}

/// The links that the filters leave join the two places of the digit in their houses; no
/// two of them have their bases in one box, no two share a top, and all tops lie in one
/// band.
pub proof fn lemma_sky_links(s: Sudoku, u: Unit, num: int)
    ensures
        all_genuine(s, u, num, sky_links(s, u, num)),
        rule_free(sky_links(s, u, num), 0, DropRule::SameBaseBox),
        rule_free(sky_links(s, u, num), 0, DropRule::SameTop),
        rule_free(sky_links(s, u, num), 0, DropRule::TopBandsDiffer),
{
    let g = links_upto(s, u, num, 81);
    let k = keep_apart(g, g.len() as int);
    let d1 = drop_pairs(k, k.len() as int, DropRule::SameBaseBox);
    let d2 = drop_pairs(d1, d1.len() as int, DropRule::SameTop);
    lemma_links_upto_genuine(s, u, num, 81);
    lemma_keep_apart_genuine(s, u, num, g, g.len() as int);
    lemma_drop_pairs(s, u, num, k, k.len() as int, DropRule::SameBaseBox, DropRule::SameBaseBox);
    lemma_drop_pairs(s, u, num, d1, d1.len() as int, DropRule::SameTop, DropRule::SameBaseBox);
    lemma_drop_pairs(s, u, num, d2, d2.len() as int, DropRule::TopBandsDiffer, DropRule::SameBaseBox);
    lemma_drop_pairs(s, u, num, d2, d2.len() as int, DropRule::TopBandsDiffer, DropRule::SameTop);
}


/// The Skyscraper step agrees with the two searches: it gives the rows' skyscraper when
/// that removes something, and otherwise exactly what the columns' search gives.
pub proof fn lemma_skyscraper_step(s: Sudoku)
    ensures
        skyscraper_view(s, Unit::Row).removed != Set::<Candidate>::empty() ==> skyscraper_strategy_view(s) == skyscraper_view(s, Unit::Row),
        skyscraper_view(s, Unit::Row).removed == Set::<Candidate>::empty() ==> skyscraper_strategy_view(s) == skyscraper_view(s, Unit::Column),
{
    lemma_skyscraper_nonempty(s, Unit::Row);
    lemma_skyscraper_nonempty(s, Unit::Column);
}

/// No skyscraper that removes something is missed: when a pair of the filtered links of a
/// digit, in rows or in columns, shares its base and some cell that sees both tops has the
/// digit, the Skyscraper step removes something.
pub proof fn lemma_skyscraper_seen(s: Sudoku, u: Unit, num: int, q: int)
    requires
        u != Unit::Box,
        1 <= num <= 9,
        0 <= q < sky_len(s, u, num) * sky_len(s, u, num),
        sky_removes(s, u, num, q),
    ensures
        skyscraper_strategy_view(s).removed != Set::<Candidate>::empty(),
{
    let p = |q: int| sky_removes(s, u, num, q);
    assert(p(q));
    lemma_first_from(p, 0, sky_len(s, u, num) * sky_len(s, u, num));
    assert(first_sky_pair(s, u, num) is Some);
    let pn = |n: int| first_sky_pair(s, u, n) is Some;
    assert(pn(num));
    lemma_first_from(pn, 1, 10);
    assert(first_sky_num(s, u) is Some);
    lemma_skyscraper_nonempty(s, Unit::Row);
    lemma_skyscraper_nonempty(s, Unit::Column);
}


/// What the Skyscraper step removes comes from a pair of the filtered links of a digit,
/// in rows or in columns, that share their base: the digit leaves the cells that see both
/// tops.
pub proof fn lemma_skyscraper_real(s: Sudoku)
    ensures
        skyscraper_strategy_view(s).removed != Set::<Candidate>::empty() ==> exists|u: Unit, num: int, i: int, j: int|
            u != Unit::Box && 1 <= num <= 9 && #[trigger] sky_match(sky_links(s, u, num), i, j) && skyscraper_strategy_view(s).removed
                == sky_removed(s, u, num, sky_links(s, u, num)[i], sky_links(s, u, num)[j]),
{
    lemma_skyscraper_nonempty(s, Unit::Row);
    lemma_skyscraper_nonempty(s, Unit::Column);
    let u = if first_sky_num(s, Unit::Row) is Some { Unit::Row } else { Unit::Column };
    if let Some(n) = first_sky_num(s, u) {
        lemma_first_from(|n: int| first_sky_pair(s, u, n) is Some, 1, 10);
        let l = sky_len(s, u, n);
        lemma_first_from(|q: int| sky_removes(s, u, n, q), 0, l * l);
        let q = first_sky_pair(s, u, n)->0;
        assert(sky_removes(s, u, n, q));
        assert(sky_match(sky_links(s, u, n), q / l, q % l));
    }
}

} // verus!
