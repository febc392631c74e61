//! Candidate digits of a cell, kept as a bit set: bit `n` stands for the digit `n`.
//!
//! A cell can hold the values `0..16` as candidates (the binary format stores each
//! candidate in a nibble); a freshly computed note only ever holds `1..=9`.

use vstd::prelude::*;

use crate::search::{lemma_select, select};

verus! {

/// Whether the digit `n` belongs to the candidate set `mask`.
pub open spec fn in_mask(mask: u16, n: int) -> bool {
    0 <= n < 16 && (mask >> (n as u16)) & 1u16 == 1u16
}

/// Number of digits in `0..k` that belong to `mask`.
pub open spec fn count_below(mask: u16, k: int) -> nat
    decreases k,
{
    if k <= 0 {
        0
    } else {
        count_below(mask, k - 1) + if in_mask(mask, k - 1) { 1nat } else { 0nat }
    }
}

/// Number of digits in the candidate set.
pub open spec fn count(mask: u16) -> nat {
    count_below(mask, 16)
}

pub proof fn lemma_has_insert(mask: u16, n: u16, k: u16)
    requires
        n < 16,
        k < 16,
    ensures
        in_mask(mask | (1u16 << n), k as int) == (k == n || in_mask(mask, k as int)),
{
    assert(((mask | (1u16 << n)) >> k) & 1u16 == 1u16 <==> (k == n || (mask >> k) & 1u16 == 1u16))
        by (bit_vector)
        requires
            n < 16,
            k < 16,
    ;
}

pub proof fn lemma_has_remove(mask: u16, n: u16, k: u16)
    requires
        n < 16,
        k < 16,
    ensures
        in_mask(mask & !(1u16 << n), k as int) == (k != n && in_mask(mask, k as int)),
{
    assert(((mask & !(1u16 << n)) >> k) & 1u16 == 1u16 <==> (k != n && (mask >> k) & 1u16 == 1u16))
        by (bit_vector)
        requires
            n < 16,
            k < 16,
    ;
}

pub proof fn lemma_has_empty(k: u16)
    requires
        k < 16,
    ensures
        in_mask(0u16, k as int) == false,
{
    assert((0u16 >> k) & 1u16 == 0u16) by (bit_vector);
}

/// The empty bit set holds no digit.
pub proof fn lemma_empty_mask()
    ensures
        forall|n: int| #[trigger] in_mask(0u16, n) == false,
{
    assert forall|n: int| #[trigger] in_mask(0u16, n) == false by {
        if 0 <= n < 16 {
            lemma_has_empty(n as u16);
        }
    }
}

/// Two candidate sets with the same digits are the same bit set.
pub proof fn lemma_ext(a: u16, b: u16)
    requires
        forall|k: int| 0 <= k < 16 ==> in_mask(a, k) == in_mask(b, k),
    ensures
        a == b,
{
    assert(in_mask(a, 0) == in_mask(b, 0));
    assert(in_mask(a, 1) == in_mask(b, 1));
    assert(in_mask(a, 2) == in_mask(b, 2));
    assert(in_mask(a, 3) == in_mask(b, 3));
    assert(in_mask(a, 4) == in_mask(b, 4));
    assert(in_mask(a, 5) == in_mask(b, 5));
    assert(in_mask(a, 6) == in_mask(b, 6));
    assert(in_mask(a, 7) == in_mask(b, 7));
    assert(in_mask(a, 8) == in_mask(b, 8));
    assert(in_mask(a, 9) == in_mask(b, 9));
    assert(in_mask(a, 10) == in_mask(b, 10));
    assert(in_mask(a, 11) == in_mask(b, 11));
    assert(in_mask(a, 12) == in_mask(b, 12));
    assert(in_mask(a, 13) == in_mask(b, 13));
    assert(in_mask(a, 14) == in_mask(b, 14));
    assert(in_mask(a, 15) == in_mask(b, 15));
    assert(
        ((a >> 0u16) & 1u16 == 1u16) == ((b >> 0u16) & 1u16 == 1u16)
        && ((a >> 1u16) & 1u16 == 1u16) == ((b >> 1u16) & 1u16 == 1u16)
        && ((a >> 2u16) & 1u16 == 1u16) == ((b >> 2u16) & 1u16 == 1u16)
        && ((a >> 3u16) & 1u16 == 1u16) == ((b >> 3u16) & 1u16 == 1u16)
        && ((a >> 4u16) & 1u16 == 1u16) == ((b >> 4u16) & 1u16 == 1u16)
        && ((a >> 5u16) & 1u16 == 1u16) == ((b >> 5u16) & 1u16 == 1u16)
        && ((a >> 6u16) & 1u16 == 1u16) == ((b >> 6u16) & 1u16 == 1u16)
        && ((a >> 7u16) & 1u16 == 1u16) == ((b >> 7u16) & 1u16 == 1u16)
        && ((a >> 8u16) & 1u16 == 1u16) == ((b >> 8u16) & 1u16 == 1u16)
        && ((a >> 9u16) & 1u16 == 1u16) == ((b >> 9u16) & 1u16 == 1u16)
        && ((a >> 10u16) & 1u16 == 1u16) == ((b >> 10u16) & 1u16 == 1u16)
        && ((a >> 11u16) & 1u16 == 1u16) == ((b >> 11u16) & 1u16 == 1u16)
        && ((a >> 12u16) & 1u16 == 1u16) == ((b >> 12u16) & 1u16 == 1u16)
        && ((a >> 13u16) & 1u16 == 1u16) == ((b >> 13u16) & 1u16 == 1u16)
        && ((a >> 14u16) & 1u16 == 1u16) == ((b >> 14u16) & 1u16 == 1u16)
        && ((a >> 15u16) & 1u16 == 1u16) == ((b >> 15u16) & 1u16 == 1u16)
        ==> a == b
    ) by (bit_vector);
}

/// The digits `1..=9` as a candidate set.
pub const ALL_DIGITS: u16 = 1022;

pub proof fn lemma_notes(a: u16, b: u16, d: u16, k: u16)
    requires
        k < 16,
    ensures
        in_mask(ALL_DIGITS & !(a | b | d), k as int) == (1 <= k <= 9 && !in_mask(a, k as int) && !in_mask(b, k as int)
            && !in_mask(d, k as int)),
{
    assert(((1022u16 & !(a | b | d)) >> k) & 1u16 == 1u16 <==> (1u16 <= k && k <= 9u16 && (a >> k) & 1u16
        != 1u16 && (b >> k) & 1u16 != 1u16 && (d >> k) & 1u16 != 1u16)) by (bit_vector)
        requires
            k < 16,
    ;
}

pub proof fn lemma_missing(m: u16, k: u16)
    requires
        k < 16,
    ensures
        in_mask(ALL_DIGITS & !m, k as int) == (1 <= k <= 9 && !in_mask(m, k as int)),
{
    assert(((1022u16 & !m) >> k) & 1u16 == 1u16 <==> (1u16 <= k && k <= 9u16 && (m >> k) & 1u16 != 1u16))
        by (bit_vector)
        requires
            k < 16,
    ;
}

/// Whether `n` is one of the candidates in `mask`.
pub fn mask_has(mask: u16, n: u8) -> (r: bool)
    ensures
        r == in_mask(mask, n as int),
{
    if n >= 16 {
        false
    } else {
        let k: u16 = n as u16;
        (mask >> k) & 1u16 == 1u16
    }
}

/// The candidate set with `n` added.
pub fn mask_insert(mask: u16, n: u8) -> (r: u16)
    requires
        n < 16,
    ensures
        forall|k: int| in_mask(r, k) == (k == n || in_mask(mask, k)),
{
    let k: u16 = n as u16;
    let r = mask | (1u16 << k);
    proof {
        assert forall|j: int| in_mask(r, j) == (j == n || in_mask(mask, j)) by {
            if 0 <= j < 16 {
                lemma_has_insert(mask, k, j as u16);
            }
        }
    }
    r
}

/// The candidate set with `n` taken out.
pub fn mask_remove(mask: u16, n: u8) -> (r: u16)
    ensures
        forall|k: int| in_mask(r, k) == (k != n && in_mask(mask, k)),
{
    if n >= 16 {
        return mask;
    }
    let k: u16 = n as u16;
    let r = mask & !(1u16 << k);
    proof {
        assert forall|j: int| in_mask(r, j) == (j != n && in_mask(mask, j)) by {
            if 0 <= j < 16 {
                lemma_has_remove(mask, k, j as u16);
            }
        }
    }
    r
}

/// Number of candidates in the set.
pub fn mask_len(mask: u16) -> (r: usize)
    ensures
        r == count(mask),
        r <= 16,
{
    let mut total: usize = 0;
    let mut k: u8 = 0;
    while k < 16
        invariant
            k <= 16,
            total == count_below(mask, k as int),
            total <= k,
        decreases 16 - k,
    {
        if mask_has(mask, k) {
            total = total + 1;
        }
        k = k + 1;
    }
    total
}

/// `n` is the one and only candidate in `mask`.
pub open spec fn sole_in_mask(mask: u16, n: int) -> bool {
    in_mask(mask, n) && forall|m: int| #[trigger] in_mask(mask, m) ==> m == n
}

/// The only candidate of the set, if it holds exactly one.
pub fn mask_single(mask: u16) -> (res: Option<u8>)
    ensures
        res matches Some(n) ==> sole_in_mask(mask, n as int),
        res is None ==> forall|n: int| !sole_in_mask(mask, n),
{
    let mut found: Option<u8> = None;
    let mut n: u8 = 0;
    while n < 16
        invariant
            n <= 16,
            found is None ==> forall|m: int| 0 <= m < n ==> !in_mask(mask, m),
            found matches Some(f) ==> f < n && in_mask(mask, f as int) && forall|m: int|
                0 <= m < n && in_mask(mask, m) ==> m == f,
        decreases 16 - n,
    {
        if mask_has(mask, n) {
            match found {
                Some(f) => {
                    proof {
                        assert forall|k: int| !sole_in_mask(mask, k) by {
                            if sole_in_mask(mask, k) {
                                assert(in_mask(mask, n as int));
                                assert(in_mask(mask, f as int));
                            }
                        }
                    }
                    return None;
                },
                None => {
                    found = Some(n);
                },
            }
        }
        n = n + 1;
    }
    proof {
        assert forall|m: int| #[trigger] in_mask(mask, m) implies 0 <= m < 16 by {}
    }
    found
}

/// The digits of the candidate set, in increasing order.
pub open spec fn mask_digits(mask: u16) -> Seq<int> {
    select(|n: int| in_mask(mask, n), 0, 16)
}

/// Digits as mathematical integers.
pub open spec fn nums_of(v: Seq<u8>) -> Seq<int> {
    v.map_values(|x: u8| x as int)
}

/// The digits of the candidate set, in increasing order.
pub fn mask_digit_list(mask: u16) -> (v: Vec<u8>)
    ensures
        nums_of(v@) == mask_digits(mask),
        forall|j: int| 0 <= j < v@.len() ==> #[trigger] v@[j] < 16 && in_mask(mask, v@[j] as int),
{
    let mut v: Vec<u8> = Vec::new();
    let mut n: u8 = 0;
    while n < 16
        invariant
            n <= 16,
            nums_of(v@) == select(|n: int| in_mask(mask, n), 0, n as int),
            forall|j: int| 0 <= j < v@.len() ==> #[trigger] v@[j] < n && in_mask(mask, v@[j] as int),
        decreases 16 - n,
    {
        if mask_has(mask, n) {
            assert(nums_of(v@.push(n)) =~= nums_of(v@).push(n as int));
            v.push(n);
        }
        n = n + 1;
    }
    v
}

/// The set of the two positions `i` and `j`.
pub open spec fn two_bits(i: u16, j: u16) -> u16 {
    (1u16 << i) | (1u16 << j)
}

pub proof fn lemma_two_bits(i: u16, j: u16)
    requires
        i < 16,
        j < 16,
    ensures
        forall|k: int| in_mask(two_bits(i, j), k) == (k == i || k == j),
{
    assert forall|k: int| in_mask(two_bits(i, j), k) == (k == i || k == j) by {
        if 0 <= k < 16 {
            let kk = k as u16;
            assert((((1u16 << i) | (1u16 << j)) >> kk) & 1u16 == 1u16 <==> (kk == i || kk == j)) by (bit_vector)
                requires
                    i < 16,
                    j < 16,
                    kk < 16,
            ;
        }
    }
}

/// The candidate set that holds `n` alone.
pub open spec fn single_bit(n: u16) -> u16 {
    1u16 << n
}

pub proof fn lemma_single_bit(n: u16)
    requires
        n < 16,
    ensures
        forall|k: int| in_mask(single_bit(n), k) == (k == n),
{
    assert forall|k: int| in_mask(single_bit(n), k) == (k == n) by {
        if 0 <= k < 16 {
            let kk = k as u16;
            assert(((1u16 << n) >> kk) & 1u16 == 1u16 <==> kk == n) by (bit_vector)
                requires
                    n < 16,
                    kk < 16,
            ;
        }
    }
}

/// The set of the three positions `i`, `j` and `k`.
pub open spec fn three_bits(i: u16, j: u16, k: u16) -> u16 {
    (1u16 << i) | (1u16 << j) | (1u16 << k)
}

pub proof fn lemma_three_bits(i: u16, j: u16, k: u16)
    requires
        i < 16,
        j < 16,
        k < 16,
    ensures
        forall|p: int| in_mask(three_bits(i, j, k), p) == (p == i || p == j || p == k),
{
    assert forall|p: int| in_mask(three_bits(i, j, k), p) == (p == i || p == j || p == k) by {
        if 0 <= p < 16 {
            let pp = p as u16;
            assert((((1u16 << i) | (1u16 << j) | (1u16 << k)) >> pp) & 1u16 == 1u16 <==> (pp == i || pp == j || pp == k)) by (bit_vector)
                requires
                    i < 16,
                    j < 16,
                    k < 16,
                    pp < 16,
            ;
        }
    }
}

/// The union of three candidate sets.
pub proof fn lemma_union3(a: u16, b: u16, c: u16)
    ensures
        forall|n: int| #[trigger] in_mask(a | b | c, n) == (in_mask(a, n) || in_mask(b, n) || in_mask(c, n)),
{
    assert forall|n: int| #[trigger] in_mask(a | b | c, n) == (in_mask(a, n) || in_mask(b, n) || in_mask(c, n)) by {
        if 0 <= n < 16 {
            let k = n as u16;
            assert((((a | b | c) >> k) & 1u16 == 1u16) <==> ((a >> k) & 1u16 == 1u16 || (b >> k) & 1u16 == 1u16 || (c >> k) & 1u16 == 1u16)) by (bit_vector)
                requires
                    k < 16,
            ;
        }
    }
}

/// The digits of `mask` that are not in `other`.
pub proof fn lemma_not_mask(mask: u16)
    ensures
        forall|n: int| 0 <= n < 16 ==> #[trigger] in_mask(!mask, n) == !in_mask(mask, n),
{
    assert forall|n: int| 0 <= n < 16 implies #[trigger] in_mask(!mask, n) == !in_mask(mask, n) by {
        let k = n as u16;
        assert(((!mask >> k) & 1u16 == 1u16) <==> !((mask >> k) & 1u16 == 1u16)) by (bit_vector)
            requires
                k < 16,
        ;
    }
}

} // verus!
