//! Bit-level helpers over the 128-bit mask words used by both groupers.

use vstd::prelude::*;

verus! {

/// Whether bit `k` of the mask `m` is set.
pub open spec fn bit(m: u128, k: u128) -> bool {
    m & (1u128 << k) != 0
}

/// The position of the lowest set bit of `m` at or above `k`, or 128 if
/// every bit of `m` at or above `k` is clear.
pub open spec fn lowest_set_from(m: u128, k: u128) -> u128
    decreases 128 - k,
{
    if k >= 128 {
        128
    } else if bit(m, k) {
        k
    } else {
        lowest_set_from(m, (k + 1) as u128)
    }
}

/// The position of the lowest set bit of `m`, or 128 if `m` is zero.
pub open spec fn lowest_set(m: u128) -> u128 {
    lowest_set_from(m, 0)
}

pub proof fn lemma_bit_or(a: u128, b: u128, k: u128)
    by (bit_vector)
    requires
        k < 128,
    ensures
        bit(a | b, k) == (bit(a, k) || bit(b, k)),
{
}

pub proof fn lemma_bit_and(a: u128, b: u128, k: u128)
    by (bit_vector)
    requires
        k < 128,
    ensures
        bit(a & b, k) == (bit(a, k) && bit(b, k)),
{
}

pub proof fn lemma_bit_not(a: u128, k: u128)
    by (bit_vector)
    requires
        k < 128,
    ensures
        bit(!a, k) == !bit(a, k),
{
}

pub proof fn lemma_bit_zero(k: u128)
    by (bit_vector)
    requires
        k < 128,
    ensures
        !bit(0, k),
{
}

/// Setting bit `j` leaves every other bit as it was and sets bit `j`.
pub proof fn lemma_set_bit(a: u128, j: u128, k: u128)
    by (bit_vector)
    requires
        j < 128,
        k < 128,
    ensures
        bit(a | (1u128 << j), k) == if j == k {
            true
        } else {
            bit(a, k)
        },
{
}

/// Clearing bit `j` leaves every other bit as it was and clears bit `j`.
pub proof fn lemma_clear_bit(a: u128, j: u128, k: u128)
    by (bit_vector)
    requires
        j < 128,
        k < 128,
    ensures
        bit(a & !(1u128 << j), k) == if j == k {
            false
        } else {
            bit(a, k)
        },
{
}

/// Properties of the lowest-set-bit position: every bit below it is clear,
/// and the bit at it (when below 128) is set.
pub proof fn lemma_lowest_set_from_props(m: u128, k: u128)
    ensures
        lowest_set_from(m, k) <= 128,
        lowest_set_from(m, k) < 128 ==> bit(m, lowest_set_from(m, k)),
        forall|j: u128| k <= j < lowest_set_from(m, k) ==> !(#[trigger] bit(m, j)),
    decreases 128 - k,
{
    if k >= 128 {
    } else if bit(m, k) {
    } else {
        lemma_lowest_set_from_props(m, (k + 1) as u128);
        assert(lowest_set_from(m, k) == lowest_set_from(m, (k + 1) as u128));
        assert forall|j: u128| k <= j < lowest_set_from(m, k) implies !(#[trigger] bit(m, j)) by {
            if j != k {
                assert((k + 1) as u128 <= j < lowest_set_from(m, (k + 1) as u128));
            }
        }
    }
}

pub proof fn lemma_lowest_set_props(m: u128)
    ensures
        lowest_set(m) <= 128,
        lowest_set(m) < 128 ==> bit(m, lowest_set(m)),
        forall|j: u128| j < lowest_set(m) ==> !bit(m, j),
{
    lemma_lowest_set_from_props(m, 0);
}

/// The position of the lowest set bit of `m`, or 128 if `m` is zero.
///
/// This is the `trailing_zeros` operation on the 128-bit mask words,
/// written as a verified loop.
pub fn trailing_zeros128(m: u128) -> (r: usize)
    ensures
        r == lowest_set(m),
{
    let mut k: usize = 0;
    while k < 128
        invariant
            0 <= k <= 128,
            lowest_set(m) == lowest_set_from(m, k as u128),
        decreases 128 - k,
    {
        if m & (1u128 << (k as u128)) != 0 {
            assert(lowest_set_from(m, k as u128) == k);
            return k;
        }
        assert(lowest_set_from(m, k as u128) == lowest_set_from(m, (k + 1) as u128));
        k = k + 1;
    }
    assert(lowest_set_from(m, 128) == 128);
    128
}

} // verus!
