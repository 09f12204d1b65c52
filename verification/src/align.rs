//! Address-alignment arithmetic shared by the frame, page and heap
//! allocators.  Alignments are always powers of two.

use vstd::prelude::*;
use vstd::arithmetic::div_mod::{
    lemma_fundamental_div_mod, lemma_mod_bound, lemma_mod_multiples_basic,
    lemma_mod_self_0, lemma_mod_sub_multiples_vanish,
};
use vstd::arithmetic::power2::{is_pow2, is_pow2_equiv, lemma2_to64, lemma2_to64_rest, pow2};
use vstd::arithmetic::power::{lemma_pow_positive, pow};

verus! {

/// Largest multiple of `alignment` that is not larger than `address`.
pub open spec fn spec_align_down(address: int, alignment: int) -> int {
    address - address % alignment
}

/// Smallest multiple of `alignment` that is not smaller than `address`.
pub open spec fn spec_align_up(address: int, alignment: int) -> int {
    if address % alignment == 0 {
        address
    } else {
        address - address % alignment + alignment
    }
}

/// An address is aligned when it is a multiple of the alignment.
pub open spec fn spec_is_aligned(address: int, alignment: int) -> bool {
    address % alignment == 0
}

/// A power of two is positive.
pub proof fn lemma_pow2_positive(alignment: int)
    requires
        is_pow2(alignment),
    ensures
        alignment >= 1,
{
    is_pow2_equiv(alignment);
    let i = choose|i: nat| pow(2, i) == alignment;
    lemma_pow_positive(2, i);
}

/// Checks if an address is aligned to a specified alignment.
pub fn is_aligned(address: u64, alignment: u64) -> (r: bool)
    requires
        is_pow2(alignment as int),
    ensures
        r == spec_is_aligned(address as int, alignment as int),
{
    proof {
        lemma_pow2_positive(alignment as int);
    }
    address % alignment == 0
}

/// Aligns an address to the first smaller aligned address.
/// Alignment must be a power of 2.
pub fn align_down(address: u64, alignment: u64) -> (r: u64)
    requires
        is_pow2(alignment as int),
    ensures
        r == spec_align_down(address as int, alignment as int),
{
    proof {
        lemma_pow2_positive(alignment as int);
        lemma_mod_bound(address as int, alignment as int);
        assert(address % alignment <= address) by (nonlinear_arith)
            requires
                alignment >= 1,
        ;
    }
    address - address % alignment
}

/// Aligns an address to the first bigger aligned address.
/// Alignment must be a power of 2.
pub fn align_up(address: u64, alignment: u64) -> (r: u64)
    requires
        is_pow2(alignment as int),
        spec_align_up(address as int, alignment as int) <= u64::MAX,
    ensures
        r == spec_align_up(address as int, alignment as int),
{
    proof {
        lemma_pow2_positive(alignment as int);
        lemma_mod_bound(address as int, alignment as int);
        assert(address % alignment <= address) by (nonlinear_arith)
            requires
                alignment >= 1,
        ;
    }
    let rem = address % alignment;
    if rem == 0 {
        address
    } else {
        (address - rem) + alignment
    }
}

/// Law: rounding up then stepping one byte back and rounding down never
/// overshoots the original address, rounding up never undershoots it, and
/// rounding down always lands on an aligned address.
pub proof fn lemma_align_round_trip(address: int, alignment: int)
    requires
        is_pow2(alignment),
    ensures
        spec_align_down(spec_align_up(address, alignment) - 1, alignment) <= address,
        address <= spec_align_up(address, alignment),
        spec_is_aligned(spec_align_down(address, alignment), alignment),
{
    lemma_pow2_positive(alignment);
    lemma_mod_bound(address, alignment);
    lemma_fundamental_div_mod(address, alignment);
    lemma_mod_multiples_basic(address / alignment, alignment);
    // align_down lands on a multiple of the alignment
    assert(spec_align_down(address, alignment) == alignment * (address / alignment));
    assert(spec_is_aligned(spec_align_down(address, alignment), alignment));
    let up = spec_align_up(address, alignment);
    if address % alignment == 0 {
        // up == address; up - 1 rounds down to at most address
        lemma_mod_bound(up - 1, alignment);
    } else {
        // up - 1 == align_down(address) + (alignment - 1), whose remainder
        // is exactly alignment - 1
        let down = spec_align_down(address, alignment);
        assert((up - 1) % alignment == alignment - 1) by {
            lemma_mod_sub_multiples_vanish((up - 1) % alignment as int, alignment);
            assert(up - 1 == alignment * (address / alignment) + (alignment - 1));
            lemma_fundamental_div_mod_converse_helper(
                up - 1,
                alignment,
                address / alignment,
                alignment - 1,
            );
        }
        assert(spec_align_down(up - 1, alignment) == down);
        lemma_mod_bound(address, alignment);
    }
}

/// The remainder of `m * q + r` by `m` is `r` when `0 <= r < m`.
proof fn lemma_fundamental_div_mod_converse_helper(x: int, m: int, q: int, r: int)
    requires
        m > 0,
        0 <= r < m,
        x == m * q + r,
    ensures
        x % m == r,
{
    vstd::arithmetic::mul::lemma_mul_is_commutative(m, q);
    vstd::arithmetic::div_mod::lemma_fundamental_div_mod_converse_mod(x, m, q, r);
}

} // verus!
