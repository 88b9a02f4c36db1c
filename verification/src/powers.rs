//! Powers of two in machine integers.

use vstd::arithmetic::power2::{
    lemma2_to64, lemma2_to64_rest, lemma_pow2_adds, lemma_pow2_pos, lemma_pow2_strictly_increases,
    lemma_pow2_unfold, pow2,
};
use vstd::prelude::*;

verus! {

/// The smaller of two natural numbers.
pub open spec fn min_nat(a: nat, b: nat) -> nat {
    if a <= b {
        a
    } else {
        b
    }
}

/// Which powers of two fit in 64 bits.
pub proof fn lemma_pow2_u64(e: nat)
    ensures
        e < 64 ==> 0 < pow2(e) <= 0x8000_0000_0000_0000,
        e >= 64 ==> pow2(e) >= 0x1_0000_0000_0000_0000,
{
    lemma2_to64();
    lemma2_to64_rest();
    lemma_pow2_pos(e);
    if e < 63 {
        lemma_pow2_strictly_increases(e, 63);
    }
    if e > 64 {
        lemma_pow2_strictly_increases(64, e);
    }
}

/// Which powers of two fit in 128 bits.
pub proof fn lemma_pow2_u128(e: nat)
    ensures
        e < 128 ==> 0 < pow2(e) <= 0x8000_0000_0000_0000_0000_0000_0000_0000,
        e >= 128 ==> pow2(e) >= 0x1_0000_0000_0000_0000_0000_0000_0000_0000,
{
    lemma2_to64();
    lemma2_to64_rest();
    lemma_pow2_pos(e);
    lemma_pow2_adds(64, 63);
    lemma_pow2_adds(64, 64);
    assert(0x1_0000_0000_0000_0000 * 0x8000_0000_0000_0000 == 0x8000_0000_0000_0000_0000_0000_0000_0000int)
        by (nonlinear_arith);
    assert(0x1_0000_0000_0000_0000 * 0x1_0000_0000_0000_0000
        == 0x1_0000_0000_0000_0000_0000_0000_0000_0000int) by (nonlinear_arith);
    if e < 127 {
        lemma_pow2_strictly_increases(e, 127);
    }
    if e > 128 {
        lemma_pow2_strictly_increases(128, e);
    }
}

/// Half the side of a node of level 1 to 63, as a signed number.
pub fn half_side(level: usize) -> (r: i64)
    requires
        1 <= level <= 63,
    ensures
        r == pow2((level - 1) as nat),
        0 < r <= 0x4000_0000_0000_0000,
        2 * r == pow2(level as nat),
{
    proof {
        lemma2_to64_rest();
        lemma_pow2_pos((level - 1) as nat);
        lemma_pow2_unfold(level as nat);
        if level < 63 {
            lemma_pow2_strictly_increases((level - 1) as nat, 62);
        }
    }
    pow2_u64(level - 1) as i64
}

/// `2^e` for an exponent below 64.
pub fn pow2_u64(e: usize) -> (r: u64)
    requires
        e < 64,
    ensures
        r == pow2(e as nat),
        r == 1u64 << (e as u64),
{
    proof {
        lemma_pow2_u64(e as nat);
        vstd::bits::lemma_u64_shl_is_mul(1, e as u64);
    }
    1u64 << (e as u64)
}

/// `2^e`, or the largest `u128` where that is less.
pub fn pow2_saturating(e: usize) -> (r: u128)
    ensures
        r == min_nat(pow2(e as nat), u128::MAX as nat),
{
    proof {
        lemma_pow2_u128(e as nat);
    }
    if e >= 128 {
        return u128::MAX;
    }
    let mut r: u128 = 1;
    let mut i: usize = 0;
    proof {
        lemma2_to64();
    }
    while i < e
        invariant
            i <= e < 128,
            r == pow2(i as nat),
        decreases e - i,
    {
        proof {
            lemma_pow2_u128(i as nat);
            lemma_pow2_u128((i + 1) as nat);
            lemma_pow2_unfold((i + 1) as nat);
        }
        r = r * 2;
        i = i + 1;
    }
    r
}

} // verus!
