//! Powers of two, computed and reasoned about.
use vstd::arithmetic::power2::*;
use vstd::prelude::*;

verus! {

/// `2^e`, by a left shift of one.
pub fn pow2_u128(e: u32) -> (r: u128)
    requires
        e < 128,
    ensures
        r as nat == pow2(e as nat),
{
    proof {
        lemma_one_shl(e);
    }
    1u128 << e
}

/// A left shift of one by `e` places is `2^e`.
proof fn lemma_one_shl(e: u32)
    requires
        e < 128,
    ensures
        (1u128 << e) as nat == pow2(e as nat),
    decreases e,
{
    if e == 0 {
        assert(1u128 << 0u32 == 1u128) by (bit_vector);
        lemma2_to64();
    } else {
        lemma_one_shl((e - 1) as u32);
        assert((1u128 << e) == (1u128 << vstd::prelude::sub(e, 1u32)) * 2) by (bit_vector)
            requires
                0 < e < 128,
        ;
        lemma_pow2_unfold(e as nat);
    }
}

/// Powers of two up to `2^8` are at most 256.
pub proof fn lemma_pow2_at_most_256(e: nat)
    requires
        e <= 8,
    ensures
        1 <= pow2(e) <= 256,
        pow2(8) == 256,
{
    lemma2_to64();
    lemma_pow2_pos(e);
    if e < 8 {
        lemma_pow2_strictly_increases(e, 8);
    }
}

/// `pow2` does not decrease.
pub proof fn lemma_pow2_le(a: nat, b: nat)
    requires
        a <= b,
    ensures
        pow2(a) <= pow2(b),
{
    if a < b {
        lemma_pow2_strictly_increases(a, b);
    }
}

/// `2^128` is one more than the largest `u128`.
pub proof fn lemma_pow2_128()
    ensures
        pow2(128) == u128::MAX as nat + 1,
{
    lemma2_to64();
    lemma_pow2_adds(64, 64);
}

} // verus!
