//! Bit accumulators that take bits off the low end or push bits in there.
//!
//! Both move at most eight bits per call and are defined for accumulators of
//! 8, 16, 32, 64 and 128 bits.
use crate::arith::{lemma_pow2_128, lemma_pow2_at_most_256, pow2_u128};
use vstd::arithmetic::div_mod::lemma_truncate_middle;
use vstd::arithmetic::mul::lemma_mul_is_commutative;
use vstd::arithmetic::power2::*;
use vstd::prelude::*;

verus! {

/// A bit buffer that allows to pop bits from it.
pub struct PopBuffer<T> {
    bytes: T,
}

impl<T> View for PopBuffer<T> {
    type V = T;

    closed spec fn view(&self) -> T {
        self.bytes
    }
}

impl<T> PopBuffer<T> {
    /// Creates a new pop buffer from the given bytes.
    pub fn from_bytes(bytes: T) -> (r: Self)
        ensures
            r@ == bytes,
    {
        Self { bytes }
    }
}

/// A bit buffer that allows to push bits onto it.
pub struct PushBuffer<T> {
    bytes: T,
}

impl<T> View for PushBuffer<T> {
    type V = T;

    closed spec fn view(&self) -> T {
        self.bytes
    }
}

impl<T> PushBuffer<T> {
    /// Returns the underlying bytes of the push buffer.
    pub fn into_bytes(self) -> (r: T)
        ensures
            r == self@,
    {
        self.bytes
    }
}

/// A value of `pow2(width)` is a multiple of `pow2(amount)` for `amount <= width`,
/// so a product with the smaller power, taken modulo the larger, leaves room
/// below the modulus for anything under the smaller power.
proof fn lemma_room_below(b: nat, amount: nat, width: nat)
    requires
        amount <= width,
    ensures
        (b * pow2(amount)) % pow2(width) + pow2(amount) <= pow2(width),
{
    let p = pow2(amount) as int;
    let k = pow2((width - amount) as nat) as int;
    lemma_pow2_adds(amount, (width - amount) as nat);
    lemma_pow2_pos(amount);
    lemma_pow2_pos((width - amount) as nat);
    lemma_truncate_middle(b as int, p, k);
    lemma_mul_is_commutative(b as int, p);
    assert(p * ((b as int) % k) <= p * (k - 1)) by (nonlinear_arith)
        requires
            0 <= (b as int) % k <= k - 1,
            p > 0,
    ;
    assert(p * (k - 1) + p == p * k) by (nonlinear_arith);
}

impl PopBuffer<u8> {
    /// Removes the `amount` least significant bits and returns them; the rest
    /// moves down by `amount` places.
    pub fn pop_bits(&mut self, amount: u32) -> (r: u8)
        requires
            amount <= 8,
        ensures
            r as nat == old(self)@ as nat % pow2(amount as nat),
            final(self)@ as nat == old(self)@ as nat / pow2(amount as nat),
    {
        proof {
            lemma_pow2_at_most_256(amount as nat);
        }
        if amount >= 8 {
            let r = self.bytes;
            self.bytes = 0;
            return r;
        }
        proof {
            lemma_pow2_strictly_increases(amount as nat, 8);
        }
        let p = pow2_u128(amount) as u8;
        let r = self.bytes % p;
        self.bytes = self.bytes / p;
        r
    }
}

impl PopBuffer<u16> {
    /// Removes the `amount` least significant bits and returns them; the rest
    /// moves down by `amount` places.
    pub fn pop_bits(&mut self, amount: u32) -> (r: u8)
        requires
            amount <= 8,
        ensures
            r as nat == old(self)@ as nat % pow2(amount as nat),
            final(self)@ as nat == old(self)@ as nat / pow2(amount as nat),
    {
        proof {
            lemma_pow2_at_most_256(amount as nat);
        }
        let p = pow2_u128(amount) as u16;
        let r = (self.bytes % p) as u8;
        self.bytes = self.bytes / p;
        r
    }
}

impl PopBuffer<u32> {
    /// Removes the `amount` least significant bits and returns them; the rest
    /// moves down by `amount` places.
    pub fn pop_bits(&mut self, amount: u32) -> (r: u8)
        requires
            amount <= 8,
        ensures
            r as nat == old(self)@ as nat % pow2(amount as nat),
            final(self)@ as nat == old(self)@ as nat / pow2(amount as nat),
    {
        proof {
            lemma_pow2_at_most_256(amount as nat);
        }
        let p = pow2_u128(amount) as u32;
        let r = (self.bytes % p) as u8;
        self.bytes = self.bytes / p;
        r
    }
}

impl PopBuffer<u64> {
    /// Removes the `amount` least significant bits and returns them; the rest
    /// moves down by `amount` places.
    pub fn pop_bits(&mut self, amount: u32) -> (r: u8)
        requires
            amount <= 8,
        ensures
            r as nat == old(self)@ as nat % pow2(amount as nat),
            final(self)@ as nat == old(self)@ as nat / pow2(amount as nat),
    {
        proof {
            lemma_pow2_at_most_256(amount as nat);
        }
        let p = pow2_u128(amount) as u64;
        let r = (self.bytes % p) as u8;
        self.bytes = self.bytes / p;
        r
    }
}

impl PopBuffer<u128> {
    /// Removes the `amount` least significant bits and returns them; the rest
    /// moves down by `amount` places.
    pub fn pop_bits(&mut self, amount: u32) -> (r: u8)
        requires
            amount <= 8,
        ensures
            r as nat == old(self)@ as nat % pow2(amount as nat),
            final(self)@ as nat == old(self)@ as nat / pow2(amount as nat),
    {
        proof {
            lemma_pow2_at_most_256(amount as nat);
        }
        let p = pow2_u128(amount) as u128;
        let r = (self.bytes % p) as u8;
        self.bytes = self.bytes / p;
        r
    }
}

impl PushBuffer<u8> {
    /// Moves the content up by `amount` places, dropping what passes the top,
    /// and puts the low `amount` bits of `bits` in the places freed.
    pub fn push_bits(&mut self, amount: u32, bits: u8)
        requires
            amount <= 8,
        ensures
            final(self)@ as nat == (old(self)@ as nat * pow2(amount as nat)) % pow2(8)
                + bits as nat % pow2(amount as nat),
    {
        proof {
            lemma_pow2_at_most_256(amount as nat);
            lemma_room_below(self.bytes as nat, amount as nat, 8);
            lemma_max_plus_one_u8();
        }
        if amount >= 8 {
            proof {
                vstd::arithmetic::div_mod::lemma_mod_multiples_vanish(self.bytes as int, 0, 256);
                lemma_mul_is_commutative(self.bytes as int, 256);
            }
            self.bytes = bits;
            return;
        }
        proof {
            lemma_pow2_strictly_increases(amount as nat, 8);
        }
        let p = pow2_u128(amount) as u8;
        let low = bits % p;
        self.bytes = self.bytes.wrapping_mul(p) + low;
    }
}

impl Default for PushBuffer<u8> {
    fn default() -> (r: Self)
        ensures
            r@ == 0,
    {
        Self { bytes: 0 }
    }
}

impl PushBuffer<u16> {
    /// Moves the content up by `amount` places, dropping what passes the top,
    /// and puts the low `amount` bits of `bits` in the places freed.
    pub fn push_bits(&mut self, amount: u32, bits: u8)
        requires
            amount <= 8,
        ensures
            final(self)@ as nat == (old(self)@ as nat * pow2(amount as nat)) % pow2(16)
                + bits as nat % pow2(amount as nat),
    {
        proof {
            lemma_pow2_at_most_256(amount as nat);
            lemma_room_below(self.bytes as nat, amount as nat, 16);
            lemma_max_plus_one_u16();
        }
        let p = pow2_u128(amount) as u16;
        let low = (bits as u16) % p;
        self.bytes = self.bytes.wrapping_mul(p) + low;
    }
}

impl Default for PushBuffer<u16> {
    fn default() -> (r: Self)
        ensures
            r@ == 0,
    {
        Self { bytes: 0 }
    }
}

impl PushBuffer<u32> {
    /// Moves the content up by `amount` places, dropping what passes the top,
    /// and puts the low `amount` bits of `bits` in the places freed.
    pub fn push_bits(&mut self, amount: u32, bits: u8)
        requires
            amount <= 8,
        ensures
            final(self)@ as nat == (old(self)@ as nat * pow2(amount as nat)) % pow2(32)
                + bits as nat % pow2(amount as nat),
    {
        proof {
            lemma_pow2_at_most_256(amount as nat);
            lemma_room_below(self.bytes as nat, amount as nat, 32);
            lemma_max_plus_one_u32();
        }
        let p = pow2_u128(amount) as u32;
        let low = (bits as u32) % p;
        self.bytes = self.bytes.wrapping_mul(p) + low;
    }
}

impl Default for PushBuffer<u32> {
    fn default() -> (r: Self)
        ensures
            r@ == 0,
    {
        Self { bytes: 0 }
    }
}

impl PushBuffer<u64> {
    /// Moves the content up by `amount` places, dropping what passes the top,
    /// and puts the low `amount` bits of `bits` in the places freed.
    pub fn push_bits(&mut self, amount: u32, bits: u8)
        requires
            amount <= 8,
        ensures
            final(self)@ as nat == (old(self)@ as nat * pow2(amount as nat)) % pow2(64)
                + bits as nat % pow2(amount as nat),
    {
        proof {
            lemma_pow2_at_most_256(amount as nat);
            lemma_room_below(self.bytes as nat, amount as nat, 64);
            lemma_max_plus_one_u64();
        }
        let p = pow2_u128(amount) as u64;
        let low = (bits as u64) % p;
        self.bytes = self.bytes.wrapping_mul(p) + low;
    }
}

impl Default for PushBuffer<u64> {
    fn default() -> (r: Self)
        ensures
            r@ == 0,
    {
        Self { bytes: 0 }
    }
}

impl PushBuffer<u128> {
    /// Moves the content up by `amount` places, dropping what passes the top,
    /// and puts the low `amount` bits of `bits` in the places freed.
    pub fn push_bits(&mut self, amount: u32, bits: u8)
        requires
            amount <= 8,
        ensures
            final(self)@ as nat == (old(self)@ as nat * pow2(amount as nat)) % pow2(128)
                + bits as nat % pow2(amount as nat),
    {
        proof {
            lemma_pow2_at_most_256(amount as nat);
            lemma_room_below(self.bytes as nat, amount as nat, 128);
            lemma_pow2_128();
        }
        let p = pow2_u128(amount) as u128;
        let low = (bits as u128) % p;
        self.bytes = self.bytes.wrapping_mul(p) + low;
    }
}

impl Default for PushBuffer<u128> {
    fn default() -> (r: Self)
        ensures
            r@ == 0,
    {
        Self { bytes: 0 }
    }
}

/// `u8::MAX + 1` is `2^8`.
proof fn lemma_max_plus_one_u8()
    ensures
        u8::MAX as nat + 1 == pow2(8),
{
    lemma2_to64();
}

/// `u16::MAX + 1` is `2^16`.
proof fn lemma_max_plus_one_u16()
    ensures
        u16::MAX as nat + 1 == pow2(16),
{
    lemma2_to64();
}

/// `u32::MAX + 1` is `2^32`.
proof fn lemma_max_plus_one_u32()
    ensures
        u32::MAX as nat + 1 == pow2(32),
{
    lemma2_to64();
}

/// `u64::MAX + 1` is `2^64`.
proof fn lemma_max_plus_one_u64()
    ensures
        u64::MAX as nat + 1 == pow2(64),
{
    lemma2_to64();
}

} // verus!
