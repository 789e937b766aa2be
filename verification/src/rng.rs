//! A deterministic generator of pseudo-random numbers (Xorshift64).
use vstd::prelude::*;

verus! {

/// What a seed of zero is replaced by.
pub const ZERO_SEED: u64 = 0xDEAD_BEEF_CAFE_BABE;

/// The state of a generator that was seeded with `seed`.
pub open spec fn seeded(seed: u64) -> u64 {
    if seed == 0 {
        ZERO_SEED
    } else {
        seed
    }
}

/// The state after one step: it is mixed with itself, shifted left by 13, right by 7 and
/// left by 17.
pub open spec fn stepped(x: u64) -> u64 {
    let a = x ^ (x << 13);
    let b = a ^ (a >> 7);
    b ^ (b << 17)
}

/// The bit pattern of a 32-bit float from 1 up to 2 whose fraction is the high bits of `x`.
pub open spec fn unit_bits(x: u64) -> u32 {
    0x3F80_0000u32 | ((((x >> 32) as u32) >> 9) & 0x007F_FFFFu32)
}

/// The bit pattern of a 64-bit float from 1 up to 2 whose fraction is the high bits of `x`.
pub open spec fn wide_unit_bits(x: u64) -> u64 {
    0x3FF0_0000_0000_0000u64 | ((x >> 12) & 0x000F_FFFF_FFFF_FFFFu64)
}

/// The generator.
#[derive(Debug)]
pub struct DeterministicRng {
    state: u64,
}

impl Clone for DeterministicRng {
    fn clone(&self) -> (r: DeterministicRng)
        ensures
            r.at() == self.at(),
    {
        proof {
            use_type_invariant(self);
        }
        DeterministicRng { state: self.state }
    }
}

impl DeterministicRng {
    #[verifier::type_invariant]
    spec fn alive(self) -> bool {
        self.state != 0
    }

    /// The state, which is never zero.
    pub closed spec fn at(&self) -> u64 {
        self.state
    }

    /// Seeds the generator; a seed of zero is replaced by a fixed number.
    pub fn new(seed: u64) -> (r: DeterministicRng)
        ensures
            r.at() == seeded(seed),
    {
        DeterministicRng { state: if seed == 0 {
            ZERO_SEED
        } else {
            seed
        } }
    }

    /// Advances the state and returns it.
    pub fn next_u64(&mut self) -> (x: u64)
        ensures
            x == stepped(old(self).at()),
            final(self).at() == x,
            x != 0,
    {
        proof {
            use_type_invariant(&*self);
            law_never_dies(self.state);
        }
        let mut x: u64 = self.state;
        x = x ^ (x << 13);
        x = x ^ (x >> 7);
        x = x ^ (x << 17);
        self.state = x;
        x
    }

    /// Advances the state and returns the bit pattern of a float from 1 up to 2.
    pub fn next_unit_bits(&mut self) -> (bits: u32)
        ensures
            final(self).at() == stepped(old(self).at()),
            bits == unit_bits(stepped(old(self).at())),
            0x3F80_0000 <= bits < 0x4000_0000,
    {
        let x: u64 = self.next_u64();
        let high: u32 = (x >> 32) as u32;
        proof {
            assert(0x3F80_0000u32 <= 0x3F80_0000u32 | ((high >> 9) & 0x007F_FFFFu32) < 0x4000_0000u32)
                by (bit_vector);
        }
        0x3F80_0000u32 | ((high >> 9) & 0x007F_FFFFu32)
    }

    /// Advances the state and returns the bit pattern of a 64-bit float from 1 up to 2.
    pub fn next_wide_unit_bits(&mut self) -> (bits: u64)
        ensures
            final(self).at() == stepped(old(self).at()),
            bits == wide_unit_bits(stepped(old(self).at())),
            0x3FF0_0000_0000_0000 <= bits < 0x4000_0000_0000_0000,
    {
        let x: u64 = self.next_u64();
        proof {
            assert(0x3FF0_0000_0000_0000u64 <= 0x3FF0_0000_0000_0000u64 | ((x >> 12)
                & 0x000F_FFFF_FFFF_FFFFu64) < 0x4000_0000_0000_0000u64) by (bit_vector);
        }
        0x3FF0_0000_0000_0000u64 | ((x >> 12) & 0x000F_FFFF_FFFF_FFFFu64)
    }
}

/// A step never leads to zero, from which no step would lead away.
pub proof fn law_never_dies(x: u64)
    requires
        x != 0,
    ensures
        stepped(x) != 0,
        seeded(x) == x,
        seeded(0) != 0,
        stepped(0) == 0,
{
    let a = x ^ (x << 13);
    let b = a ^ (a >> 7);
    assert(x != 0 ==> x ^ (x << 13) != 0) by (bit_vector);
    assert(a != 0 ==> a ^ (a >> 7) != 0) by (bit_vector);
    assert(b != 0 ==> b ^ (b << 17) != 0) by (bit_vector);
    assert(0u64 ^ (0u64 << 13) == 0 && 0u64 ^ (0u64 >> 7) == 0 && 0u64 ^ (0u64 << 17) == 0)
        by (bit_vector);
}

/// The bit patterns are of numbers from one up to two, and their fractions are the high bits of
/// the state.
pub proof fn law_fractions_are_the_high_bits(x: u64)
    ensures
        unit_bits(x) >> 23 == 0x7F,
        (unit_bits(x) & 0x007F_FFFF) as u64 == x >> 41,
        wide_unit_bits(x) >> 52 == 0x3FF,
        wide_unit_bits(x) & 0x000F_FFFF_FFFF_FFFF == x >> 12,
{
    let high: u32 = (x >> 32) as u32;
    assert((0x3F80_0000u32 | ((high >> 9) & 0x007F_FFFFu32)) >> 23 == 0x7F) by (bit_vector);
    assert((((0x3F80_0000u32 | ((((x >> 32) as u32) >> 9) & 0x007F_FFFFu32)) & 0x007F_FFFFu32)
        as u64) == x >> 41) by (bit_vector);
    assert((0x3FF0_0000_0000_0000u64 | ((x >> 12) & 0x000F_FFFF_FFFF_FFFFu64)) >> 52 == 0x3FF)
        by (bit_vector);
    assert((0x3FF0_0000_0000_0000u64 | ((x >> 12) & 0x000F_FFFF_FFFF_FFFFu64))
        & 0x000F_FFFF_FFFF_FFFFu64 == x >> 12) by (bit_vector);
}

/// No two states lead to one: a step loses nothing.
pub proof fn law_steps_are_reversible(x: u64, y: u64)
    requires
        stepped(x) == stepped(y),
    ensures
        x == y,
{
    let a = x ^ (x << 13);
    let b = a ^ (a >> 7);
    let c = y ^ (y << 13);
    let d = c ^ (c >> 7);
    assert(b ^ (b << 17) == d ^ (d << 17) ==> b == d) by (bit_vector);
    assert(a ^ (a >> 7) == c ^ (c >> 7) ==> a == c) by (bit_vector);
    assert(x ^ (x << 13) == y ^ (y << 13) ==> x == y) by (bit_vector);
}

} // verus!
