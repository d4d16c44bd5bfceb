//! A small, fast pseudo-random generator in the wyrand family.
use vstd::prelude::*;

verus! {

use crate::vec3::SCALE;

/// The additive constant of the state update.
pub const WY_CONST_0: u64 = 0x2d35_8dcc_aa6c_78a5;

/// The xor constant of the output mix.
pub const WY_CONST_1: u64 = 0x8bb8_4b93_962e_acc9;

/// The generator: a single word of state.
#[derive(Clone, Copy, PartialEq, Eq, Structural, Debug)]
pub struct Rng(pub u64);

/// The state after one step.
pub open spec fn rng_next_state(s: u64) -> u64 {
    ((s + WY_CONST_0) % 0x1_0000_0000_0000_0000) as u64
}

/// The word a step puts out: the folded halves of the wide product of the
/// new state and its xor-mix.
pub open spec fn rng_output(s: u64) -> u64 {
    let s2 = rng_next_state(s);
    let t = (s2 as u128) * ((s2 ^ WY_CONST_1) as u128);
    ((t % 0x1_0000_0000_0000_0000) as u64) ^ ((t / 0x1_0000_0000_0000_0000) as u64)
}

impl Rng {
    pub fn new(seed: u64) -> (r: Self)
        ensures
            r.0 == seed,
    {
        Rng(seed)
    }

    /// The next 64 random bits.
    pub fn u64(&mut self) -> (r: u64)
        ensures
            final(self).0 == rng_next_state(old(self).0),
            r == rng_output(old(self).0),
    {
        let s = self.0.wrapping_add(WY_CONST_0);
        self.0 = s;
        proof {
            lemma_u64_mul_fits(s as int, (s ^ WY_CONST_1) as int);
        }
        let t = (s as u128) * ((s ^ WY_CONST_1) as u128);
        proof {
            assert(((t as u64) as u128) == t % 0x1_0000_0000_0000_0000u128) by (bit_vector);
            assert(t >> 64u128 == t / 0x1_0000_0000_0000_0000u128) by (bit_vector);
            assert(t >> 64u128 < 0x1_0000_0000_0000_0000u128) by (bit_vector);
        }
        #[verifier::truncate]
        let lo = t as u64;
        let hi = (t >> 64) as u64;
        lo ^ hi
    }

    /// The next 32 random bits.
    pub fn u32(&mut self) -> (r: u32)
        ensures
            final(self).0 == rng_next_state(old(self).0),
            r == rng_output(old(self).0) % 0x1_0000_0000,
    {
        let w = self.u64();
        proof {
            assert(((w as u32) as u64) == w % 0x1_0000_0000u64) by (bit_vector);
        }
        #[verifier::truncate]
        let r = w as u32;
        r
    }

    /// A random fixed-point value in `0..SCALE`, standing for the unit
    /// interval.
    pub fn unit(&mut self) -> (r: i64)
        ensures
            final(self).0 == rng_next_state(old(self).0),
            0 <= r < SCALE,
            r == rng_output(old(self).0) / 0x1_0000_0000_0000,
    {
        let w = self.u64();
        proof {
            assert(w >> 48u64 == w / 0x1_0000_0000_0000u64) by (bit_vector);
            assert(w >> 48u64 < 0x1_0000u64) by (bit_vector);
        }
        (w >> 48) as i64
    }
}

/// A value a generator can draw.
pub trait Random: Sized {
    /// What drawing this type returns, given the generator's state.
    spec fn random_spec(state: u64) -> Self;

    fn random(rng: &mut Rng) -> (r: Self)
        ensures
            final(rng).0 == rng_next_state(old(rng).0),
            r == Self::random_spec(old(rng).0),
    ;
}

impl Random for u64 {
    open spec fn random_spec(state: u64) -> u64 {
        rng_output(state)
    }

    fn random(rng: &mut Rng) -> (r: u64) {
        rng.u64()
    }
}

impl Random for u32 {
    open spec fn random_spec(state: u64) -> u32 {
        (rng_output(state) % 0x1_0000_0000) as u32
    }

    fn random(rng: &mut Rng) -> (r: u32) {
        rng.u32()
    }
}

/// The product of two 64-bit words fits in 128 bits.
proof fn lemma_u64_mul_fits(a: int, b: int)
    requires
        0 <= a <= u64::MAX,
        0 <= b <= u64::MAX,
    ensures
        0 <= a * b <= u128::MAX,
{
    assert(0 <= a * b && a * b <= u128::MAX) by (nonlinear_arith)
        requires
            0 <= a <= u64::MAX,
            0 <= b <= u64::MAX,
    ;
}

} // verus!
