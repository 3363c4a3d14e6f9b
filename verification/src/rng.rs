//! A deterministic pseudorandom stream: the whole output is a pure
//! function of the 64-bit seed, so a render is reproducible bit for bit.
//!
//! The generator advances its state by a fixed odd constant and mixes each
//! state with xor-shifts and two odd multipliers (the SplitMix64 scheme).
//! Any reproducible seed-to-stream function satisfies the library's
//! contracts; this one is fixed here so every draw has an exact value.

use vstd::prelude::*;
use vstd::wrapping::u64_specs;

verus! {

/// The state increment between draws.
pub const GAMMA: u64 = 0x9E37_79B9_7F4A_7C15;

/// First mixing multiplier.
pub const MIX_A: u64 = 0xBF58_476D_1CE4_E5B9;

/// Second mixing multiplier.
pub const MIX_B: u64 = 0x94D0_49BB_1331_11EB;

/// The state after one advance.
pub open spec fn next_state(s: u64) -> u64 {
    u64_specs::wrapping_add(s, GAMMA)
}

/// The output mixed out of a state.
#[verifier::opaque]
pub open spec fn mix64(z0: u64) -> u64 {
    let z1 = u64_specs::wrapping_mul(z0 ^ (z0 >> 30), MIX_A);
    let z2 = u64_specs::wrapping_mul(z1 ^ (z1 >> 27), MIX_B);
    z2 ^ (z2 >> 31)
}

/// The state after `k` advances from `seed`.
pub open spec fn nth_state(seed: u64, k: nat) -> u64
    decreases k,
{
    if k == 0 {
        seed
    } else {
        next_state(nth_state(seed, (k - 1) as nat))
    }
}

/// The `k`-th word of the stream seeded with `seed` (counting from zero).
pub open spec fn stream(seed: u64, k: nat) -> u64 {
    mix64(nth_state(seed, k + 1))
}

/// A draw from `[start, end)` made out of the stream word `x`: the word
/// reduced into the span, or `start` itself when the span is empty.
pub open spec fn uniform_in(x: u64, start: int, end: int) -> int {
    if end - start <= 0 {
        start
    } else {
        start + (x as int) % (end - start)
    }
}

/// The deterministic generator: a state plus the ghost history of where it
/// came from.
pub struct Rng {
    /// The raw state (the seed advanced once per past draw).
    pub state: u64,
    /// The seed the generator was derived from.
    pub seed: Ghost<u64>,
    /// How many words have been drawn so far.
    pub drawn: Ghost<nat>,
}

/// The state is exactly the seed advanced once per past draw.
pub open spec fn rng_wf(r: Rng) -> bool {
    r.state == nth_state(r.seed@, r.drawn@)
}

impl Rng {
    /// A fresh generator for `seed`, with nothing drawn yet.
    pub fn from_seed(seed: u64) -> (r: Rng)
        ensures
            rng_wf(r),
            r.seed@ == seed,
            r.drawn@ == 0,
    {
        Rng { state: seed, seed: Ghost(seed), drawn: Ghost(0) }
    }

    /// Draw the next 64-bit word of the stream.
    pub fn next_u64(&mut self) -> (x: u64)
        requires
            rng_wf(*old(self)),
        ensures
            rng_wf(*final(self)),
            final(self).seed == old(self).seed,
            final(self).drawn@ == old(self).drawn@ + 1,
            x == stream(old(self).seed@, old(self).drawn@),
    {
        let s1 = self.state.wrapping_add(GAMMA);
        self.state = s1;
        proof {
            self.drawn@ = self.drawn@ + 1;
            reveal(crate::rng::mix64);
        }
        let z1 = (s1 ^ (s1 >> 30)).wrapping_mul(MIX_A);
        let z2 = (z1 ^ (z1 >> 27)).wrapping_mul(MIX_B);
        z2 ^ (z2 >> 31)
    }

    /// Draw a boolean: the low bit of the next word.
    pub fn next_bool(&mut self) -> (b: bool)
        requires
            rng_wf(*old(self)),
        ensures
            rng_wf(*final(self)),
            final(self).seed == old(self).seed,
            final(self).drawn@ == old(self).drawn@ + 1,
            b == (stream(old(self).seed@, old(self).drawn@) & 1 == 1),
    {
        let x = self.next_u64();
        x & 1 == 1
    }

    /// Draw a uniform index below `n`: the next word reduced modulo `n`.
    pub fn next_index(&mut self, n: u64) -> (i: u64)
        requires
            rng_wf(*old(self)),
            n > 0,
        ensures
            rng_wf(*final(self)),
            final(self).seed == old(self).seed,
            final(self).drawn@ == old(self).drawn@ + 1,
            i < n,
            i == stream(old(self).seed@, old(self).drawn@) % n,
    {
        let x = self.next_u64();
        x % n
    }

    /// Draw from the closed-open interval `[start, end)` of micros: the
    /// next word reduced into the span, or `start` when the span is empty.
    /// One word is consumed either way, so the stream position does not
    /// depend on the span.
    pub fn next_in_range(&mut self, start: i64, end: i64) -> (v: i64)
        requires
            rng_wf(*old(self)),
            -crate::num::MAX_MICROS <= start <= end <= crate::num::MAX_MICROS,
        ensures
            rng_wf(*final(self)),
            final(self).seed == old(self).seed,
            final(self).drawn@ == old(self).drawn@ + 1,
            v == uniform_in(stream(old(self).seed@, old(self).drawn@), start as int, end as int),
            start <= v && (v < end || v == start),
    {
        let x = self.next_u64();
        let span = (end as i128) - (start as i128);
        if span <= 0 {
            start
        } else {
            proof {
                assert(0 <= (x as i128) % span < span) by (nonlinear_arith)
                    requires
                        span > 0,
                        x >= 0,
                ;
            }
            let off = ((x as i128) % span) as i64;
            start + off
        }
    }
}

} // verus!
