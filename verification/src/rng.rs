//! Seeded xorshift random source.
//!
//! The generator walks a 64-bit state through three xorshift stages and
//! hands out the lower 32 bits. `next_range` removes modulo bias by
//! rejecting draws at or above the largest multiple of the bound that
//! fits in 32 bits, and retrying.

use vstd::prelude::*;

verus! {

/// Rejection sampling gives up after this many draws and accepts the last
/// one regardless. At least half of all 32-bit values are below the
/// rejection threshold for every bound, so a run of this many rejections
/// never occurs in practice; the bound exists so that every loop in the
/// crate provably terminates.
pub const DRAW_LIMIT: u64 = 0xFFFF_FFFF_FFFF_FFFF;

/// One step of the three-stage xorshift walk: left 13, right 17, left 5,
/// each stage XORed into the running 64-bit state.
pub open spec fn xorshift_step(x: u64) -> u64 {
    let a = x ^ (x << 13);
    let b = a ^ (a >> 17);
    b ^ (b << 5)
}

/// Smallest 32-bit value that rejection sampling throws away: the largest
/// multiple of `max` that fits in 32 bits.
pub open spec fn reject_threshold(max: u32) -> int
    recommends
        max > 0,
{
    (0xFFFF_FFFF as int / max as int) * (max as int)
}

/// State and value produced by rejection sampling from `state`: the first
/// draw below the threshold is reduced modulo `max`; the draw made when
/// only one attempt remains is accepted regardless.
pub open spec fn spec_next_range(state: u64, max: u32, attempts: nat) -> (u64, u32)
    recommends
        max > 0,
    decreases attempts,
{
    let s2 = xorshift_step(state);
    let v = s2 as u32;
    if (v as int) < reject_threshold(max) || attempts <= 1 {
        (s2, (v as int % max as int) as u32)
    } else {
        spec_next_range(s2, max, (attempts - 1) as nat)
    }
}

/// Seeded xorshift generator; the whole simulation draws from one of these.
pub struct FastRng {
    pub state: u64,
}

impl FastRng {
    /// A seed of `0` is remapped to `1`: the all-zero state is a fixed
    /// point of the xorshift walk and must never be entered.
    pub fn new(seed: u64) -> (rng: Self)
        ensures
            rng.state == if seed == 0 { 1u64 } else { seed },
    {
        Self { state: if seed == 0 { 1 } else { seed } }
    }

    /// Advances the state one xorshift step and returns its lower 32 bits.
    pub fn next_u32(&mut self) -> (r: u32)
        ensures
            final(self).state == xorshift_step(old(self).state),
            r == xorshift_step(old(self).state) as u32,
    {
        let mut x = self.state;
        x = x ^ (x << 13u64);
        x = x ^ (x >> 17u64);
        x = x ^ (x << 5u64);
        self.state = x;
        #[verifier::truncate] (x as u32)
    }

    /// Uniform draw in `[0, max)` without modulo bias; `max == 0` is
    /// degenerate and yields `0` without touching the state.
    pub fn next_range(&mut self, max: u32) -> (r: u32)
        ensures
            max == 0 ==> r == 0 && final(self).state == old(self).state,
            max > 0 ==> (final(self).state, r) == spec_next_range(
                old(self).state,
                max,
                DRAW_LIMIT as nat,
            ),
            max > 0 ==> r < max,
    {
        if max == 0 {
            return 0;
        }
        assert((0xFFFF_FFFF as int / max as int) * (max as int) <= 0xFFFF_FFFF as int)
            by (nonlinear_arith)
            requires max > 0,
        ;
        let threshold = (u32::MAX / max) * max;
        let ghost orig: u64 = self.state;
        let mut left: u64 = DRAW_LIMIT;
        loop
            invariant
                max > 0,
                1 <= left <= DRAW_LIMIT,
                orig == old(self).state,
                threshold as int == reject_threshold(max),
                spec_next_range(orig, max, DRAW_LIMIT as nat) == spec_next_range(
                    self.state,
                    max,
                    left as nat,
                ),
            decreases left,
        {
            let ghost pre: u64 = self.state;
            let value = self.next_u32();
            if value < threshold || left == 1 {
                assert(spec_next_range(pre, max, left as nat) == (self.state, value % max));
                return value % max;
            }
            assert(spec_next_range(pre, max, left as nat) == spec_next_range(
                self.state,
                max,
                (left - 1) as nat,
            ));
            left = left - 1;
        }
    }
}

} // verus!
