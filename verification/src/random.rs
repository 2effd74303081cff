//! Generates random numbers.
//!
//! The generator is the minimal member of the PCG family: a 64-bit linear
//! congruential state whose bits are mixed into a 32-bit output.

use vstd::arithmetic::div_mod::{lemma_add_mod_noop, lemma_small_mod};
use vstd::prelude::*;

verus! {

/// Multiplier of the linear congruential step.
pub const MULTIPLIER: u64 = 6364136223846793005;

/// The state that follows `state` in the stream selected by `inc`.
pub open spec fn next_state(state: u64, inc: u64) -> u64 {
    ((state as nat * MULTIPLIER as nat + (inc | 1) as nat) % 0x1_0000_0000_0000_0000) as u64
}

/// The number that is drawn when the generator is in `state`.
pub open spec fn output(state: u64) -> u32 {
    let xor_shifted = (((state >> 18) ^ state) >> 27) as u32;
    let rot = (state >> 59) as u32;
    (xor_shifted >> rot) | (xor_shifted << (((u32::MAX - rot) as u32) & 31))
}

/// Stores the state of the random number generator.
pub struct Random {
    state: u64,
    inc: u64,
}

impl Random {
    /// The present state.
    pub closed spec fn state(&self) -> u64 {
        self.state
    }

    /// The stream selector.
    pub closed spec fn inc(&self) -> u64 {
        self.inc
    }

    /// Constructor: the generator seeded with `seed`, one step on, so that the first
    /// number drawn depends on the seed.
    pub fn new(seed: u64) -> (random: Random)
        ensures
            random.state() == next_state(seed, 0),
            random.inc() == 0,
    {
        let mut random = Random { state: seed, inc: 0 };
        // get rid of the first 0
        random.next_u32();
        random
    }

    /// Draws the next number and moves the state one step on.
    pub fn next_u32(&mut self) -> (val: u32)
        ensures
            val == output(old(self).state()),
            final(self).state() == next_state(old(self).state(), old(self).inc()),
            final(self).inc() == old(self).inc(),
    {
        let old_state: u64 = self.state;
        let step: u64 = self.inc | 1;
        self.state = old_state.wrapping_mul(MULTIPLIER).wrapping_add(step);
        proof {
            let range: int = 0x1_0000_0000_0000_0000;
            let product: int = (old_state as nat * MULTIPLIER as nat) as int;
            assert(0 <= product) by (nonlinear_arith)
                requires
                    product == old_state as nat * MULTIPLIER as nat,
            ;
            let wrapped: int = product % range;
            lemma_add_mod_noop(product, step as int, range);
            lemma_small_mod(step as nat, range as nat);
            if wrapped + step > u64::MAX {
                vstd::arithmetic::div_mod::lemma_mod_sub_multiples_vanish(wrapped + step, range);
                lemma_small_mod((wrapped + step - range) as nat, range as nat);
            } else {
                lemma_small_mod((wrapped + step) as nat, range as nat);
            }
        }
        let mixed: u64 = ((old_state >> 18) ^ old_state) >> 27;
        let xor_shifted: u32 = mixed as u32;
        let turn: u64 = old_state >> 59;
        assert(turn < 32) by (bit_vector)
            requires
                turn == old_state >> 59,
        ;
        let rot: u32 = turn as u32;
        let rest: u32 = u32::MAX - rot;
        let back: u32 = rest & 31;
        assert(back < 32) by (bit_vector)
            requires
                back == rest & 31,
        ;
        (xor_shifted >> rot) | (xor_shifted << back)
    }
}

} // verus!
