//! A small seedable pseudo-random number generator.
//!
//! The generator is a 64-bit linear congruential generator. Its whole state is
//! the last value of the recurrence, so a run is a function of its seed.

use vstd::prelude::*;

verus! {

/// The multiplier of the recurrence.
pub const MULTIPLIER: u64 = 6364136223846793005;

/// The increment of the recurrence.
pub const INCREMENT: u64 = 1442695040888963407;

/// The state that follows `state`.
pub open spec fn advance(state: u64) -> u64 {
    ((state as nat * MULTIPLIER as nat + INCREMENT as nat) % 0x1_0000_0000_0000_0000) as u64
}

/// The upper half of a state: the better-mixed bits of the recurrence.
pub open spec fn upper_half(state: u64) -> nat {
    state as nat / 0x1_0000_0000
}

/// The number drawn from `state`: the upper halves of the next two states.
pub open spec fn drawn(state: u64) -> u64 {
    (upper_half(advance(state)) * 0x1_0000_0000 + upper_half(advance(advance(state)))) as u64
}

/// The state left after one draw from `state`.
pub open spec fn after_draw(state: u64) -> u64 {
    advance(advance(state))
}

/// A generator; its view is its state.
pub struct Prng {
    state: u64,
}

impl View for Prng {
    type V = u64;

    closed spec fn view(&self) -> u64 {
        self.state
    }
}

fn step(state: u64) -> (next: u64)
    ensures
        next == advance(state),
{
    assert(state as nat * MULTIPLIER as nat <= 0xffff_ffff_ffff_ffff * 6364136223846793005)
        by (nonlinear_arith)
        requires
            state <= 0xffff_ffff_ffff_ffff,
            MULTIPLIER == 6364136223846793005,
    ;
    let wide: u128 = (state as u128) * (MULTIPLIER as u128) + (INCREMENT as u128);
    (wide % 0x1_0000_0000_0000_0000u128) as u64
}

impl Prng {
    /// A generator whose state is `seed`.
    pub fn new(seed: u64) -> (rng: Prng)
        ensures
            rng@ == seed,
    {
        Prng { state: seed }
    }

    /// Draws the next 64-bit number.
    pub fn next(&mut self) -> (n: u64)
        ensures
            n == drawn(old(self)@),
            final(self)@ == after_draw(old(self)@),
    {
        let first: u64 = step(self.state);
        let second: u64 = step(first);
        self.state = second;
        (first / 0x1_0000_0000) * 0x1_0000_0000 + second / 0x1_0000_0000
    }

    /// Draws a number below `bound`.
    pub fn below(&mut self, bound: u64) -> (n: u64)
        requires
            bound > 0,
        ensures
            n == drawn(old(self)@) % bound,
            n < bound,
            final(self)@ == after_draw(old(self)@),
    {
        let n: u64 = self.next();
        n % bound
    }
}

} // verus!
