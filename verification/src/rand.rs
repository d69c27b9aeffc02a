//! The deterministic pseudo-random number generator: a 64-bit xorshift with
//! explicit state, seeded once and threaded through whoever draws from it,
//! so that a fixed seed reproduces a game exactly.

use vstd::prelude::*;

verus! {

/// One xorshift step over the 64-bit state.
pub open spec fn rng_next(a: u64) -> u64 {
    let b = a ^ (a << 13);
    let c = b ^ (b >> 7);
    c ^ (c << 17)
}

/// The state after `n` steps from `s`.
pub open spec fn rng_iter(s: u64, n: nat) -> u64
    decreases n,
{
    if n == 0 {
        s
    } else {
        rng_next(rng_iter(s, (n - 1) as nat))
    }
}

/// A pseudo-random generator; equal states draw equal sequences.
#[derive(Clone, Copy, Debug, PartialEq, Eq, Structural)]
pub struct Rand {
    pub state: u64,
}

/// Seeds a fresh generator.
pub fn seed(s: u64) -> (r: Rand)
    ensures
        r.state == s,
{
    Rand { state: s }
}

impl Rand {
    /// Advances the generator one step and returns the new state.
    pub fn rand(&mut self) -> (r: u64)
        ensures
            final(self).state == rng_next(old(self).state),
            r == final(self).state,
    {
        let mut a = self.state;
        a = a ^ (a << 13);
        a = a ^ (a >> 7);
        a = a ^ (a << 17);
        self.state = a;
        a
    }
}

} // verus!
