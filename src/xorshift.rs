//! A xorshift pseudo-random sequence generator.

use vstd::prelude::*;

verus! {

/// One xorshift step: shift-left 13, shift-right 17, shift-left 5, each
/// folded back into the state by exclusive or.
pub open spec fn xorshift_step(s: usize) -> usize {
    let a = s ^ ((s << 13usize) as usize);
    let b = a ^ (a >> 17usize);
    b ^ ((b << 5usize) as usize)
}

/// The iteration counter after one more draw; it wraps at the top of `usize`.
pub open spec fn next_iteration(i: usize) -> usize {
    if i == usize::MAX {
        0
    } else {
        (i + 1) as usize
    }
}

/// Deterministic generator state: the current value and the number of draws.
pub struct Rng {
    state: usize,
    iter: usize,
}

impl Rng {
    pub closed spec fn state(&self) -> usize {
        self.state
    }

    pub closed spec fn iteration(&self) -> usize {
        self.iter
    }

    /// A generator that starts from `seed`, with no draws made.
    pub fn new(seed: usize) -> (r: Rng)
        ensures
            r.state() == seed,
            r.iteration() == 0,
    {
        Rng { state: seed, iter: 0 }
    }

    /// Replaces the current state by `seed`; the draw count is kept.
    pub fn seed(&mut self, seed: usize)
        ensures
            final(self).state() == seed,
            final(self).iteration() == old(self).iteration(),
    {
        self.state = seed;
    }

    pub fn get_state(&self) -> (r: usize)
        ensures
            r == self.state(),
    {
        self.state
    }

    pub fn get_iteration(&self) -> (r: usize)
        ensures
            r == self.iteration(),
    {
        self.iter
    }

    /// Advances the state by one xorshift step and returns the new state.
    pub fn rand(&mut self) -> (r: usize)
        ensures
            r == xorshift_step(old(self).state()),
            final(self).state() == r,
            final(self).iteration() == next_iteration(old(self).iteration()),
    {
        self.state = self.state ^ (self.state << 13usize);
        self.state = self.state ^ (self.state >> 17usize);
        self.state = self.state ^ (self.state << 5usize);
        self.iter = self.iter.wrapping_add(1);
        self.state
    }

    /// The next draw reduced modulo `top`.
    pub fn get_random(&mut self, top: usize) -> (r: usize)
        requires
            top > 0,
        ensures
            r == xorshift_step(old(self).state()) % top,
            r < top,
            final(self).state() == xorshift_step(old(self).state()),
            final(self).iteration() == next_iteration(old(self).iteration()),
    {
        self.rand() % top
    }
}

} // verus!
