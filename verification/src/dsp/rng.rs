//! The engine's random source: a small seeded generator, so that a render repeats.

use vstd::prelude::*;

use crate::float::Double;

verus! {

/// mulberry32: a 32-bit counter, scrambled.
#[derive(Clone, Debug)]
pub struct Mulberry32 {
    state: u32,
}

/// What the counter moves by.
pub const STRIDE: u32 = 0x6d2b_79f5;

/// The draw a counter value gives.
pub open spec fn scrambled(a: u32) -> u32 {
    let t = (a ^ (a >> 15)).wrapping_mul(1 | a);
    let u = t.wrapping_add((t ^ (t >> 7)).wrapping_mul(61 | t)) ^ t;
    u ^ (u >> 14)
}

impl Mulberry32 {
    pub closed spec fn counter(&self) -> u32 {
        self.state
    }

    pub fn new(seed: u32) -> (r: Self)
        ensures
            r.counter() == seed,
    {
        Mulberry32 { state: seed }
    }

    /// The next 32 bits.
    pub fn next_u32(&mut self) -> (n: u32)
        ensures
            final(self).counter() == old(self).counter().wrapping_add(STRIDE),
            n == scrambled(final(self).counter()),
    {
        self.state = self.state.wrapping_add(STRIDE);
        let a: u32 = self.state;
        let t: u32 = (a ^ (a >> 15)).wrapping_mul(1 | a);
        let u: u32 = t.wrapping_add((t ^ (t >> 7)).wrapping_mul(61 | t)) ^ t;
        u ^ (u >> 14)
    }

    /// The next number in `[0, 1)`: 32 random bits behind the point.
    pub fn next_f64(&mut self) -> (x: Double)
        ensures
            final(self).counter() == old(self).counter().wrapping_add(STRIDE),
            x.is_dyadic(scrambled(final(self).counter()) as int, 32),
    {
        let n: u32 = self.next_u32();
        Double::dyadic(n as u64, 32)
    }
}

} // verus!
