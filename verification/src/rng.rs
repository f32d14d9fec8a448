use vstd::prelude::*;

verus! {

/// State transition of the 64-bit xorshift generator: three shift-xor rounds.
pub open spec fn rng_next(s: u64) -> u64 {
    let a = s ^ (s << 13);
    let b = a ^ (a >> 17);
    b ^ (b << 43)
}

/// A deterministic pseudo-random number generator (64-bit xorshift).
///
/// Every draw is a pure function of the current state, so any computation
/// seeded from a fixed state is reproducible.
pub struct Rng {
    state: u64,
}

impl View for Rng {
    type V = u64;

    closed spec fn view(&self) -> u64 {
        self.state
    }
}

impl Rng {
    /// A generator with the fixed default seed.
    pub fn new() -> (r: Rng)
        ensures
            r@ == 0x2f7151ffd59720b3u64,
    {
        Rng { state: 0x2f7151ffd59720b3 }
    }

    /// A generator seeded with the given state.
    pub fn from_seed(seed: u64) -> (r: Rng)
        ensures
            r@ == seed,
    {
        Rng { state: seed }
    }

    /// Returns the current state and advances to the next one.
    pub fn rand(&mut self) -> (r: u64)
        ensures
            r == old(self)@,
            final(self)@ == rng_next(old(self)@),
    {
        let orig = self.state;
        self.state = self.state ^ (self.state << 13);
        self.state = self.state ^ (self.state >> 17);
        self.state = self.state ^ (self.state << 43);
        orig
    }
}

} // verus!
