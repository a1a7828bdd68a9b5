use vstd::prelude::*;
use vstd::wrapping::u64_specs;

verus! {

/// A source of seeds for hashing.
pub trait SeedSupplier {
    /// A new seed.
    fn gen_seed(&mut self) -> u64;
}

/// Seeds drawn from a counter, each scrambled by shifts.
#[derive(Debug, Clone, Copy)]
pub struct SimpleGlobalSeed {
    counter: u64,
}

/// The seed made of counter value `x`.
pub open spec fn scramble(x: u64) -> u64 {
    x ^ (x << 13u64) ^ (x >> 7u64)
}

impl SimpleGlobalSeed {
    pub closed spec fn spec_counter(&self) -> u64 {
        self.counter
    }

    /// A supplier whose counter starts at 0.
    pub fn new() -> (s: Self)
        ensures
            s.spec_counter() == 0,
    {
        SimpleGlobalSeed { counter: 0 }
    }
}

impl SeedSupplier for SimpleGlobalSeed {
    /// The scrambled counter; the counter moves on by one.
    fn gen_seed(&mut self) -> (r: u64)
        ensures
            r == scramble(old(self).spec_counter()),
            final(self).spec_counter() == u64_specs::wrapping_add(old(self).spec_counter(), 1),
    {
        let x = self.counter;
        self.counter = self.counter.wrapping_add(1);
        x ^ (x << 13u64) ^ (x >> 7u64)
    }
}

} // verus!
