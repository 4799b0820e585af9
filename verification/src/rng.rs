use vstd::prelude::*;

verus! {

/// The fallback state used when a generator is seeded with zero.
pub const ZERO_SEED_REPLACEMENT: u64 = 0x9E3779B97F4A7C15;

/// One xorshift64 step (shifts 13, 7, 17).
pub open spec fn xorshift(x: u64) -> u64 {
    let a = x ^ (x << 13u64);
    let b = a ^ (a >> 7u64);
    b ^ (b << 17u64)
}

/// A minimal xorshift pseudo-random generator. Its state is never zero.
#[derive(Debug)]
pub struct Rng {
    state: u64,
}

impl Rng {
    pub closed spec fn state(&self) -> u64 {
        self.state
    }

    #[verifier::type_invariant]
    spec fn nonzero(&self) -> bool {
        self.state != 0
    }

    /// A generator seeded with `seed`, or with a fixed odd constant when `seed` is zero.
    pub fn new(seed: u64) -> (r: Rng)
        ensures
            r.state() == (if seed == 0 { ZERO_SEED_REPLACEMENT } else { seed }),
            r.state() != 0,
    {
        Rng { state: if seed == 0 { ZERO_SEED_REPLACEMENT } else { seed } }
    }

    /// Advances the state by one xorshift step and returns the new state modulo one million.
    pub fn next_raw(&mut self) -> (r: u64)
        ensures
            final(self).state() == xorshift(old(self).state()),
            final(self).state() != 0,
            r == xorshift(old(self).state()) % 1_000_000,
            r < 1_000_000,
    {
        proof { use_type_invariant(&*self); }
        let x = self.state;
        let a = x ^ (x << 13u64);
        let b = a ^ (a >> 7u64);
        let c = b ^ (b << 17u64);
        proof { lemma_xorshift_nonzero(x); }
        self.state = c;
        c % 1_000_000
    }
}

/// An xorshift step never maps a nonzero state to zero.
pub proof fn lemma_xorshift_nonzero(x: u64)
    requires
        x != 0,
    ensures
        xorshift(x) != 0,
{
    assert(xorshift(x) != 0) by (bit_vector)
        requires
            x != 0,
    ;
}

} // verus!
