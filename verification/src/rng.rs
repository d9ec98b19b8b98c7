//! Correlated randomness.
//!
//! Each adjacent pair of parties holds a generator seeded identically, so
//! the two can derive the same stream without communication.  A generator
//! is deterministic: every value it hands out is a function of the state,
//! which makes protocol runs replayable.

use crate::field::in_field;
use vstd::prelude::*;

verus! {

/// One xorshift step; the whole stream is determined by the seed.
pub open spec fn xorshift_step(s: u64) -> u64 {
    let x1 = s ^ (s << 13);
    let x2 = x1 ^ (x1 >> 7);
    x2 ^ (x2 << 17)
}

/// A deterministic pseudorandom generator with an explicit state.
#[derive(Clone, Copy, Debug, PartialEq, Eq, Structural)]
pub struct Prng {
    /// The generator's current state; never zero.
    pub state: u64,
}

impl Prng {
    /// Seeds a generator; a zero seed is replaced by a fixed constant so
    /// that the xorshift stream cannot collapse.
    pub fn new(seed: u64) -> (r: Self)
        ensures
            r.state == if seed == 0 { 0x2545F4914F6CDD1Du64 } else { seed },
    {
        let state: u64 = if seed == 0 { 0x2545F4914F6CDD1Du64 } else { seed };
        Self { state }
    }

    /// Draws the next value of the stream and advances the state.
    pub fn next_u64(&mut self) -> (r: u64)
        ensures
            r == xorshift_step(old(self).state),
            final(self).state == r,
    {
        let s = self.state;
        let x1 = s ^ (s << 13u64);
        let x2 = x1 ^ (x1 >> 7u64);
        let x3 = x2 ^ (x2 << 17u64);
        self.state = x3;
        x3
    }

    /// Draws the next value reduced into the field with modulus `p`.
    pub fn next_field(&mut self, p: u64) -> (r: u64)
        requires
            1 < p,
        ensures
            r == xorshift_step(old(self).state) as int % (p as int),
            final(self).state == xorshift_step(old(self).state),
            in_field(r, p),
    {
        let v = self.next_u64();
        v % p
    }
}

/// The pair of generators one party holds: one shared with the next
/// party, one shared with the previous party.
#[derive(Clone, Copy, Debug, PartialEq, Eq, Structural)]
pub struct Rep3Rand {
    /// Stream shared with the next party.
    pub my: Prng,
    /// Stream shared with the previous party.
    pub prev: Prng,
}

impl Rep3Rand {
    /// Builds the pair from the two shared seeds.
    pub fn new(my_seed: u64, prev_seed: u64) -> (r: Self)
        ensures
            r.my == Prng::new_spec(my_seed),
            r.prev == Prng::new_spec(prev_seed),
    {
        Self { my: Prng::new(my_seed), prev: Prng::new(prev_seed) }
    }

    /// Draws a random replicated share pair: the `a` half from the stream
    /// shared with the next party, the `b` half from the stream shared
    /// with the previous one.  Across the three parties this yields a
    /// consistent random sharing with no communication.
    pub fn random_fes(&mut self, p: u64) -> (r: (u64, u64))
        requires
            1 < p,
        ensures
            r.0 == xorshift_step(old(self).my.state) as int % (p as int),
            r.1 == xorshift_step(old(self).prev.state) as int % (p as int),
            final(self).my.state == xorshift_step(old(self).my.state),
            final(self).prev.state == xorshift_step(old(self).prev.state),
            in_field(r.0, p) && in_field(r.1, p),
    {
        let a = self.my.next_field(p);
        let b = self.prev.next_field(p);
        (a, b)
    }

    /// Draws this party's additive mask for a multiplication: the
    /// difference of the two shared streams, so that the three parties'
    /// masks sum to zero.
    pub fn masking_field_element(&mut self, p: u64) -> (r: u64)
        requires
            1 < p,
        ensures
            r == (xorshift_step(old(self).my.state) as int % (p as int) - xorshift_step(
                old(self).prev.state,
            ) as int % (p as int)) % (p as int),
            final(self).my.state == xorshift_step(old(self).my.state),
            final(self).prev.state == xorshift_step(old(self).prev.state),
            in_field(r, p),
    {
        let (a, b) = self.random_fes(p);
        crate::field::sub_mod(a, b, p)
    }
}

impl Prng {
    /// The state `new` produces for a seed.
    pub open spec fn new_spec(seed: u64) -> Prng {
        Prng { state: if seed == 0 { 0x2545F4914F6CDD1Du64 } else { seed } }
    }
}

/// Three masks drawn as stream differences around the ring sum to zero:
/// each party subtracts the value its previous neighbour adds.
pub proof fn lemma_masks_sum_zero(v0: u64, v1: u64, v2: u64, p: u64)
    requires
        1 < p,
    ensures
        ((v0 - v2) % (p as int) + (v1 - v0) % (p as int) + (v2 - v1) % (p as int)) % (p as int)
            == 0,
{
    let pp = p as int;
    crate::field::lemma_mod_add3(v0 - v2, v1 - v0, v2 - v1, pp);
    assert((v0 - v2) + (v1 - v0) + (v2 - v1) == 0);
    vstd::arithmetic::div_mod::lemma_small_mod(0, p as nat);
}

} // verus!
