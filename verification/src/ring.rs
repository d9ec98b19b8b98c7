//! Replicated three-party sharing over the ring of machine words, the
//! integers modulo two to the sixty-four.
//!
//! The share structure is the same as for field elements, but the
//! arithmetic wraps, so every operation is local and needs no modulus
//! parameter.

use crate::party::PartyID;
use crate::rng::xorshift_step;
use vstd::prelude::*;

verus! {

/// The ring's modulus: two to the sixty-four.
pub open spec fn ring_modulus() -> int {
    0x1_0000_0000_0000_0000
}

/// An element of the ring of machine words.
#[derive(Clone, Copy, Debug, PartialEq, Eq, Hash, Structural)]
pub struct RingElement(pub u64);

impl RingElement {
    /// The ring's zero.
    pub fn zero() -> (r: Self)
        ensures
            r.0 == 0,
    {
        RingElement(0)
    }

    /// The ring's one.
    pub fn one() -> (r: Self)
        ensures
            r.0 == 1,
    {
        RingElement(1)
    }

    /// Wrapping ring addition.
    pub fn wrapping_add(self, rhs: Self) -> (r: Self)
        ensures
            r.0 == (self.0 + rhs.0) % ring_modulus(),
    {
        RingElement(self.0.wrapping_add(rhs.0))
    }

    /// Wrapping ring subtraction.
    pub fn wrapping_sub(self, rhs: Self) -> (r: Self)
        ensures
            r.0 == (self.0 - rhs.0) % ring_modulus(),
    {
        RingElement(self.0.wrapping_sub(rhs.0))
    }

    /// Wrapping ring negation.
    pub fn wrapping_neg(self) -> (r: Self)
        ensures
            r.0 == (0 - self.0) % ring_modulus(),
    {
        RingElement(0u64.wrapping_sub(self.0))
    }

    /// Wrapping ring multiplication.
    pub fn wrapping_mul(self, rhs: Self) -> (r: Self)
        ensures
            r.0 == (self.0 * rhs.0) % ring_modulus(),
    {
        RingElement(self.0.wrapping_mul(rhs.0))
    }

    /// Bitwise exclusive or.
    pub fn bitxor(self, rhs: Self) -> (r: Self)
        ensures
            r.0 == self.0 ^ rhs.0,
    {
        RingElement(self.0 ^ rhs.0)
    }

    /// Bitwise and.
    pub fn bitand(self, rhs: Self) -> (r: Self)
        ensures
            r.0 == self.0 & rhs.0,
    {
        RingElement(self.0 & rhs.0)
    }
}

/// A replicated share of a ring element: this party's additive sub-share
/// and the previous party's.
#[derive(Clone, Copy, Debug, PartialEq, Eq, Hash, Structural)]
pub struct Rep3RingShare {
    /// Share of this party.
    pub a: RingElement,
    /// Share of the previous party.
    pub b: RingElement,
}

/// The three parties' ring shares replicate each sub-share correctly.
pub open spec fn ring_sharing_consistent(
    s0: Rep3RingShare,
    s1: Rep3RingShare,
    s2: Rep3RingShare,
) -> bool {
    s0.b == s2.a && s1.b == s0.a && s2.b == s1.a
}

/// The ring value a three-party sharing stands for.
pub open spec fn ring_sharing_value(s0: Rep3RingShare, s1: Rep3RingShare, s2: Rep3RingShare) -> int {
    (s0.a.0 + s1.a.0 + s2.a.0) % ring_modulus()
}

impl Rep3RingShare {
    /// Constructs the type from two additive shares.
    pub fn new(a: u64, b: u64) -> (r: Self)
        ensures
            r.a.0 == a && r.b.0 == b,
    {
        Self { a: RingElement(a), b: RingElement(b) }
    }

    /// Constructs the type from two ring elements.
    pub fn new_ring(a: RingElement, b: RingElement) -> (r: Self)
        ensures
            r.a == a && r.b == b,
    {
        Self { a, b }
    }

    /// Constructs a zero share.
    pub fn zero_share() -> (r: Self)
        ensures
            r.a.0 == 0 && r.b.0 == 0,
    {
        Self { a: RingElement::zero(), b: RingElement::zero() }
    }

    /// Unwraps the type into two additive shares.
    pub fn ab(self) -> (r: (RingElement, RingElement))
        ensures
            r.0 == self.a && r.1 == self.b,
    {
        (self.a, self.b)
    }

    /// Doubles the share in place.
    pub fn double(&mut self)
        ensures
            final(self).a.0 == (2 * old(self).a.0) % ring_modulus(),
            final(self).b.0 == (2 * old(self).b.0) % ring_modulus(),
    {
        self.a = self.a.wrapping_add(self.a);
        self.b = self.b.wrapping_add(self.b);
    }

    /// Generates a random share from the two streams shared with the
    /// neighbouring parties.
    pub fn random(rng: &mut crate::rng::Rep3Rand) -> (r: Self)
        ensures
            r.a.0 == xorshift_step(old(rng).my.state),
            r.b.0 == xorshift_step(old(rng).prev.state),
            final(rng).my.state == xorshift_step(old(rng).my.state),
            final(rng).prev.state == xorshift_step(old(rng).prev.state),
    {
        let a = rng.my.next_u64();
        let b = rng.prev.next_u64();
        Self::new(a, b)
    }

    /// Promotes a public ring element to a replicated share by giving
    /// the whole value to the sub-share of party 0.
    pub fn promote_from_trivial(val: &RingElement, id: PartyID) -> (r: Self)
        ensures
            id == PartyID::ID0 ==> r.a == *val && r.b.0 == 0,
            id == PartyID::ID1 ==> r.a.0 == 0 && r.b == *val,
            id == PartyID::ID2 ==> r.a.0 == 0 && r.b.0 == 0,
    {
        match id {
            PartyID::ID0 => Self::new_ring(*val, RingElement::zero()),
            PartyID::ID1 => Self::new_ring(RingElement::zero(), *val),
            PartyID::ID2 => Self::zero_share(),
        }
    }

    /// Local share addition in the ring.
    pub fn add(self, rhs: Self) -> (r: Self)
        ensures
            r.a.0 == (self.a.0 + rhs.a.0) % ring_modulus(),
            r.b.0 == (self.b.0 + rhs.b.0) % ring_modulus(),
    {
        Self { a: self.a.wrapping_add(rhs.a), b: self.b.wrapping_add(rhs.b) }
    }

    /// Local share subtraction in the ring.
    pub fn sub(self, rhs: Self) -> (r: Self)
        ensures
            r.a.0 == (self.a.0 - rhs.a.0) % ring_modulus(),
            r.b.0 == (self.b.0 - rhs.b.0) % ring_modulus(),
    {
        Self { a: self.a.wrapping_sub(rhs.a), b: self.b.wrapping_sub(rhs.b) }
    }
}

/// Reconstruction of a ring sharing: a party's pair and the missing
/// sub-share sum to the shared value, whichever party opens.
pub proof fn lemma_ring_open_correct(
    s0: Rep3RingShare,
    s1: Rep3RingShare,
    s2: Rep3RingShare,
)
    requires
        ring_sharing_consistent(s0, s1, s2),
    ensures
        (s0.a.0 + s0.b.0 + s1.a.0) % ring_modulus() == ring_sharing_value(s0, s1, s2),
        (s1.a.0 + s1.b.0 + s2.a.0) % ring_modulus() == ring_sharing_value(s0, s1, s2),
        (s2.a.0 + s2.b.0 + s0.a.0) % ring_modulus() == ring_sharing_value(s0, s1, s2),
{
}

} // verus!
