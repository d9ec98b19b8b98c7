//! A sharable one-bit ring element.
//!
//! `Bit` is the field of two elements embedded in the ring-share
//! machinery: addition and subtraction are exclusive or, multiplication
//! is conjunction, and negation is the identity, so boolean shares flow
//! through the same share, open and multiply paths as wider rings.

use crate::errors::MpcError;
use vstd::prelude::*;

verus! {

/// A wrapper for a boolean value with ring arithmetic.
#[derive(Copy, Clone, Debug, Default, Eq, PartialEq, Structural)]
pub struct Bit(bool);

impl Bit {
    /// Wraps a boolean.
    pub fn new(value: bool) -> (r: Self)
        ensures
            r.value() == value,
    {
        Self(value)
    }

    /// Unwraps into the boolean.
    pub fn convert(self) -> (r: bool)
        ensures
            r == self.value(),
    {
        self.0
    }

    /// The value of the wrapped boolean, for contracts.
    pub closed spec fn value(self) -> bool {
        self.0
    }

    /// The ring's zero.
    pub fn zero() -> (r: Self)
        ensures
            !r.value(),
    {
        Self(false)
    }

    /// The ring's one.
    pub fn one() -> (r: Self)
        ensures
            r.value(),
    {
        Self(true)
    }

    /// Whether this is the ring's zero.
    pub fn is_zero(self) -> (r: bool)
        ensures
            r == !self.value(),
    {
        !self.0
    }

    /// Ring addition: exclusive or.
    pub fn add(self, rhs: Self) -> (r: Self)
        ensures
            r.value() == (self.value() ^ rhs.value()),
    {
        self.bitxor(rhs)
    }

    /// Wrapping addition; the one-bit ring never overflows differently.
    pub fn wrapping_add(self, rhs: Self) -> (r: Self)
        ensures
            r.value() == (self.value() ^ rhs.value()),
    {
        self.bitxor(rhs)
    }

    /// Ring subtraction: also exclusive or.
    pub fn sub(self, rhs: Self) -> (r: Self)
        ensures
            r.value() == (self.value() ^ rhs.value()),
    {
        self.bitxor(rhs)
    }

    /// Wrapping subtraction.
    pub fn wrapping_sub(self, rhs: Self) -> (r: Self)
        ensures
            r.value() == (self.value() ^ rhs.value()),
    {
        self.bitxor(rhs)
    }

    /// Ring negation: the identity, since one is its own inverse.
    pub fn neg(self) -> (r: Self)
        ensures
            r.value() == self.value(),
    {
        self
    }

    /// Wrapping negation.
    pub fn wrapping_neg(self) -> (r: Self)
        ensures
            r.value() == self.value(),
    {
        self
    }

    /// Exclusive or.
    pub fn bitxor(self, rhs: Self) -> (r: Self)
        ensures
            r.value() == (self.value() ^ rhs.value()),
    {
        Self(self.0 ^ rhs.0)
    }

    /// Bitwise or.
    pub fn bitor(self, rhs: Self) -> (r: Self)
        ensures
            r.value() == (self.value() || rhs.value()),
    {
        Self(self.0 || rhs.0)
    }

    /// Bitwise and.
    pub fn bitand(self, rhs: Self) -> (r: Self)
        ensures
            r.value() == (self.value() && rhs.value()),
    {
        Self(self.0 && rhs.0)
    }

    /// Logical negation of the wrapped boolean.
    pub fn not(self) -> (r: Self)
        ensures
            r.value() == !self.value(),
    {
        Self(!self.0)
    }

    /// Ring multiplication: conjunction.
    pub fn mul(self, rhs: Self) -> (r: Self)
        ensures
            r.value() == (self.value() && rhs.value()),
    {
        self.bitand(rhs)
    }

    /// Wrapping multiplication.
    pub fn wrapping_mul(self, rhs: Self) -> (r: Self)
        ensures
            r.value() == (self.value() && rhs.value()),
    {
        self.bitand(rhs)
    }

    /// Interprets a byte as a bit; any value above one is invalid input.
    pub fn try_from_u8(value: u8) -> (r: Result<Self, MpcError>)
        ensures
            r.is_ok() <==> value <= 1,
            r.is_ok() ==> r.unwrap().value() == (value == 1),
    {
        match value {
            0u8 => Ok(Bit(false)),
            1u8 => Ok(Bit(true)),
            _ => Err(MpcError::InvalidInput),
        }
    }

    /// Interprets a machine word as a bit; any value above one is
    /// invalid input.
    pub fn try_from_usize(value: usize) -> (r: Result<Self, MpcError>)
        ensures
            r.is_ok() <==> value <= 1,
            r.is_ok() ==> r.unwrap().value() == (value == 1),
    {
        match value {
            0usize => Ok(Bit(false)),
            1usize => Ok(Bit(true)),
            _ => Err(MpcError::InvalidInput),
        }
    }

    /// The bit as a machine word.
    pub fn to_usize(self) -> (r: usize)
        ensures
            r == if self.value() {
                1usize
            } else {
                0usize
            },
    {
        if self.0 {
            1
        } else {
            0
        }
    }

    /// The bit as a byte.
    pub fn to_u8(self) -> (r: u8)
        ensures
            r == if self.value() {
                1u8
            } else {
                0u8
            },
    {
        if self.0 {
            1
        } else {
            0
        }
    }

    /// Wraps a boolean, as the ring machinery's conversion.
    pub fn from_bool(other: bool) -> (r: Self)
        ensures
            r.value() == other,
    {
        Bit(other)
    }

    /// A left shift clears the bit unless the distance is zero.
    pub fn shl(self, rhs: usize) -> (r: Self)
        ensures
            r.value() == (rhs == 0 && self.value()),
    {
        if rhs == 0 {
            self
        } else {
            Self(false)
        }
    }

    /// A right shift clears the bit unless the distance is zero.
    pub fn shr(self, rhs: usize) -> (r: Self)
        ensures
            r.value() == (rhs == 0 && self.value()),
    {
        if rhs == 0 {
            self
        } else {
            Self(false)
        }
    }

    /// Wrapping left shift.
    pub fn wrapping_shl(self, rhs: u32) -> (r: Self)
        ensures
            r.value() == (rhs == 0 && self.value()),
    {
        self.shl(rhs as usize)
    }

    /// Wrapping right shift.
    pub fn wrapping_shr(self, rhs: u32) -> (r: Self)
        ensures
            r.value() == (rhs == 0 && self.value()),
    {
        self.shr(rhs as usize)
    }
}

} // verus!
