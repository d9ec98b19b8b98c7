//! Identities of the three parties in the replicated sharing scheme and
//! their neighbour relations.

use vstd::prelude::*;

verus! {

/// One of the three fixed roles of the replicated three-party protocol.
#[derive(Clone, Copy, Debug, PartialEq, Eq, Structural)]
pub enum PartyID {
    ID0,
    ID1,
    ID2,
}

impl PartyID {
    /// The party's index in `{0, 1, 2}`.
    pub open spec fn index(self) -> int {
        match self {
            PartyID::ID0 => 0,
            PartyID::ID1 => 1,
            PartyID::ID2 => 2,
        }
    }

    /// The next party in the fixed cyclic order.
    pub fn next_id(&self) -> (r: PartyID)
        ensures
            r.index() == (self.index() + 1) % 3,
    {
        match self {
            PartyID::ID0 => PartyID::ID1,
            PartyID::ID1 => PartyID::ID2,
            PartyID::ID2 => PartyID::ID0,
        }
    }

    /// The previous party in the fixed cyclic order.
    pub fn prev_id(&self) -> (r: PartyID)
        ensures
            r.index() == (self.index() + 2) % 3,
    {
        match self {
            PartyID::ID0 => PartyID::ID2,
            PartyID::ID1 => PartyID::ID0,
            PartyID::ID2 => PartyID::ID1,
        }
    }
}

} // verus!
