//! Core of a secret-sharing based multi-party computation engine.
//!
//! The library covers the two complementary sharing schemes — three-party
//! replicated sharing and t-out-of-n Shamir sharing — together with their
//! share arithmetic, and the bridge from arithmetic shares to Yao's garbled
//! circuits (wire encoding, half-gate garbling, modular adder circuits and
//! bit decomposition).  Network transport and provers sit outside; every
//! operation here is a pure computation over the parties' values.

pub mod bit;
pub mod bits;
pub mod errors;
pub mod field;
pub mod party;
pub mod pointshare;
pub mod rep3;
pub mod ring;
pub mod rng;
pub mod shamir;
pub mod yao;

use vstd::prelude::*;

verus! {

} // verus!
