//! Building blocks of the multi-party protocols.

use vstd::prelude::*;

pub mod error;
pub mod ot;
pub mod party;
pub mod shamir;

verus! {

/// Security parameters: the computational and the statistical level, in bits.
pub struct SecParams(pub u16, pub u16);

/// How far the counterparty is assumed to deviate from the protocol.
pub enum Adversary {
    SemiHonest,
    Malicious,
}

} // verus!
