//! Plain values that the watcher exchanges with its surroundings.
use vstd::prelude::*;

verus! {

/// A 256-bit hash, as its two big-endian halves.
#[derive(Clone, Copy, Debug, PartialEq, Eq, Structural, Hash)]
pub struct H256 {
    pub hi: u128,
    pub lo: u128,
}

/// A 256-bit unsigned integer, as its high and low halves.
#[derive(Clone, Copy, Debug, PartialEq, Eq, Structural, Hash)]
pub struct U256 {
    pub hi: u128,
    pub lo: u128,
}

impl U256 {
    /// The number that the two halves stand for.
    pub open spec fn value(self) -> nat {
        self.hi as nat * 0x1_0000_0000_0000_0000_0000_0000_0000_0000 + self.lo as nat
    }
}

/// Chain that an event comes from: L1, or the settlement layer.
#[derive(Clone, Copy, Debug, PartialEq, Eq, Structural, Hash)]
pub enum EventsSource {
    L1,
    SL,
}

/// Layer that the chain settles on, with its chain id.
#[derive(Clone, Copy, Debug, PartialEq, Eq, Structural, Hash)]
pub enum SettlementLayer {
    L1(u64),
    Gateway(u64),
}

/// Number of a priority operation.
#[derive(Clone, Copy, Debug, PartialEq, Eq, Structural, Hash)]
pub struct PriorityOpId(pub u64);

/// Number of a batch.
#[derive(Clone, Copy, Debug, PartialEq, Eq, Structural, Hash)]
pub struct L1BatchNumber(pub u32);

/// Id of an L1 chain.
#[derive(Clone, Copy, Debug, PartialEq, Eq, Structural, Hash)]
pub struct L1ChainId(pub u64);

/// Id of an L2 chain.
#[derive(Clone, Copy, Debug, PartialEq, Eq, Structural, Hash)]
pub struct L2ChainId(pub u64);

/// Version of the protocol.
#[derive(Clone, Copy, Debug, PartialEq, Eq, Structural, Hash)]
pub struct ProtocolSemanticVersion {
    pub minor: u16,
    pub patch: u32,
}

} // verus!
