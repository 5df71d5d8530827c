//! Positions in the chain.

use vstd::prelude::*;

verus! {

/// A discrete, monotonically increasing unit of chain progress.
pub type Epoch = u32;

/// A 256-bit digest, held as four big-endian 64-bit words.
#[derive(Clone, Copy, Debug, PartialEq, Eq, Hash, Structural)]
pub struct Hash256 {
    pub w0: u64,
    pub w1: u64,
    pub w2: u64,
    pub w3: u64,
}

/// The identity of a block: its hash.
pub type BlockKey = Hash256;

/// A position in the chain: an epoch and the hash of the block at that epoch.
///
/// Two beacons are equal when both epoch and hash are. Beacons of one epoch
/// with different hashes are the sign of a fork at that epoch.
#[derive(Clone, Copy, Debug, Eq, Hash)]
pub struct CheckpointBeacon {
    pub epoch: Epoch,
    pub block_hash: Hash256,
}

impl PartialEq for CheckpointBeacon {
    fn eq(&self, other: &Self) -> (r: bool) {
        self.epoch == other.epoch && self.block_hash == other.block_hash
    }
}

impl vstd::std_specs::cmp::PartialEqSpecImpl for CheckpointBeacon {
    open spec fn obeys_eq_spec() -> bool {
        true
    }

    open spec fn eq_spec(&self, other: &Self) -> bool {
        self.epoch == other.epoch && self.block_hash == other.block_hash
    }
}

/// The equality test of beacons is equality: two beacons compare equal
/// exactly when they are the same beacon.
pub proof fn lemma_beacon_equality()
    ensures
        vstd::laws_eq::obeys_concrete_eq::<CheckpointBeacon>(),
{
    reveal(vstd::laws_eq::obeys_concrete_eq);
}

} // verus!
