//! The records that blocks contribute to a wallet.

use crate::chain::{BlockKey, CheckpointBeacon, Epoch, Hash256};
use crate::vec_map::{MapKey, VecMap};
use vstd::prelude::*;

verus! {

/// Why a reconciliation step was refused. A refused step changes nothing.
#[derive(Clone, Copy, Debug, PartialEq, Eq, Structural)]
pub enum ReconcileError {
    /// A block was applied whose epoch is not the one after the last synced epoch.
    SequenceError,
    /// A finality signal named an epoch below the last confirmed one.
    FinalityRegressionError,
    /// A block was applied under the key of a block that is still pending.
    DuplicateBlockKey,
    /// A block was applied while as many blocks were pending as may be retained.
    RetentionExceeded,
    /// A credit would take the balance over what it can hold.
    BalanceOverflow,
    /// A debit would take the balance below zero.
    BalanceUnderflow,
    /// No derivation index is left to issue.
    IndexOverflow,
}

/// A reference to one output of one transaction.
#[derive(Clone, Copy, Debug, PartialEq, Eq, Hash, Structural)]
pub struct OutputRef {
    pub txn_hash: Hash256,
    pub output_index: u32,
}

impl MapKey for OutputRef {
    fn same_key(&self, other: &Self) -> (r: bool) {
        *self == *other
    }
}

/// What an unspent output holds.
#[derive(Clone, Copy, Debug, PartialEq, Eq)]
pub struct OutputData {
    /// The public key hash that may spend the output.
    pub pkh: [u8; 20],
    pub amount: u64,
    pub time_lock: u64,
}

/// An unspent output: where it is and what it holds.
#[derive(Clone, Copy, Debug, PartialEq, Eq)]
pub struct Utxo {
    pub out_ref: OutputRef,
    pub data: OutputData,
}

/// The unspent outputs of an account, by reference.
pub type UtxoSet = VecMap<OutputRef, OutputData>;

/// Whether a movement adds to the balance or takes from it.
#[derive(Clone, Copy, Debug, PartialEq, Eq, Structural)]
pub enum MovementKind {
    Credit,
    Debit,
}

/// What one transaction of a block does to the account: the amount it moves
/// and the outputs it spends and creates.
#[derive(Clone, Debug, PartialEq, Eq)]
pub struct BalanceMovement {
    pub kind: MovementKind,
    pub amount: u64,
    pub spent: Vec<OutputRef>,
    pub created: Vec<Utxo>,
}

/// A derived address: the keychain it belongs to and its index there.
#[derive(Clone, Copy, Debug, PartialEq, Eq, Hash, Structural)]
pub struct AddressKey {
    pub keychain: u32,
    pub index: u32,
}

impl MapKey for AddressKey {
    fn same_key(&self, other: &Self) -> (r: bool) {
        *self == *other
    }
}

/// How an address has been used so far.
#[derive(Clone, Copy, Debug, PartialEq, Eq)]
pub struct AddressUsage {
    /// How many payments the address has received.
    pub payments: u32,
    /// How much it has received in all.
    pub received: u64,
    /// The epoch of the last block that paid to it.
    pub last_used: Epoch,
}

/// An update to the usage record of one address, as of some block.
#[derive(Clone, Copy, Debug, PartialEq, Eq)]
pub struct AddressInfo {
    pub address: AddressKey,
    pub usage: AddressUsage,
}

/// The usage records of an account's addresses.
pub type AddressBook = VecMap<AddressKey, AddressUsage>;

/// A block that has been applied to the wallet and awaits finality.
#[derive(Clone, Debug, PartialEq, Eq)]
pub struct PendingBlock {
    pub key: BlockKey,
    pub beacon: CheckpointBeacon,
    pub movements: Vec<BalanceMovement>,
    pub address_infos: Vec<AddressInfo>,
}

/// The root of a key derivation chain.
#[derive(Clone, Copy, Debug, PartialEq, Eq)]
pub struct KeyRoot {
    pub secret: [u8; 32],
    pub chain_code: [u8; 32],
}

/// The two derivation chains of an account.
#[derive(Clone, Copy, Debug, PartialEq, Eq)]
pub struct Keychains {
    pub external: KeyRoot,
    pub internal: KeyRoot,
}

/// The constants that relate epochs to time.
#[derive(Clone, Copy, Debug, PartialEq, Eq, Structural)]
pub struct EpochConstants {
    pub checkpoint_zero_timestamp: i64,
    pub checkpoints_period: u16,
}

} // verus!
