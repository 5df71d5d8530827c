//! Chain-tip quorum resolution and reorg-safe wallet reconciliation.
//!
//! The crate has two halves. [`quorum`] decides which reported chain tip a
//! node should trust. [`state`] keeps a wallet's confirmed ledger together
//! with a revocable overlay of blocks that have been applied but not yet
//! declared final; [`ledger`] says what merging a block into the ledger
//! means, [`model`] and [`chain`] hold the records involved, and
//! [`state_laws`] proves what holds of every run of blocks and finality
//! signals. [`vec_map`] is the map that ledgers keep their outputs and
//! addresses in. [`force`], [`flatten`] and [`file_name`] are small
//! utilities for the callers.

pub mod chain;
pub mod file_name;
pub mod flatten;
pub mod force;
pub mod ledger;
pub mod model;
pub mod quorum;
pub mod state;
pub mod state_laws;
pub mod vec_map;
