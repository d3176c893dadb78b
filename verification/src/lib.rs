//! Core of a toy proof-of-work cryptocurrency: ledger engine and the
//! peer-to-peer replication protocol around it.
//!
//! The ledger (chain of blocks, UTXO set, mempool) lives in [`blockchain`];
//! block and transaction entities in [`block`] and [`transaction`]; 256-bit
//! arithmetic and hashing primitives in [`u256`] and [`hash`]; the
//! length-prefixed CBOR wire format in [`codec`] and [`wire`]; and the
//! message-dispatch state machine of a node in [`node`].

use vstd::prelude::*;

pub mod block;
pub mod blockchain;
pub mod bytes;
pub mod codec;
pub mod crypto;
pub mod transaction;
pub mod hash;
pub mod merkle;
pub mod node;
pub mod time;
pub mod u256;
pub mod utxo;
pub mod wire;

verus! {

/// Reward paid by the coinbase of the genesis block, in whole coins.
pub const INITIAL_REWARD: u64 = 50;

/// Number of blocks between two reward halvings.
pub const HALVING_INTERVAL: u64 = 210_000;

/// Number of blocks between two difficulty adjustments.
pub const DIFFICULTY_UPDATE_INTERVAL: u64 = 50;

/// Intended time between two blocks, in seconds.
pub const IDEAL_BLOCK_TIME: u64 = 10;

/// Most transactions a block template takes from the mempool.
pub const BLOCK_TRANSACTION_CAP: usize = 20;

/// Age in seconds past which a mempool entry is evicted.
pub const MAX_MEMPOOL_TRANSACTION_AGE: u64 = 600;

/// Everything that can go wrong while extending the ledger, plus the
/// decode failure of the wire and snapshot formats.
#[derive(Debug, Clone, Copy, PartialEq, Eq, Structural)]
pub enum BtcError {
    /// Header linkage, proof-of-work target, or timestamp violation.
    InvalidBlock,
    /// Header Merkle root disagrees with the recomputed one.
    InvalidMerkleRoot,
    /// Missing UTXO, double spend, value imbalance, empty transaction
    /// list, or coinbase-shape violation.
    InvalidTransaction,
    /// An input signature failed ECDSA verification.
    InvalidSignature,
    /// Malformed frame or CBOR decode failure.
    InvalidData,
}

} // verus!
