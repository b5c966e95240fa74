//! Tunable constants of the overlay and the ledger.
use vstd::prelude::*;

verus! {

/// Capacity of one k-bucket.
pub const K: usize = 20;

/// Parallel probes issued per lookup round.
pub const ALPHA: usize = 3;

/// Length in bytes of a node identifier.
pub const ID_LENGTH: usize = 20;

/// Length in bytes of a storage key.
pub const KEY_LENGTH: usize = 20;

/// Number of buckets in a routing table, one per bit of the identifier.
pub const N_BUCKETS: usize = 160;

/// Length in bytes of a public key.
pub const CRYPTO_KEY_LENGTH: usize = 32;

/// Leading zero bytes required of a JOIN proof-of-work digest.
pub const DIFFICULTY: usize = 2;

/// Leading zero hex digits required of a committed block hash.
pub const DIFFICULTY_HEX_ZEROS: usize = 4;

/// Most entries a transaction pool holds before evicting by fee.
pub const MAX_POOL_SIZE: usize = 10000;

/// Most pending transactions accepted from one sender.
pub const MAX_TXS_PER_SENDER: usize = 50;

/// Least fee per byte a pool entry may carry.
pub const MIN_FEE_RATE: u64 = 100;

/// Milliseconds a pool entry may wait before it expires.
pub const TX_EXPIRY_TIME_MS: u128 = 3_600_000;

/// Most transactions placed in one block.
pub const MAX_TRANSACTIONS_PER_BLOCK: usize = 10;

/// Milliseconds mining may run before it gives up.
pub const MAX_MINING_TIME_MS: u128 = 300_000;

/// Largest accepted gap between adjacent block timestamps, in milliseconds.
pub const MAX_BLOCK_TIME: u128 = 600_000;

/// Smallest accepted gap between adjacent block timestamps, in milliseconds.
pub const MIN_BLOCK_TIME: u128 = 1_000;

/// Deepest point below the tip at which a fork may attach.
pub const MAX_FORK_DEPTH: usize = 6;

/// Most peers asked for a chain snapshot in one reconciliation.
pub const MAX_NODES_TO_SYNC: usize = 3;

} // verus!
