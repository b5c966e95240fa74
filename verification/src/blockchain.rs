//! The chain engine: proof-of-work difficulty, balance bookkeeping, block
//! validation and commit, fork tracking and reorganisation, inclusion
//! proofs, and a header-only light client.
//!
//! The structural invariant `wf` carries, for every committed chain, the
//! adjacency laws (hash links, indices, timestamps, difficulty) and the
//! equation of the balance table with the fold of transaction effects over
//! the chain from the genesis allocation.
use vstd::prelude::*;

use crate::block::BHash;
use crate::block::Block;
use crate::block::BlockHeader;
use crate::block::BlockV;
use crate::block::spec_block_hash;
use crate::block::spec_block_merkle_root;
use crate::block::txs_view;
use crate::block::zero_hash32;
use crate::block::zero_hash_vec;
use crate::bytemap::BalanceMap;
use crate::bytemap::bytes_eq;
use crate::bytemap::clone_bytes;
use crate::constants::MAX_BLOCK_TIME;
use crate::constants::MAX_FORK_DEPTH;
use crate::constants::MAX_MINING_TIME_MS;
use crate::constants::MIN_BLOCK_TIME;
use crate::merkle::MerkleProof;
use crate::merkle::MerkleTree;
use crate::merkle::proof_view;
use crate::merkle::spec_merkle_fold;
use crate::now;
use crate::transaction::PublicKey;
use crate::transaction::Transaction;
use crate::transaction::TransactionType;
use crate::transaction::TxV;
use crate::transaction::spec_tx_valid_at;

verus! {

/// Error taxonomy of block validation and fork handling.
#[derive(Clone, Copy, PartialEq, Eq, Structural, Debug)]
pub enum BlockError {
    /// The previous-hash link does not match the parent.
    BadLink,
    /// The index is not the parent's plus one.
    BadIndex,
    /// The hash field differs from the recomputed hash.
    BadHash,
    /// The hash does not meet the difficulty target.
    BadPow,
    /// The gap to the parent timestamp is too small.
    TimeTooShort,
    /// The gap to the parent timestamp is too large.
    TimeTooLong,
    /// The timestamp lies too far beyond the local clock.
    TimeInFuture,
    /// The Merkle root differs from the root over the transactions.
    BadMerkle,
    /// Two contained transactions carry the same hash.
    DuplicateTx,
    /// A contained transaction fails its own validation.
    BadTransaction,
    /// A transfer exceeds its sender's balance, applied in order.
    InsufficientBalance,
    /// A fork would attach deeper than the permitted depth.
    ForkDepthExceeded,
    /// A candidate fork fails validation.
    InvalidFork,
    /// The block attaches to neither the tip, a committed block, nor a fork.
    NoFit,
}

/// Error taxonomy of mining.
#[derive(Clone, Copy, PartialEq, Eq, Structural, Debug)]
pub enum MiningError {
    /// The wall-clock ceiling passed before a nonce was found.
    TimedOut,
    /// The nonce space was exhausted.
    NonceOverflow,
}

/// Whether the first `d` hex digits of `h` are zero: the bytes below
/// position d/2 are zero and, for odd `d`, the next high nibble too.
pub open spec fn hash_meets_difficulty(h: Seq<u8>, d: int) -> bool {
    &&& d <= 2 * h.len()
    &&& (forall|j: int| 0 <= j < d / 2 ==> h[j] == 0)
    &&& (d % 2 == 1 ==> h[d / 2] < 16)
}

/// Whether the first `difficulty` hex digits of `hash` are zero.
pub fn check_difficulty(hash: &Vec<u8>, difficulty: usize) -> (r: bool)
    ensures
        r == hash_meets_difficulty(hash@, difficulty as int),
{
    if difficulty / 2 > hash.len() || (difficulty / 2 == hash.len() && difficulty % 2 == 1) {
        return false;
    }
    let full = difficulty / 2;
    let mut j: usize = 0;
    while j < full
        invariant
            full == difficulty / 2,
            full <= hash@.len(),
            j <= full,
            forall|k: int| 0 <= k < j ==> hash@[k] == 0,
        decreases full - j,
    {
        if hash[j] != 0 {
            proof {
                assert(hash@[j as int] != 0);
                assert(0 <= j < (difficulty as int) / 2);
            }
            return false;
        }
        j = j + 1;
    }
    if difficulty % 2 == 1 {
        if hash[full] >= 16 {
            return false;
        }
    }
    true
}

/// Leading zero bits of a single byte.
pub open spec fn spec_byte_lz(b: u8) -> nat {
    if b >= 128 {
        0
    } else if b >= 64 {
        1
    } else if b >= 32 {
        2
    } else if b >= 16 {
        3
    } else if b >= 8 {
        4
    } else if b >= 4 {
        5
    } else if b >= 2 {
        6
    } else if b >= 1 {
        7
    } else {
        8
    }
}

/// Leading zero bits of a hash.
pub open spec fn spec_leading_zero_bits(h: Seq<u8>) -> nat
    decreases h.len(),
{
    if h.len() == 0 {
        0
    } else if h[0] == 0 {
        8 + spec_leading_zero_bits(h.drop_first())
    } else {
        spec_byte_lz(h[0])
    }
}

/// 2^n for n below 128, saturated at u128::MAX above.
pub open spec fn spec_pow2_sat(n: nat) -> u128
    decreases n,
{
    if n == 0 {
        1
    } else if n >= 128 {
        u128::MAX
    } else {
        let half = spec_pow2_sat((n - 1) as nat);
        if half > u128::MAX / 2 {
            u128::MAX
        } else {
            (2 * half) as u128
        }
    }
}

/// The work one block hash counts for: two to its leading zero bits.
pub open spec fn spec_block_work(h: Seq<u8>) -> u128 {
    spec_pow2_sat(spec_leading_zero_bits(h))
}

/// Saturating sum of the work of a chain's block hashes.
pub open spec fn spec_cumulative_work(chain: Seq<BlockV>) -> u128
    decreases chain.len(),
{
    if chain.len() == 0 {
        0
    } else {
        let rest = spec_cumulative_work(chain.drop_first());
        let w = spec_block_work(chain[0].hash);
        if rest + w > u128::MAX {
            u128::MAX
        } else {
            (rest + w) as u128
        }
    }
}

/// Saturating subtraction of an unbounded cost from a u64 balance.
pub open spec fn sat_sub64(a: u64, b: int) -> u64 {
    if a >= b {
        (a - b) as u64
    } else {
        0
    }
}

/// Saturating addition of two u64 values.
pub open spec fn sat_add64(a: u64, b: u64) -> u64 {
    if a + b > u64::MAX {
        u64::MAX
    } else {
        (a + b) as u64
    }
}

/// The balance table after one transaction: a transfer deducts amount
/// plus fee from the sender and credits the receiver; a data record
/// deducts the fee alone.
pub open spec fn spec_apply_tx(bal: spec_fn(Seq<u8>) -> u64, t: TxV) -> spec_fn(Seq<u8>) -> u64 {
    match t.data.tx_type {
        TransactionType::Transfer => {
            match t.data.amount {
                Some(amount) => {
                    let after = |k: Seq<u8>|
                        if k == t.data.sender {
                            sat_sub64(bal(t.data.sender), amount + t.data.fee)
                        } else {
                            bal(k)
                        };
                    match t.data.receiver {
                        Some(receiver) => |k: Seq<u8>|
                            if k == receiver {
                                sat_add64(after(receiver), amount)
                            } else {
                                after(k)
                            },
                        None => after,
                    }
                },
                None => bal,
            }
        },
        TransactionType::Data => |k: Seq<u8>|
            if k == t.data.sender {
                sat_sub64(bal(t.data.sender), t.data.fee as int)
            } else {
                bal(k)
            },
    }
}

/// The balance table after a list of transactions, applied in order.
pub open spec fn spec_apply_txs(bal: spec_fn(Seq<u8>) -> u64, txs: Seq<TxV>) -> spec_fn(
    Seq<u8>,
) -> u64
    decreases txs.len(),
{
    if txs.len() == 0 {
        bal
    } else {
        spec_apply_txs(spec_apply_tx(bal, txs[0]), txs.drop_first())
    }
}

/// The balance table after one block; the genesis block carries only the
/// initial allocation and applies nothing.
pub open spec fn spec_apply_block(bal: spec_fn(Seq<u8>) -> u64, b: BlockV) -> spec_fn(
    Seq<u8>,
) -> u64 {
    if b.index == 0 {
        bal
    } else {
        spec_apply_txs(bal, b.transactions)
    }
}

/// The balance table reached by folding every block of a chain, in order,
/// over an initial allocation.
pub open spec fn spec_chain_balances(init: spec_fn(Seq<u8>) -> u64, chain: Seq<BlockV>) -> spec_fn(
    Seq<u8>,
) -> u64
    decreases chain.len(),
{
    if chain.len() == 0 {
        init
    } else {
        spec_chain_balances(spec_apply_block(init, chain[0]), chain.drop_first())
    }
}

pub proof fn lemma_apply_txs_push(bal: spec_fn(Seq<u8>) -> u64, txs: Seq<TxV>, t: TxV)
    ensures
        spec_apply_txs(bal, txs.push(t)) == spec_apply_tx(spec_apply_txs(bal, txs), t),
    decreases txs.len(),
{
    if txs.len() == 0 {
        assert(txs.push(t)[0] == t);
        assert(txs.push(t).drop_first() =~= Seq::<TxV>::empty());
        reveal_with_fuel(spec_apply_txs, 2);
    } else {
        assert(txs.push(t)[0] == txs[0]);
        assert(txs.push(t).drop_first() =~= txs.drop_first().push(t));
        lemma_apply_txs_push(spec_apply_tx(bal, txs[0]), txs.drop_first(), t);
    }
}

pub proof fn lemma_chain_balances_push(
    init: spec_fn(Seq<u8>) -> u64,
    chain: Seq<BlockV>,
    b: BlockV,
)
    ensures
        spec_chain_balances(init, chain.push(b)) == spec_apply_block(
            spec_chain_balances(init, chain),
            b,
        ),
    decreases chain.len(),
{
    if chain.len() == 0 {
        assert(chain.push(b)[0] == b);
        assert(chain.push(b).drop_first() =~= Seq::<BlockV>::empty());
        reveal_with_fuel(spec_chain_balances, 2);
    } else {
        assert(chain.push(b)[0] == chain[0]);
        assert(chain.push(b).drop_first() =~= chain.drop_first().push(b));
        lemma_chain_balances_push(spec_apply_block(init, chain[0]), chain.drop_first(), b);
    }
}

/// The blocks of a chain as their mathematical shapes.
pub open spec fn blocks_view(s: Seq<Block>) -> Seq<BlockV> {
    Seq::new(s.len(), |i: int| s[i]@)
}

/// Structural validity of a committed chain: a genesis of index 0, then
/// strictly increasing indices, hash links, recomputed hashes and Merkle
/// roots, difficulty met, and timestamp gaps within bounds.
pub open spec fn spec_committed_chain_ok(chain: Seq<BlockV>, difficulty: int) -> bool {
    &&& chain.len() >= 1
    &&& chain.len() <= 0x1_0000_0000
    &&& (forall|i: int| 0 <= i < chain.len() ==> (#[trigger] chain[i]).index == i)
    &&& (forall|i: int|
        0 <= i < chain.len() ==> (#[trigger] chain[i]).hash == spec_block_hash(chain[i]))
    &&& (forall|i: int|
        0 <= i < chain.len() ==> (#[trigger] chain[i]).merkle_root == spec_block_merkle_root(
            chain[i].transactions,
        ))
    &&& (forall|i: int|
        1 <= i < chain.len() ==> (#[trigger] chain[i]).prev_hash == chain[i - 1].hash)
    &&& (forall|i: int|
        1 <= i < chain.len() ==> hash_meets_difficulty((#[trigger] chain[i]).hash, difficulty))
    &&& (forall|i: int|
        1 <= i < chain.len() ==> MIN_BLOCK_TIME <= (#[trigger] chain[i]).timestamp - chain[i
            - 1].timestamp <= MAX_BLOCK_TIME)
}

/// The structural checks `is_chain_valid` makes on any chain, committed
/// or candidate: recomputed hashes, Merkle roots, links, and difficulty
/// on every block after the first.
pub open spec fn spec_chain_valid(chain: Seq<BlockV>, difficulty: int) -> bool {
    &&& (forall|i: int|
        0 <= i < chain.len() ==> (#[trigger] chain[i]).hash == spec_block_hash(chain[i]))
    &&& (forall|i: int|
        0 <= i < chain.len() ==> (#[trigger] chain[i]).merkle_root == spec_block_merkle_root(
            chain[i].transactions,
        ))
    &&& (forall|i: int|
        1 <= i < chain.len() ==> (#[trigger] chain[i]).prev_hash == chain[i - 1].hash)
    &&& (forall|i: int|
        1 <= i < chain.len() ==> hash_meets_difficulty((#[trigger] chain[i]).hash, difficulty))
}


/// Apply one transaction's balance effects.
pub fn apply_transaction_balances(balances: &mut BalanceMap, tx: &Transaction)
    requires
        old(balances).wf(),
    ensures
        final(balances).wf(),
        forall|k: Seq<u8>|
            final(balances).spec_get(k) == spec_apply_tx(
                |q: Seq<u8>| old(balances).spec_get(q),
                tx@,
            )(k),
{
    let ghost bal0 = |q: Seq<u8>| old(balances).spec_get(q);
    match tx.data.tx_type {
        TransactionType::Transfer => {
            match tx.data.amount {
                Some(amount) => {
                    let sb = balances.get(&tx.data.sender);
                    let cost = amount as u128 + tx.data.fee as u128;
                    let nsb: u64 = if (sb as u128) >= cost {
                        (sb as u128 - cost) as u64
                    } else {
                        0
                    };
                    balances.set(&tx.data.sender, nsb);
                    match &tx.data.receiver {
                        Some(receiver) => {
                            let rb = balances.get(receiver);
                            let nrb: u64 = if rb > u64::MAX - amount {
                                u64::MAX
                            } else {
                                rb + amount
                            };
                            balances.set(receiver, nrb);
                        },
                        None => {},
                    }
                },
                None => {},
            }
        },
        TransactionType::Data => {
            let sb = balances.get(&tx.data.sender);
            let nsb: u64 = if sb >= tx.data.fee {
                sb - tx.data.fee
            } else {
                0
            };
            balances.set(&tx.data.sender, nsb);
        },
    }
}

/// Apply a block's balance effects: nothing for the genesis index, each
/// transaction in order otherwise.
pub fn apply_block_balances(balances: &mut BalanceMap, block: &Block)
    requires
        old(balances).wf(),
    ensures
        final(balances).wf(),
        forall|k: Seq<u8>|
            final(balances).spec_get(k) == spec_apply_block(
                |q: Seq<u8>| old(balances).spec_get(q),
                block@,
            )(k),
{
    let ghost bal0 = |q: Seq<u8>| old(balances).spec_get(q);
    if block.index == 0 {
        return ;
    }
    let n = block.transactions.len();
    let ghost txsv = block@.transactions;
    let mut i: usize = 0;
    proof {
        assert(txsv.subrange(0, 0) =~= Seq::<TxV>::empty());
        assert((|q: Seq<u8>| balances.spec_get(q)) =~= spec_apply_txs(
            bal0,
            txsv.subrange(0, 0),
        ));
    }
    while i < n
        invariant
            n == block.transactions@.len(),
            txsv == block@.transactions,
            i <= n,
            balances.wf(),
            forall|k: Seq<u8>|
                balances.spec_get(k) == spec_apply_txs(bal0, txsv.subrange(0, i as int))(k),
        decreases n - i,
    {
        let ghost pre = |q: Seq<u8>| balances.spec_get(q);
        apply_transaction_balances(balances, &block.transactions[i]);
        proof {
            assert(pre =~= spec_apply_txs(bal0, txsv.subrange(0, i as int)));
            lemma_apply_txs_push(bal0, txsv.subrange(0, i as int), txsv[i as int]);
            assert(txsv.subrange(0, i + 1) =~= txsv.subrange(0, i as int).push(txsv[i as int]));
            assert(forall|k: Seq<u8>|
                balances.spec_get(k) == spec_apply_txs(bal0, txsv.subrange(0, i + 1))(k));
        }
        i = i + 1;
    }
    proof {
        assert(txsv.subrange(0, n as int) =~= txsv);
    }
}

/// Leading zero bits of the first `i` bytes known zero.
proof fn lemma_lzb_skip(h: Seq<u8>, i: int)
    requires
        0 <= i <= h.len(),
        forall|j: int| 0 <= j < i ==> h[j] == 0,
    ensures
        spec_leading_zero_bits(h) == 8 * i + spec_leading_zero_bits(h.skip(i)),
    decreases i,
{
    if i > 0 {
        assert(h[0] == 0);
        assert(forall|j: int| 0 <= j < i - 1 ==> h.drop_first()[j] == 0);
        lemma_lzb_skip(h.drop_first(), i - 1);
        assert(h.drop_first().skip(i - 1) =~= h.skip(i));
    } else {
        assert(h.skip(0) =~= h);
    }
}

/// The work a single block hash counts for.
pub fn block_work(h: &Vec<u8>) -> (r: u128)
    ensures
        r == spec_block_work(h@),
{
    let n = h.len();
    let mut i: usize = 0;
    while i < n
        invariant
            n == h@.len(),
            i <= n,
            forall|j: int| 0 <= j < i ==> h@[j] == 0,
            8 * i < 128,
        ensures
            n == h@.len(),
            i <= n,
            forall|j: int| 0 <= j < i ==> h@[j] == 0,
            8 * i < 128,
            i < n ==> h@[i as int] != 0,
        decreases n - i,
    {
        if h[i] != 0 {
            break ;
        }
        if 8 * (i + 1) >= 128 {
            // at least 128 leading zero bits: the work saturates
            proof {
                lemma_lzb_skip(h@, i + 1);
                lemma_pow2_sat_big(spec_leading_zero_bits(h@));
            }
            return u128::MAX;
        }
        i = i + 1;
    }
    proof {
        lemma_lzb_skip(h@, i as int);
    }
    let bits: usize = if i < n {
        let b = h[i];
        proof {
            assert(h@.skip(i as int)[0] == h@[i as int]);
        }
        let lz: usize = if b >= 128 {
            0
        } else if b >= 64 {
            1
        } else if b >= 32 {
            2
        } else if b >= 16 {
            3
        } else if b >= 8 {
            4
        } else if b >= 4 {
            5
        } else if b >= 2 {
            6
        } else {
            7
        };
        8 * i + lz
    } else {
        proof {
            assert(h@.skip(i as int) =~= Seq::<u8>::empty());
        }
        8 * i
    };
    proof {
        assert(bits == spec_leading_zero_bits(h@));
    }
    pow2_sat(bits)
}

proof fn lemma_pow2_sat_big(n: nat)
    requires
        n >= 128,
    ensures
        spec_pow2_sat(n) == u128::MAX,
{
}

/// 2^n, saturated at the largest u128.
pub fn pow2_sat(n: usize) -> (r: u128)
    ensures
        r == spec_pow2_sat(n as nat),
{
    if n >= 128 {
        return u128::MAX;
    }
    let mut acc: u128 = 1;
    let mut j: usize = 0;
    while j < n
        invariant
            n < 128,
            j <= n,
            acc == spec_pow2_sat(j as nat),
        decreases n - j,
    {
        acc = if acc > u128::MAX / 2 {
            u128::MAX
        } else {
            2 * acc
        };
        j = j + 1;
    }
    acc
}


/// Per-transaction fundability during validation: a transfer needs its
/// sender's running balance to cover amount plus fee.
pub open spec fn spec_tx_fundable(t: TxV, sender_balance: u64) -> bool {
    match t.data.tx_type {
        TransactionType::Transfer => match t.data.amount {
            Some(amount) => sender_balance >= amount + t.data.fee,
            None => true,
        },
        TransactionType::Data => true,
    }
}

/// The first error among a block's transactions, checked in order with
/// balances applied as they go: duplicate hashes, per-transaction
/// validity at `now_ms`, and transfer funding.
pub open spec fn spec_check_txs(
    txs: Seq<TxV>,
    i: nat,
    bal: spec_fn(Seq<u8>) -> u64,
    now_ms: u128,
) -> Option<BlockError>
    decreases txs.len() - i,
{
    if i >= txs.len() {
        None
    } else {
        let t = txs[i as int];
        if exists|j: int| 0 <= j < i && txs[j].tx_hash == t.tx_hash {
            Some(BlockError::DuplicateTx)
        } else if !spec_tx_valid_at(t, now_ms) {
            Some(BlockError::BadTransaction)
        } else if !spec_tx_fundable(t, bal(t.data.sender)) {
            Some(BlockError::InsufficientBalance)
        } else {
            spec_check_txs(txs, i + 1, spec_apply_tx(bal, t), now_ms)
        }
    }
}


/// The transaction verdict of a whole block: the genesis index applies
/// nothing; otherwise its transactions checked in order.
pub open spec fn spec_check_block_txs(
    b: BlockV,
    bal: spec_fn(Seq<u8>) -> u64,
    now_ms: u128,
) -> Option<BlockError> {
    if b.index == 0 {
        None
    } else {
        spec_check_txs(b.transactions, 0, bal, now_ms)
    }
}

/// The first validation error of `b` as the next block after `prev`, or
/// None where `b` is acceptable: link, index, timestamp gap, clock bound,
/// recomputed hash, Merkle root, difficulty, then the transactions.
#[verifier::opaque]
pub open spec fn spec_validate_next(
    prev: BlockV,
    bal: spec_fn(Seq<u8>) -> u64,
    b: BlockV,
    now_ms: u128,
    difficulty: int,
) -> Option<BlockError> {
    if b.prev_hash != prev.hash {
        Some(BlockError::BadLink)
    } else if b.index != prev.index + 1 {
        Some(BlockError::BadIndex)
    } else if b.timestamp < prev.timestamp + MIN_BLOCK_TIME {
        Some(BlockError::TimeTooShort)
    } else if b.timestamp > prev.timestamp + MAX_BLOCK_TIME {
        Some(BlockError::TimeTooLong)
    } else if b.timestamp > now_ms + 7_200_000 {
        Some(BlockError::TimeInFuture)
    } else if b.hash != spec_block_hash(b) {
        Some(BlockError::BadHash)
    } else if b.merkle_root != spec_block_merkle_root(b.transactions) {
        Some(BlockError::BadMerkle)
    } else if !hash_meets_difficulty(b.hash, difficulty) {
        Some(BlockError::BadPow)
    } else {
        spec_check_block_txs(b, bal, now_ms)
    }
}


/// The highest nonce of `sender` among `txs`, at least `acc`.
pub open spec fn spec_max_nonce_txs(txs: Seq<TxV>, sender: Seq<u8>, acc: u64) -> u64
    decreases txs.len(),
{
    if txs.len() == 0 {
        acc
    } else {
        let rest = spec_max_nonce_txs(txs.drop_last(), sender, acc);
        let t = txs.last();
        if t.data.sender == sender && t.data.nonce > rest {
            t.data.nonce
        } else {
            rest
        }
    }
}

/// The highest nonce `sender` has committed anywhere on `chain`.
pub open spec fn spec_confirmed_nonce(chain: Seq<BlockV>, sender: Seq<u8>) -> u64
    decreases chain.len(),
{
    if chain.len() == 0 {
        0
    } else {
        spec_max_nonce_txs(
            chain.last().transactions,
            sender,
            spec_confirmed_nonce(chain.drop_last(), sender),
        )
    }
}

proof fn lemma_max_nonce_push(txs: Seq<TxV>, t: TxV, sender: Seq<u8>, acc: u64)
    ensures
        spec_max_nonce_txs(txs.push(t), sender, acc) == ({
            let rest = spec_max_nonce_txs(txs, sender, acc);
            if t.data.sender == sender && t.data.nonce > rest {
                t.data.nonce
            } else {
                rest
            }
        }),
{
    assert(txs.push(t).drop_last() =~= txs);
    assert(txs.push(t).last() == t);
}

proof fn lemma_confirmed_nonce_push(chain: Seq<BlockV>, b: BlockV, sender: Seq<u8>)
    ensures
        spec_confirmed_nonce(chain.push(b), sender) == spec_max_nonce_txs(
            b.transactions,
            sender,
            spec_confirmed_nonce(chain, sender),
        ),
{
    assert(chain.push(b).drop_last() =~= chain);
    assert(chain.push(b).last() == b);
}


/// Appending a validated next block preserves committed-chain validity.
pub proof fn lemma_committed_push(c: Seq<BlockV>, b: BlockV, d: int)
    requires
        spec_committed_chain_ok(c, d),
        c.len() <= u32::MAX,
        b.prev_hash == c.last().hash,
        b.index == c.last().index + 1,
        b.hash == spec_block_hash(b),
        b.merkle_root == spec_block_merkle_root(b.transactions),
        hash_meets_difficulty(b.hash, d),
        MIN_BLOCK_TIME <= b.timestamp - c.last().timestamp,
        b.timestamp - c.last().timestamp <= MAX_BLOCK_TIME,
    ensures
        spec_committed_chain_ok(c.push(b), d),
{
    let cp = c.push(b);
    assert(cp.last() == b);
    assert(cp[c.len() as int] == b);
    assert forall|i: int| 0 <= i < cp.len() implies (#[trigger] cp[i]).index == i by {
        if i < c.len() {
            assert(cp[i] == c[i]);
        }
    }
    assert forall|i: int|
        0 <= i < cp.len() implies (#[trigger] cp[i]).hash == spec_block_hash(cp[i]) by {
        if i < c.len() {
            assert(cp[i] == c[i]);
        }
    }
    assert forall|i: int|
        0 <= i < cp.len() implies (#[trigger] cp[i]).merkle_root == spec_block_merkle_root(
            cp[i].transactions,
        ) by {
        if i < c.len() {
            assert(cp[i] == c[i]);
        }
    }
    assert forall|i: int| 1 <= i < cp.len() implies (#[trigger] cp[i]).prev_hash == cp[i - 1].hash by {
        if i < c.len() {
            assert(cp[i] == c[i]);
            assert(cp[i - 1] == c[i - 1]);
        } else {
            assert(cp[i - 1] == c[i - 1]);
        }
    }
    assert forall|i: int|
        1 <= i < cp.len() implies hash_meets_difficulty((#[trigger] cp[i]).hash, d) by {
        if i < c.len() {
            assert(cp[i] == c[i]);
        }
    }
    assert forall|i: int|
        1 <= i < cp.len() implies MIN_BLOCK_TIME <= (#[trigger] cp[i]).timestamp - cp[i
        - 1].timestamp <= MAX_BLOCK_TIME by {
        if i < c.len() {
            assert(cp[i] == c[i]);
            assert(cp[i - 1] == c[i - 1]);
        } else {
            assert(cp[i - 1] == c[i - 1]);
        }
    }
}


/// Whether an earlier transaction in the list carries the same hash as
/// the one at position `i`.
fn tx_dup_before(txs: &Vec<Transaction>, i: usize) -> (r: bool)
    requires
        i < txs@.len(),
    ensures
        r == exists|j: int|
            0 <= j < i && txs_view(txs@)[j].tx_hash == txs_view(txs@)[i as int].tx_hash,
{
    let mut j: usize = 0;
    while j < i
        invariant
            i < txs@.len(),
            j <= i,
            forall|l: int| 0 <= l < j ==> txs_view(txs@)[l].tx_hash != txs_view(txs@)[i as int].tx_hash,
        decreases i - j,
    {
        if bytes_eq(&txs[j].tx_hash, &txs[i].tx_hash) {
            proof {
                assert(txs_view(txs@)[j as int].tx_hash == txs_view(txs@)[i as int].tx_hash);
            }
            return true;
        }
        j = j + 1;
    }
    false
}


/// A block that passes whole validation also passes its transaction check.
proof fn lemma_verdict_none_txs(
    prev: BlockV,
    bal: spec_fn(Seq<u8>) -> u64,
    b: BlockV,
    now_ms: u128,
    difficulty: int,
)
    requires
        spec_validate_next(prev, bal, b, now_ms, difficulty) is None,
    ensures
        spec_check_block_txs(b, bal, now_ms) is None,
        b.prev_hash == prev.hash,
        b.index == prev.index + 1,
        b.hash == spec_block_hash(b),
        b.merkle_root == spec_block_merkle_root(b.transactions),
        hash_meets_difficulty(b.hash, difficulty),
        MIN_BLOCK_TIME <= b.timestamp - prev.timestamp,
        b.timestamp - prev.timestamp <= MAX_BLOCK_TIME,
{
    reveal(spec_validate_next);
}


/// The balance table `m` equals `f` advanced by block `b`.
#[verifier::opaque]
pub open spec fn balances_after_block(m: BalanceMap, f: spec_fn(Seq<u8>) -> u64, b: BlockV) -> bool {
    forall|k: Seq<u8>| m.spec_get(k) == spec_apply_block(f, b)(k)
}


/// The committed-chain laws at position `i` of a chain.
pub open spec fn committed_at(cv: Seq<BlockV>, i: int, d: int) -> bool {
    &&& cv[i].index == i
    &&& cv[i].hash == spec_block_hash(cv[i])
    &&& cv[i].merkle_root == spec_block_merkle_root(cv[i].transactions)
    &&& (i >= 1 ==> cv[i].prev_hash == cv[i - 1].hash && hash_meets_difficulty(cv[i].hash, d)
        && MIN_BLOCK_TIME <= cv[i].timestamp - cv[i - 1].timestamp <= MAX_BLOCK_TIME)
}

/// The committed-chain laws hold of a chain exactly when they hold at
/// every position and the length is in bounds.
pub proof fn lemma_committed_ok_iff(cv: Seq<BlockV>, d: int)
    ensures
        spec_committed_chain_ok(cv, d) == (cv.len() >= 1 && cv.len() <= 0x1_0000_0000 && forall|
            i: int,
        | 0 <= i < cv.len() ==> committed_at(cv, i, d)),
{
    if cv.len() >= 1 && cv.len() <= 0x1_0000_0000 {
        if forall|i: int| 0 <= i < cv.len() ==> committed_at(cv, i, d) {
            assert forall|i: int| 0 <= i < cv.len() implies (#[trigger] cv[i]).index == i by {
                assert(committed_at(cv, i, d));
            }
            assert forall|i: int|
                0 <= i < cv.len() implies (#[trigger] cv[i]).hash == spec_block_hash(cv[i]) by {
                assert(committed_at(cv, i, d));
            }
            assert forall|i: int|
                0 <= i < cv.len() implies (#[trigger] cv[i]).merkle_root == spec_block_merkle_root(
                    cv[i].transactions,
                ) by {
                assert(committed_at(cv, i, d));
            }
            assert forall|i: int|
                1 <= i < cv.len() implies (#[trigger] cv[i]).prev_hash == cv[i - 1].hash by {
                assert(committed_at(cv, i, d));
            }
            assert forall|i: int|
                1 <= i < cv.len() implies hash_meets_difficulty((#[trigger] cv[i]).hash, d) by {
                assert(committed_at(cv, i, d));
            }
            assert forall|i: int|
                1 <= i < cv.len() implies MIN_BLOCK_TIME <= (#[trigger] cv[i]).timestamp - cv[i
                - 1].timestamp <= MAX_BLOCK_TIME by {
                assert(committed_at(cv, i, d));
            }
            assert(spec_committed_chain_ok(cv, d));
        } else {
            let w = choose|i: int| 0 <= i < cv.len() && !committed_at(cv, i, d);
            assert(!committed_at(cv, w, d));
            if spec_committed_chain_ok(cv, d) {
                assert(cv[w].index == w);
                assert(cv[w].hash == spec_block_hash(cv[w]));
                assert(cv[w].merkle_root == spec_block_merkle_root(cv[w].transactions));
                if w >= 1 {
                    assert(cv[w].prev_hash == cv[w - 1].hash);
                    assert(hash_meets_difficulty(cv[w].hash, d));
                    assert(MIN_BLOCK_TIME <= cv[w].timestamp - cv[w - 1].timestamp
                        <= MAX_BLOCK_TIME);
                }
                assert(committed_at(cv, w, d));
            }
        }
    }
}


/// The amount an allocation list grants a key; the last binding wins.
pub open spec fn spec_alloc_value(allocs: Seq<(Vec<u8>, u64)>, k: Seq<u8>) -> u64
    decreases allocs.len(),
{
    if allocs.len() == 0 {
        0
    } else if allocs.last().0@ == k {
        allocs.last().1
    } else {
        spec_alloc_value(allocs.drop_last(), k)
    }
}

/// Whether a registered fork is eligible for adoption: structurally
/// valid, within the permitted depth of the main chain, and strictly
/// heavier in cumulative work.
pub open spec fn fork_qualifies(main: Seq<BlockV>, f: Fork, d: int) -> bool {
    &&& spec_committed_chain_ok(blocks_view(f.chain@), d)
    &&& blocks_view(f.chain@).len() <= main.len() + MAX_FORK_DEPTH
    &&& spec_cumulative_work(blocks_view(f.chain@)) > spec_cumulative_work(main)
}

/// `i` is the first committed position whose hash is `h`.
pub open spec fn spec_parent_at(chain: Seq<BlockV>, h: Seq<u8>, i: int) -> bool {
    &&& 0 <= i < chain.len()
    &&& chain[i].hash == h
    &&& forall|j: int| 0 <= j < i ==> (#[trigger] chain[j]).hash != h
}

/// `f` is the first registered fork whose tip hash is `h`.
pub open spec fn spec_fork_tip_at(forks: Seq<Fork>, h: Seq<u8>, f: int) -> bool {
    &&& 0 <= f < forks.len()
    &&& forks[f].chain@.len() >= 1
    &&& blocks_view(forks[f].chain@).last().hash == h
    &&& forall|j: int|
        0 <= j < f ==> (#[trigger] forks[j]).chain@.len() >= 1 ==> blocks_view(
            forks[j].chain@,
        ).last().hash != h
}


/// The new chain is a qualifying fork drawn from the old fork table.
pub open spec fn adoption_ok(
    oldf: Seq<Fork>,
    old_chain: Seq<BlockV>,
    d: int,
    new_chain: Seq<BlockV>,
) -> bool {
    exists|i: int|
        0 <= i < oldf.len() && fork_qualifies(old_chain, #[trigger] oldf[i], d) && new_chain
            == blocks_view(oldf[i].chain@)
}

/// A kept fork is one of the old forks, structurally valid and in depth.
pub open spec fn kept_fork_ok(oldf: Seq<Fork>, old_chain: Seq<BlockV>, d: int, f: Fork) -> bool {
    exists|j: int|
        0 <= j < oldf.len() && blocks_view(f.chain@) == blocks_view((#[trigger] oldf[j]).chain@)
            && spec_chain_valid(blocks_view(oldf[j].chain@), d) && blocks_view(
            oldf[j].chain@,
        ).len() <= old_chain.len() + MAX_FORK_DEPTH
}

/// A registered fork: the hash of its base block and the candidate chain
/// (shared prefix up to the base, then the divergent extension).
pub struct Fork {
    pub base: BHash,
    pub chain: Vec<Block>,
}

/// The chain engine's state.
pub struct Blockchain {
    pub blocks: Vec<Block>,
    pub difficulty: usize,
    pub forks: Vec<Fork>,
    pub balances: BalanceMap,
    pub initial_balances: BalanceMap,
}

impl Blockchain {
    /// The initial allocation as a balance table.
    pub open spec fn spec_init_fn(&self) -> spec_fn(Seq<u8>) -> u64 {
        |k: Seq<u8>| self.initial_balances.spec_get(k)
    }

    /// The committed balance table as a total function.
    pub open spec fn balances_fn(&self) -> spec_fn(Seq<u8>) -> u64 {
        |k: Seq<u8>| self.balances.spec_get(k)
    }

    /// The committed chain's shapes.
    pub open spec fn chain(&self) -> Seq<BlockV> {
        blocks_view(self.blocks@)
    }

    /// Structural invariant: a valid committed chain and well-formed
    /// balance tables; every registered fork is non-empty.
    pub open spec fn wf(&self) -> bool {
        &&& spec_committed_chain_ok(self.chain(), self.difficulty as int)
        &&& self.balances.wf()
        &&& self.initial_balances.wf()
        &&& (forall|i: int| 0 <= i < self.forks@.len() ==> (#[trigger] self.forks@[i]).chain@.len()
            >= 1)
    }

    /// A chain with only a genesis block, the default difficulty, no
    /// balances, and no forks.
    pub fn new() -> (r: Self)
        ensures
            r.wf(),
            r.chain().len() == 1,
            r.difficulty == crate::constants::DIFFICULTY_HEX_ZEROS,
            forall|k: Seq<u8>| r.balances.spec_get(k) == 0,
            r.forks@.len() == 0,
            r.chain()[0].index == 0,
            r.chain()[0].prev_hash == zero_hash32(),
            r.chain()[0].merkle_root == zero_hash32(),
            r.chain()[0].transactions.len() == 0,
            r.chain()[0].nonce == 0,
            r.chain()[0].hash == spec_block_hash(r.chain()[0]),
    {
        Self::new_with_allocations(Vec::new(), crate::constants::DIFFICULTY_HEX_ZEROS)
    }

    /// A chain with only a genesis block, the given difficulty, and an
    /// initial allocation that the genesis block is treated as granting:
    /// both balance tables bind each allocated key to its amount (the
    /// last binding winning), zero elsewhere.
    pub fn new_with_allocations(allocations: Vec<(PublicKey, u64)>, difficulty: usize) -> (r: Self)
        ensures
            r.wf(),
            r.chain().len() == 1,
            r.difficulty == difficulty,
            r.forks@.len() == 0,
            forall|k: Seq<u8>| r.balances.spec_get(k) == spec_alloc_value(allocations@, k),
            forall|k: Seq<u8>| r.initial_balances.spec_get(k) == spec_alloc_value(allocations@, k),
            r.chain()[0].index == 0,
            r.chain()[0].prev_hash == zero_hash32(),
            r.chain()[0].merkle_root == zero_hash32(),
            r.chain()[0].transactions.len() == 0,
            r.chain()[0].nonce == 0,
            r.chain()[0].hash == spec_block_hash(r.chain()[0]),
    {
        let mut initial = BalanceMap::new();
        let mut i: usize = 0;
        proof {
            assert(allocations@.subrange(0, 0) =~= Seq::<(Vec<u8>, u64)>::empty());
        }
        while i < allocations.len()
            invariant
                i <= allocations@.len(),
                initial.wf(),
                forall|k: Seq<u8>|
                    initial.spec_get(k) == spec_alloc_value(
                        allocations@.subrange(0, i as int),
                        k,
                    ),
            decreases allocations@.len() - i,
        {
            proof {
                let s1 = allocations@.subrange(0, i + 1);
                assert(s1.drop_last() =~= allocations@.subrange(0, i as int));
                assert(s1.last() == allocations@[i as int]);
            }
            initial.set(&allocations[i].0, allocations[i].1);
            i = i + 1;
        }
        proof {
            assert(allocations@.subrange(0, allocations@.len() as int) =~= allocations@);
        }
        let balances = initial.duplicate();
        let mut genesis = Block::genesis();
        let h = genesis.compute_hash();
        genesis.hash = h;
        let mut blocks: Vec<Block> = Vec::new();
        blocks.push(genesis);
        let r = Blockchain {
            blocks,
            difficulty,
            forks: Vec::new(),
            balances,
            initial_balances: initial,
        };
        proof {
            assert(r.chain().len() == 1);
            assert(r.chain()[0].index == 0);
            assert(r.chain()[0].hash == spec_block_hash(r.chain()[0]));
        }
        r
    }

    /// The tip of the committed chain.
    pub fn get_last_block(&self) -> (r: Option<&Block>)
        ensures
            r is Some <==> self.blocks@.len() > 0,
            r matches Some(b) ==> b@ == self.chain().last(),
    {
        if self.blocks.len() == 0 {
            return None;
        }
        Some(&self.blocks[self.blocks.len() - 1])
    }

    /// The balance of an address, zero when unknown.
    pub fn get_balance(&self, address: &PublicKey) -> (r: u64)
        requires
            self.wf(),
        ensures
            r == self.balances.spec_get(address@),
    {
        self.balances.get(address)
    }

    /// The number of committed blocks, genesis included.
    pub fn get_block_height(&self) -> (r: usize)
        ensures
            r == self.chain().len(),
    {
        self.blocks.len()
    }

    /// Copies of the committed blocks from `start_index` on.
    pub fn get_blocks_from(&self, start_index: usize) -> (r: Vec<Block>)
        ensures
            blocks_view(r@) == self.chain().skip(
                if start_index <= self.chain().len() {
                    start_index as int
                } else {
                    self.chain().len() as int
                },
            ),
    {
        let mut out: Vec<Block> = Vec::new();
        if start_index >= self.blocks.len() {
            proof {
                assert(blocks_view(out@) =~= self.chain().skip(self.chain().len() as int));
            }
            return out;
        }
        let n = self.blocks.len();
        let mut i: usize = start_index;
        while i < n
            invariant
                n == self.blocks@.len(),
                start_index <= i <= n,
                out@.len() == i - start_index,
                forall|j: int|
                    0 <= j < out@.len() ==> out@[j]@ == self.chain()[start_index + j],
            decreases n - i,
        {
            out.push(self.blocks[i].duplicate());
            i = i + 1;
        }
        proof {
            assert(blocks_view(out@) =~= self.chain().skip(start_index as int));
        }
        out
    }

    /// One above the highest nonce `sender` has committed on the chain.
    pub fn get_next_nonce(&self, sender: &PublicKey) -> (r: u64)
        ensures
            r == sat_add64(spec_confirmed_nonce(self.chain(), sender@), 1),
    {
        let mut confirmed: u64 = 0;
        let n = self.blocks.len();
        let mut i: usize = 0;
        while i < n
            invariant
                n == self.blocks@.len(),
                i <= n,
                confirmed == spec_confirmed_nonce(self.chain().subrange(0, i as int), sender@),
            decreases n - i,
        {
            let b = &self.blocks[i];
            let m = b.transactions.len();
            let mut j: usize = 0;
            while j < m
                invariant
                    m == b.transactions@.len(),
                    j <= m,
                    confirmed == spec_max_nonce_txs(
                        txs_view(b.transactions@).subrange(0, j as int),
                        sender@,
                        spec_confirmed_nonce(self.chain().subrange(0, i as int), sender@),
                    ),
                decreases m - j,
            {
                let tx = &b.transactions[j];
                proof {
                    assert(txs_view(b.transactions@).subrange(0, j + 1) =~= txs_view(
                        b.transactions@,
                    ).subrange(0, j as int).push(txs_view(b.transactions@)[j as int]));
                    lemma_max_nonce_push(
                        txs_view(b.transactions@).subrange(0, j as int),
                        txs_view(b.transactions@)[j as int],
                        sender@,
                        spec_confirmed_nonce(self.chain().subrange(0, i as int), sender@),
                    );
                }
                if bytes_eq(&tx.data.sender, sender) && tx.data.nonce > confirmed {
                    confirmed = tx.data.nonce;
                }
                j = j + 1;
            }
            proof {
                assert(txs_view(b.transactions@).subrange(0, m as int) =~= txs_view(
                    b.transactions@,
                ));
                assert(self.chain().subrange(0, i + 1) =~= self.chain().subrange(
                    0,
                    i as int,
                ).push(self.chain()[i as int]));
                lemma_confirmed_nonce_push(
                    self.chain().subrange(0, i as int),
                    self.chain()[i as int],
                    sender@,
                );
            }
            i = i + 1;
        }
        proof {
            assert(self.chain().subrange(0, n as int) =~= self.chain());
        }
        if confirmed == u64::MAX {
            confirmed
        } else {
            confirmed + 1
        }
    }

    /// Whether the block's recorded Merkle root equals the root recomputed
    /// over its transactions (the zero sentinel for an empty list).
    pub fn verify_block_merkle_root(&self, block: &Block) -> (r: bool)
        ensures
            r == (block@.merkle_root == spec_block_merkle_root(block@.transactions)),
    {
        let merkle_tree = MerkleTree::new(&block.transactions);
        proof {
            assert(crate::merkle::hashes_view(merkle_tree.leaves@) =~= crate::block::tx_hashes_of(
                block@.transactions,
            ));
        }
        match merkle_tree.get_root_hash() {
            Some(calculated_root) => bytes_eq(&calculated_root, &block.merkle_root),
            None => {
                let z = zero_hash_vec();
                bytes_eq(&block.merkle_root, &z)
            },
        }
    }

    /// The structural checks on a chain, committed or candidate:
    /// recomputed hashes, Merkle roots, links, and difficulty on every
    /// block after the first. None means the committed chain.
    #[verifier::rlimit(80)]
    pub fn is_chain_valid(&self, chain: Option<&Vec<Block>>) -> (r: bool)
        ensures
            r == spec_chain_valid(
                blocks_view(
                    match chain {
                        Some(c) => c@,
                        None => self.blocks@,
                    },
                ),
                self.difficulty as int,
            ),
    {
        let target: &Vec<Block> = match chain {
            Some(c) => c,
            None => &self.blocks,
        };
        let ghost cv = blocks_view(target@);
        let n = target.len();
        let mut i: usize = 0;
        while i < n
            invariant
                n == target@.len(),
                cv == blocks_view(target@),
                cv == blocks_view(
                    match chain {
                        Some(c) => c@,
                        None => self.blocks@,
                    },
                ),
                i <= n,
                forall|j: int|
                    0 <= j < i ==> (#[trigger] cv[j]).hash == spec_block_hash(cv[j]),
                forall|j: int|
                    0 <= j < i ==> (#[trigger] cv[j]).merkle_root == spec_block_merkle_root(
                        cv[j].transactions,
                    ),
                forall|j: int| 1 <= j < i ==> (#[trigger] cv[j]).prev_hash == cv[j - 1].hash,
                forall|j: int|
                    1 <= j < i ==> hash_meets_difficulty(
                        (#[trigger] cv[j]).hash,
                        self.difficulty as int,
                    ),
            decreases n - i,
        {
            let current = &target[i];
            proof {
                assert(current@ == cv[i as int]);
            }
            let h = current.compute_hash();
            if !bytes_eq(&current.hash, &h) {
                proof {
                    assert(cv[i as int].hash != spec_block_hash(cv[i as int]));
                }
                return false;
            }
            if !self.verify_block_merkle_root(current) {
                proof {
                    assert(cv[i as int].merkle_root != spec_block_merkle_root(
                        cv[i as int].transactions,
                    ));
                }
                return false;
            }
            if i > 0 {
                proof {
                    assert(target@[i - 1]@ == cv[i - 1]);
                }
                if !bytes_eq(&current.prev_hash, &target[i - 1].hash) {
                    proof {
                        assert(target@[i - 1]@ == cv[i - 1]);
                        assert(cv[i as int].prev_hash != cv[i - 1].hash);
                    }
                    return false;
                }
                if !check_difficulty(&current.hash, self.difficulty) {
                    proof {
                        assert(!hash_meets_difficulty(cv[i as int].hash, self.difficulty as int));
                    }
                    return false;
                }
            }
            i = i + 1;
        }
        true
    }

    /// The saturating cumulative work of a chain's block hashes.
    pub fn get_cumulative_work(&self, chain: &Vec<Block>) -> (r: u128)
        ensures
            r == spec_cumulative_work(blocks_view(chain@)),
    {
        let ghost cv = blocks_view(chain@);
        let n = chain.len();
        let mut acc: u128 = 0;
        let mut i: usize = n;
        proof {
            assert(cv.skip(n as int) =~= Seq::<BlockV>::empty());
        }
        while i > 0
            invariant
                n == chain@.len(),
                cv == blocks_view(chain@),
                i <= n,
                acc == spec_cumulative_work(cv.skip(i as int)),
            decreases i,
        {
            let w = block_work(&chain[i - 1].hash);
            acc = if acc > u128::MAX - w {
                u128::MAX
            } else {
                acc + w
            };
            proof {
                assert(cv.skip(i - 1).drop_first() =~= cv.skip(i as int));
                assert(cv.skip(i - 1)[0] == cv[i - 1]);
            }
            i = i - 1;
        }
        proof {
            assert(cv.skip(0) =~= cv);
        }
        acc
    }

    /// Check a block's transactions in order against the committed
    /// balances, returning the balance table after the block on success.
    pub fn validate_transactions(&self, block: &Block, now_ms: u128) -> (r: Result<
        BalanceMap,
        BlockError,
    >)
        requires
            self.wf(),
        ensures
            r is Ok <==> spec_check_block_txs(block@, self.balances_fn(), now_ms) is None,
            r matches Err(e) ==> Some(e) == spec_check_block_txs(
                block@,
                self.balances_fn(),
                now_ms,
            ),
            r matches Ok(nb) ==> nb.wf() && forall|k: Seq<u8>|
                nb.spec_get(k) == spec_apply_block(self.balances_fn(), block@)(k),
    {
        let ghost bal0 = self.balances_fn();
        let mut work = self.balances.duplicate();
        if block.index == 0 {
            proof {
                assert(forall|k: Seq<u8>| work.spec_get(k) == spec_apply_block(bal0, block@)(k));
            }
            return Ok(work);
        }
        let ghost txsv = block@.transactions;
        let n = block.transactions.len();
        let mut i: usize = 0;
        proof {
            assert(txsv.subrange(0, 0) =~= Seq::<TxV>::empty());
            assert((|q: Seq<u8>| work.spec_get(q)) =~= spec_apply_txs(bal0, txsv.subrange(0, 0)));
        }
        while i < n
            invariant
                self.wf(),
                bal0 == self.balances_fn(),
                block@.index != 0,
                n == block.transactions@.len(),
                txsv == block@.transactions,
                i <= n,
                work.wf(),
                forall|k: Seq<u8>|
                    work.spec_get(k) == spec_apply_txs(bal0, txsv.subrange(0, i as int))(k),
                spec_check_txs(txsv, 0, bal0, now_ms) == spec_check_txs(
                    txsv,
                    i as nat,
                    spec_apply_txs(bal0, txsv.subrange(0, i as int)),
                    now_ms,
                ),
            decreases n - i,
        {
            let tx = &block.transactions[i];
            let ghost cur_fn = spec_apply_txs(bal0, txsv.subrange(0, i as int));
            // duplicate hash within the block
            if tx_dup_before(&block.transactions, i) {
                proof {
                    assert(spec_check_txs(txsv, i as nat, cur_fn, now_ms) == Some(
                        BlockError::DuplicateTx,
                    ));
                }
                return Err(BlockError::DuplicateTx);
            }
            if !tx.verify_at(now_ms) {
                proof {
                    assert(tx@ == txsv[i as int]);
                    assert(spec_check_txs(txsv, i as nat, cur_fn, now_ms) == Some(
                        BlockError::BadTransaction,
                    ));
                }
                return Err(BlockError::BadTransaction);
            }
            // transfer funding against the running balances
            match tx.data.tx_type {
                TransactionType::Transfer => {
                    match tx.data.amount {
                        Some(amount) => {
                            let sb = work.get(&tx.data.sender);
                            if (sb as u128) < amount as u128 + tx.data.fee as u128 {
                                proof {
                                    assert(tx@ == txsv[i as int]);
                                    assert(sb == cur_fn(txsv[i as int].data.sender));
                                    assert(!spec_tx_fundable(txsv[i as int], sb));
                                    assert(spec_check_txs(txsv, i as nat, cur_fn, now_ms) == Some(
                                        BlockError::InsufficientBalance,
                                    ));
                                }
                                return Err(BlockError::InsufficientBalance);
                            }
                        },
                        None => {},
                    }
                },
                TransactionType::Data => {},
            }
            let ghost pre = |q: Seq<u8>| work.spec_get(q);
            apply_transaction_balances(&mut work, tx);
            proof {
                assert(pre =~= cur_fn);
                lemma_apply_txs_push(bal0, txsv.subrange(0, i as int), txsv[i as int]);
                assert(txsv.subrange(0, i + 1) =~= txsv.subrange(0, i as int).push(
                    txsv[i as int],
                ));
                assert(spec_check_txs(txsv, i as nat, cur_fn, now_ms) == spec_check_txs(
                    txsv,
                    (i + 1) as nat,
                    spec_apply_tx(cur_fn, txsv[i as int]),
                    now_ms,
                ));
            }
            i = i + 1;
        }
        proof {
            assert(txsv.subrange(0, n as int) =~= txsv);
            assert(spec_check_txs(txsv, n as nat, spec_apply_txs(bal0, txsv), now_ms) is None);
        }
        Ok(work)
    }

    /// The first validation error of `block` as the next committed block.
    pub fn validate_block(&self, block: &Block, now_ms: u128) -> (r: Option<BlockError>)
        requires
            self.wf(),
        ensures
            r == spec_validate_next(
                self.chain().last(),
                self.balances_fn(),
                block@,
                now_ms,
                self.difficulty as int,
            ),
    {
        proof {
            reveal(spec_validate_next);
        }
        let last_index = self.blocks.len() - 1;
        let ghost prev = self.chain().last();
        proof {
            assert(self.blocks@[last_index as int]@ == prev);
        }
        if !bytes_eq(&block.prev_hash, &self.blocks[last_index].hash) {
            return Some(BlockError::BadLink);
        }
        if !(self.blocks[last_index].index < u32::MAX && block.index
            == self.blocks[last_index].index + 1) {
            return Some(BlockError::BadIndex);
        }
        let prev_ts = self.blocks[last_index].timestamp;
        if block.timestamp < prev_ts {
            return Some(BlockError::TimeTooShort);
        }
        if block.timestamp - prev_ts < MIN_BLOCK_TIME {
            return Some(BlockError::TimeTooShort);
        }
        if block.timestamp - prev_ts > MAX_BLOCK_TIME {
            return Some(BlockError::TimeTooLong);
        }
        if block.timestamp > now_ms && block.timestamp - now_ms > 7_200_000 {
            return Some(BlockError::TimeInFuture);
        }
        let h = block.compute_hash();
        if !bytes_eq(&block.hash, &h) {
            return Some(BlockError::BadHash);
        }
        if !self.verify_block_merkle_root(block) {
            return Some(BlockError::BadMerkle);
        }
        if !check_difficulty(&block.hash, self.difficulty) {
            return Some(BlockError::BadPow);
        }
        match self.validate_transactions(block, now_ms) {
            Ok(_) => None,
            Err(e) => Some(e),
        }
    }


    /// Append an already-validated block and install its balance table.
    fn commit_validated(&mut self, block: Block, new_balances: BalanceMap)
        requires
            old(self).wf(),
            new_balances.wf(),
            balances_after_block(new_balances, old(self).balances_fn(), block@),
            spec_committed_chain_ok(
                old(self).chain().push(block@),
                old(self).difficulty as int,
            ),
        ensures
            final(self).wf(),
            final(self).chain() == old(self).chain().push(block@),
            final(self).difficulty == old(self).difficulty,
            final(self).forks == old(self).forks,
            final(self).initial_balances == old(self).initial_balances,
            balances_after_block(final(self).balances, old(self).balances_fn(), block@),
    {
        let ghost old_chain = self.chain();
        let ghost bv = block@;
        self.balances = new_balances;
        self.blocks.push(block);
        proof {
            let c = self.chain();
            assert(c.len() == old_chain.len() + 1);
            assert forall|i: int| 0 <= i < old_chain.len() implies c[i] == old_chain[i] by {
                assert(self.blocks@[i] == old(self).blocks@[i]);
            }
            assert(c.last() == bv);
            assert(c =~= old_chain.push(bv));
        }
    }

    /// Validate `block` as the next committed block and commit it: apply
    /// its balance effects and append it. On an error nothing changes.
    pub fn add_block_at(&mut self, block: Block, now_ms: u128) -> (r: Result<(), BlockError>)
        requires
            old(self).wf(),
        ensures
            final(self).wf(),
            ({
                let verdict = spec_validate_next(
                    old(self).chain().last(),
                    old(self).balances_fn(),
                    block@,
                    now_ms,
                    old(self).difficulty as int,
                );
                &&& (r is Ok <==> verdict is None)
                &&& (r matches Err(e) ==> Some(e) == verdict && *final(self) == *old(self))
                &&& (r is Ok ==> final(self).chain() == old(self).chain().push(block@)
                    && final(self).difficulty == old(self).difficulty && final(self).forks
                    == old(self).forks
                    && final(self).initial_balances == old(self).initial_balances)
                &&& (r is Ok ==> balances_after_block(
                    final(self).balances,
                    old(self).balances_fn(),
                    block@,
                ))
            }),
    {
        match self.validate_block(&block, now_ms) {
            Some(e) => Err(e),
            None => {
                proof {
                    lemma_verdict_none_txs(
                        self.chain().last(),
                        self.balances_fn(),
                        block@,
                        now_ms,
                        self.difficulty as int,
                    );
                }
                let new_balances = match self.validate_transactions(&block, now_ms) {
                    Ok(nb) => nb,
                    Err(e) => {
                        proof {
                            assert(false);
                        }
                        return Err(e);
                    },
                };
                proof {
                    reveal(balances_after_block);
                    assert(balances_after_block(new_balances, self.balances_fn(), block@));
                    lemma_committed_push(self.chain(), block@, self.difficulty as int);
                }
                self.commit_validated(block, new_balances);
                Ok(())
            },
        }
    }

    /// Validate and commit against the wall clock, read once.
    pub fn add_block(&mut self, block: Block) -> (r: Result<(), BlockError>)
        requires
            old(self).wf(),
        ensures
            final(self).wf(),
            r is Ok ==> final(self).chain() == old(self).chain().push(block@)
                && final(self).difficulty == old(self).difficulty,
            r is Err ==> *final(self) == *old(self),
    {
        let t = now();
        self.add_block_at(block, t)
    }

    /// Whether a whole chain satisfies the committed-chain laws.
    pub fn chain_committed_ok(&self, chain: &Vec<Block>) -> (r: bool)
        ensures
            r == spec_committed_chain_ok(blocks_view(chain@), self.difficulty as int),
    {
        let ghost cv = blocks_view(chain@);
        let n = chain.len();
        if n == 0 {
            return false;
        }
        if (n as u64) > 0x1_0000_0000u64 {
            return false;
        }
        let mut i: usize = 0;
        while i < n
            invariant
                n == chain@.len(),
                cv == blocks_view(chain@),
                n >= 1,
                n <= 0x1_0000_0000,
                i <= n,
                forall|j: int| 0 <= j < i ==> committed_at(cv, j, self.difficulty as int),
            decreases n - i,
        {
            if !self.committed_step_ok(chain, i) {
                proof {
                    lemma_committed_ok_iff(cv, self.difficulty as int);
                }
                return false;
            }
            i = i + 1;
        }
        proof {
            lemma_committed_ok_iff(cv, self.difficulty as int);
        }
        true
    }

    /// The committed-chain laws at one position of a chain.
    fn committed_step_ok(&self, chain: &Vec<Block>, i: usize) -> (r: bool)
        requires
            i < chain@.len(),
        ensures
            r == committed_at(blocks_view(chain@), i as int, self.difficulty as int),
    {
        let ghost cv = blocks_view(chain@);
        let current = &chain[i];
        proof {
            assert(current@ == cv[i as int]);
        }
        if !(current.index as usize == i) {
            return false;
        }
        let h = current.compute_hash();
        if !bytes_eq(&current.hash, &h) {
            return false;
        }
        if !self.verify_block_merkle_root(current) {
            return false;
        }
        if i > 0 {
            proof {
                assert(chain@[i - 1]@ == cv[i - 1]);
            }
            if !bytes_eq(&current.prev_hash, &chain[i - 1].hash) {
                return false;
            }
            if !check_difficulty(&current.hash, self.difficulty) {
                return false;
            }
            let pts = chain[i - 1].timestamp;
            if current.timestamp < pts {
                return false;
            }
            let gap = current.timestamp - pts;
            if gap < MIN_BLOCK_TIME || gap > MAX_BLOCK_TIME {
                return false;
            }
        }
        true
    }

    /// A candidate block for the tip: next index, linked to the last hash,
    /// the given timestamp, a zero nonce, and the Merkle root of `transactions`.
    pub fn create_block_at(&self, transactions: Vec<Transaction>, timestamp: u128) -> (r: Result<
        Block,
        &'static str,
    >)
        requires
            self.wf(),
            transactions@.len() <= u32::MAX,
        ensures
            r is Ok,
            r matches Ok(b) ==> {
                &&& b@.index == self.chain().last().index + 1 || (self.chain().last().index
                    == u32::MAX && b@.index == u32::MAX)
                &&& b@.timestamp == timestamp
                &&& b@.prev_hash == self.chain().last().hash
                &&& b@.nonce == 0
                &&& b@.merkle_root == spec_block_merkle_root(txs_view(transactions@))
                &&& b@.transactions == txs_view(transactions@)
            },
    {
        let last_index = self.blocks.len() - 1;
        proof {
            assert(self.blocks@[last_index as int]@ == self.chain().last());
        }
        let last = &self.blocks[last_index];
        let next_index = if last.index < u32::MAX {
            last.index + 1
        } else {
            u32::MAX
        };
        Ok(
            Block::new(
                next_index,
                timestamp,
                clone_bytes(&last.hash),
                0,
                transactions,
            ),
        )
    }

    /// A candidate block stamped with the current wall clock.
    pub fn create_block(&self, transactions: Vec<Transaction>) -> (r: Result<Block, &'static str>)
        requires
            self.wf(),
            transactions@.len() <= u32::MAX,
        ensures
            r is Ok,
            r matches Ok(b) ==> {
                &&& b@.prev_hash == self.chain().last().hash
                &&& b@.nonce == 0
                &&& b@.merkle_root == spec_block_merkle_root(txs_view(transactions@))
                &&& b@.transactions == txs_view(transactions@)
            },
    {
        let t = now();
        self.create_block_at(transactions, t)
    }

    /// Search nonces until the recomputed hash meets the difficulty,
    /// bounded by the wall clock and by nonce exhaustion. On success the
    /// block's hash field is its recomputed hash and meets the target;
    /// every other field but the nonce is untouched.
    pub fn mine_block(&self, block: &mut Block) -> (r: Result<(), MiningError>)
        ensures
            r is Ok ==> final(block)@.hash == spec_block_hash(final(block)@)
                && hash_meets_difficulty(final(block)@.hash, self.difficulty as int),
            final(block)@.index == old(block)@.index,
            final(block)@.timestamp == old(block)@.timestamp,
            final(block)@.prev_hash == old(block)@.prev_hash,
            final(block)@.merkle_root == old(block)@.merkle_root,
            final(block)@.transactions == old(block)@.transactions,
            final(block)@.tx_count == old(block)@.tx_count,
    {
        let start_time = now();
        loop
            invariant
                block@.index == old(block)@.index,
                block@.timestamp == old(block)@.timestamp,
                block@.prev_hash == old(block)@.prev_hash,
                block@.merkle_root == old(block)@.merkle_root,
                block@.transactions == old(block)@.transactions,
                block@.tx_count == old(block)@.tx_count,
            decreases u64::MAX - block.nonce,
        {
            let h = block.compute_hash();
            block.hash = h;
            if check_difficulty(&block.hash, self.difficulty) {
                return Ok(());
            }
            let t = now();
            if t > start_time && t - start_time > MAX_MINING_TIME_MS {
                return Err(MiningError::TimedOut);
            }
            if block.nonce == u64::MAX {
                return Err(MiningError::NonceOverflow);
            }
            block.nonce = block.nonce + 1;
        }
    }

    /// Assemble, mine and commit an empty block at a given timestamp; the
    /// committed block meets the difficulty target, which is preserved.
    pub fn mine_empty_block_at(&mut self, timestamp: u128) -> (r: Result<Block, &'static str>)
        requires
            old(self).wf(),
        ensures
            final(self).wf(),
            final(self).difficulty == old(self).difficulty,
            final(self).forks == old(self).forks,
            final(self).initial_balances == old(self).initial_balances,
            r matches Ok(b) ==> final(self).chain() == old(self).chain().push(b@)
                && hash_meets_difficulty(b@.hash, old(self).difficulty as int) && b@.hash
                == spec_block_hash(b@) && b@.prev_hash == old(self).chain().last().hash
                && b@.timestamp == timestamp && b@.transactions.len() == 0,
            r is Err ==> *final(self) == *old(self),
    {
        let candidate = match self.create_block_at(Vec::new(), timestamp) {
            Ok(b) => b,
            Err(e) => {
                return Err(e);
            },
        };
        let mut candidate = candidate;
        match self.mine_block(&mut candidate) {
            Ok(()) => {},
            Err(_) => {
                return Err("Mining timed out - adjust difficulty");
            },
        }
        let mined = candidate.duplicate();
        match self.add_block_at(candidate, timestamp) {
            Ok(()) => Ok(mined),
            Err(_) => Err("Mined block failed validation"),
        }
    }

    /// Assemble, mine and commit an empty block at the current wall clock.
    pub fn mine_empty_block(&mut self) -> (r: Result<Block, &'static str>)
        requires
            old(self).wf(),
        ensures
            final(self).wf(),
            final(self).difficulty == old(self).difficulty,
            final(self).forks == old(self).forks,
            r matches Ok(b) ==> final(self).chain() == old(self).chain().push(b@)
                && hash_meets_difficulty(b@.hash, old(self).difficulty as int) && b@.hash
                == spec_block_hash(b@) && b@.prev_hash == old(self).chain().last().hash
                && b@.transactions.len() == 0,
            r is Err ==> *final(self) == *old(self),
    {
        let t = now();
        self.mine_empty_block_at(t)
    }

    /// Rebuild the balance table by replaying a chain over the initial
    /// allocation: afterwards the balances equal the fold of the chain's
    /// transaction effects, the reorganisation-equivalence law.
    pub fn revert_to_fork_state(&mut self, fork_chain: &Vec<Block>)
        requires
            old(self).initial_balances.wf(),
        ensures
            final(self).balances.wf(),
            forall|k: Seq<u8>|
                final(self).balances.spec_get(k) == spec_chain_balances(
                    old(self).spec_init_fn(),
                    blocks_view(fork_chain@),
                )(k),
            final(self).blocks == old(self).blocks,
            final(self).difficulty == old(self).difficulty,
            final(self).forks == old(self).forks,
            final(self).initial_balances == old(self).initial_balances,
    {
        let ghost init = self.spec_init_fn();
        let ghost cv = blocks_view(fork_chain@);
        let mut nb = self.initial_balances.duplicate();
        let n = fork_chain.len();
        let mut i: usize = 0;
        proof {
            assert(cv.subrange(0, 0) =~= Seq::<BlockV>::empty());
            assert((|q: Seq<u8>| nb.spec_get(q)) =~= spec_chain_balances(
                init,
                cv.subrange(0, 0),
            ));
        }
        while i < n
            invariant
                n == fork_chain@.len(),
                cv == blocks_view(fork_chain@),
                i <= n,
                nb.wf(),
                forall|k: Seq<u8>|
                    nb.spec_get(k) == spec_chain_balances(init, cv.subrange(0, i as int))(k),
            decreases n - i,
        {
            let ghost pre = |q: Seq<u8>| nb.spec_get(q);
            apply_block_balances(&mut nb, &fork_chain[i]);
            proof {
                assert(pre =~= spec_chain_balances(init, cv.subrange(0, i as int)));
                lemma_chain_balances_push(init, cv.subrange(0, i as int), cv[i as int]);
                assert(cv.subrange(0, i + 1) =~= cv.subrange(0, i as int).push(cv[i as int]));
                assert(fork_chain@[i as int]@ == cv[i as int]);
            }
            i = i + 1;
        }
        proof {
            assert(cv.subrange(0, n as int) =~= cv);
        }
        self.balances = nb;
    }

    /// Resolve the fork table. Whenever some registered fork qualifies
    /// (structurally valid, within depth, strictly heavier), a qualifying
    /// fork is adopted: the balances are rebuilt by replay over it and
    /// the fork table is emptied. Otherwise the chain and balances stay,
    /// and only in-depth, structurally valid forks are kept.
    pub fn resolve_forks(&mut self)
        requires
            old(self).wf(),
        ensures
            final(self).wf(),
            final(self).difficulty == old(self).difficulty,
            final(self).initial_balances == old(self).initial_balances,
            (exists|i: int|
                0 <= i < old(self).forks@.len() && fork_qualifies(
                    old(self).chain(),
                    #[trigger] old(self).forks@[i],
                    old(self).difficulty as int,
                )) ==> adoption_ok(
                old(self).forks@,
                old(self).chain(),
                old(self).difficulty as int,
                final(self).chain(),
            ) && final(self).forks@.len() == 0 && (forall|k: Seq<u8>|
                final(self).balances.spec_get(k) == spec_chain_balances(
                    final(self).spec_init_fn(),
                    final(self).chain(),
                )(k)),
            (forall|i: int|
                0 <= i < old(self).forks@.len() ==> !fork_qualifies(
                    old(self).chain(),
                    #[trigger] old(self).forks@[i],
                    old(self).difficulty as int,
                )) ==> final(self).chain() == old(self).chain() && final(self).balances == old(
                self,
            ).balances && forall|l: int|
                0 <= l < final(self).forks@.len() ==> kept_fork_ok(
                    old(self).forks@,
                    old(self).chain(),
                    old(self).difficulty as int,
                    #[trigger] final(self).forks@[l],
                ),
    {
        let main_len = self.blocks.len();
        let main_work = self.get_cumulative_work(&self.blocks);
        let mut adopt: Option<usize> = None;
        let nf = self.forks.len();
        let mut i: usize = 0;
        while i < nf
            invariant_except_break
                adopt is None,
                forall|j: int|
                    0 <= j < i ==> !fork_qualifies(
                        self.chain(),
                        #[trigger] self.forks@[j],
                        self.difficulty as int,
                    ),
            invariant
                self == old(self),
                old(self).wf(),
                nf == self.forks@.len(),
                i <= nf,
                main_len == self.blocks@.len(),
                main_work == spec_cumulative_work(self.chain()),
            ensures
                self == old(self),
                nf == self.forks@.len(),
                main_len == self.blocks@.len(),
                main_work == spec_cumulative_work(self.chain()),
                adopt matches Some(a) ==> a < nf && fork_qualifies(
                    self.chain(),
                    self.forks@[a as int],
                    self.difficulty as int,
                ),
                adopt is None ==> forall|j: int|
                    0 <= j < nf ==> !fork_qualifies(
                        self.chain(),
                        #[trigger] self.forks@[j],
                        self.difficulty as int,
                    ),
            decreases nf - i,
        {
            let fork_len = self.forks[i].chain.len();
            let within = fork_len <= main_len || fork_len - main_len <= MAX_FORK_DEPTH;
            if within {
                if self.chain_committed_ok(&self.forks[i].chain) {
                    let w = self.get_cumulative_work(&self.forks[i].chain);
                    if w > main_work {
                        adopt = Some(i);
                        break ;
                    }
                }
            }
            i = i + 1;
        }
        match adopt {
            Some(a) => {
                // adopt: replay balances and swap in the fork chain
                let mut new_blocks: Vec<Block> = Vec::new();
                let m = self.forks[a].chain.len();
                let mut j: usize = 0;
                while j < m
                    invariant
                        a < self.forks@.len(),
                        m == self.forks@[a as int].chain@.len(),
                        j <= m,
                        new_blocks@.len() == j,
                        forall|l: int|
                            0 <= l < j ==> new_blocks@[l]@ == blocks_view(
                                self.forks@[a as int].chain@,
                            )[l],
                    decreases m - j,
                {
                    new_blocks.push(self.forks[a].chain[j].duplicate());
                    j = j + 1;
                }
                proof {
                    assert(blocks_view(new_blocks@) =~= blocks_view(
                        self.forks@[a as int].chain@,
                    ));
                }
                self.revert_to_fork_state(&new_blocks);
                self.blocks = new_blocks;
                self.forks = Vec::new();
                proof {
                    assert(final(self).chain() == blocks_view(old(self).forks@[a as int].chain@));
                    assert(fork_qualifies(
                        old(self).chain(),
                        old(self).forks@[a as int],
                        old(self).difficulty as int,
                    ));
                    assert(adoption_ok(
                        old(self).forks@,
                        old(self).chain(),
                        old(self).difficulty as int,
                        final(self).chain(),
                    ));
                }
                Ok::<(), ()>(());
            },
            None => {
                // keep only forks within depth that remain structurally valid
                let mut kept: Vec<Fork> = Vec::new();
                let nf2 = self.forks.len();
                let mut j: usize = 0;
                while j < nf2
                    invariant
                        old(self).wf(),
                        self == old(self),
                        main_len == old(self).blocks@.len(),
                        nf2 == old(self).forks@.len(),
                        j <= nf2,
                        forall|l: int|
                            0 <= l < kept@.len() ==> (#[trigger] kept@[l]).chain@.len() >= 1,
                        forall|l: int|
                            0 <= l < kept@.len() ==> kept_fork_ok(
                                old(self).forks@,
                                old(self).chain(),
                                old(self).difficulty as int,
                                #[trigger] kept@[l],
                            ),
                    decreases nf2 - j,
                {
                    let flen = self.forks[j].chain.len();
                    let within = flen <= main_len || flen - main_len <= MAX_FORK_DEPTH;
                    if within && self.is_chain_valid(Some(&self.forks[j].chain)) {
                        let mut cb: Vec<Block> = Vec::new();
                        let m2 = self.forks[j].chain.len();
                        let mut l2: usize = 0;
                        while l2 < m2
                            invariant
                                j < self.forks@.len(),
                                m2 == self.forks@[j as int].chain@.len(),
                                l2 <= m2,
                                cb@.len() == l2,
                                forall|q: int|
                                    0 <= q < l2 ==> cb@[q]@ == blocks_view(
                                        self.forks@[j as int].chain@,
                                    )[q],
                            decreases m2 - l2,
                        {
                            cb.push(self.forks[j].chain[l2].duplicate());
                            l2 = l2 + 1;
                        }
                        proof {
                            assert(blocks_view(cb@) =~= blocks_view(self.forks@[j as int].chain@));
                        }
                        if cb.len() > 0 {
                            let base = clone_bytes(&self.forks[j].base);
                            let ghost kept_before = kept@;
                            let ghost cbv = blocks_view(cb@);
                            kept.push(Fork { base, chain: cb });
                            proof {
                                assert(blocks_view(kept@.last().chain@) == cbv);
                                assert forall|l: int|
                                    0 <= l < kept@.len() implies kept_fork_ok(
                                    old(self).forks@,
                                    old(self).chain(),
                                    old(self).difficulty as int,
                                    #[trigger] kept@[l],
                                ) by {
                                    if l < kept_before.len() {
                                        assert(kept@[l] == kept_before[l]);
                                    } else {
                                        assert(blocks_view(kept@[l].chain@) == blocks_view(
                                            old(self).forks@[j as int].chain@,
                                        ));
                                        assert(kept_fork_ok(
                                            old(self).forks@,
                                            old(self).chain(),
                                            old(self).difficulty as int,
                                            kept@[l],
                                        ));
                                    }
                                }
                            }
                        }
                    }
                    j = j + 1;
                }
                proof {
                    assert(self.chain() == old(self).chain());
                }
                self.forks = kept;
                Ok::<(), ()>(());
            },
        };
    }

    /// Route an inbound block: extend the tip exactly when it links there
    /// and validation passes; open a fork below a committed parent, or
    /// extend a registered fork's tip, exactly when the candidate branch
    /// satisfies the committed-chain laws and attaches within depth;
    /// reorganise after any fork change. On an error nothing changes.
    #[verifier::rlimit(100)]
    #[verifier::spinoff_prover]
    pub fn receive_block_at(&mut self, block: Block, now_ms: u128) -> (r: Result<(), BlockError>)
        requires
            old(self).wf(),
        ensures
            final(self).wf(),
            final(self).difficulty == old(self).difficulty,
            final(self).initial_balances == old(self).initial_balances,
            r is Err ==> *final(self) == *old(self),
            !hash_meets_difficulty(block@.hash, old(self).difficulty as int) ==> r
                == Err::<(), BlockError>(BlockError::BadPow),
            ({
                let c = old(self).chain();
                let d = old(self).difficulty as int;
                let b = block@;
                let pre_ok = hash_meets_difficulty(b.hash, d) && !(b.timestamp > now_ms
                    + 7_200_000);
                let tip_ext = b.prev_hash == c.last().hash && c.last().index < u32::MAX
                    && b.index == c.last().index + 1;
                &&& (hash_meets_difficulty(b.hash, d) && b.timestamp > now_ms + 7_200_000 ==> r
                    == Err::<(), BlockError>(BlockError::TimeInFuture))
                &&& (pre_ok && tip_ext ==> {
                    &&& (r is Ok <==> spec_validate_next(
                        c.last(),
                        old(self).balances_fn(),
                        b,
                        now_ms,
                        d,
                    ) is None)
                    &&& (r is Ok ==> final(self).chain() == c.push(b))
                    &&& (r matches Err(e) ==> Some(e) == spec_validate_next(
                        c.last(),
                        old(self).balances_fn(),
                        b,
                        now_ms,
                        d,
                    ))
                })
                &&& (pre_ok && !tip_ext ==> forall|i: int|
                    spec_parent_at(c, b.prev_hash, i) ==> {
                        &&& (c.len() - 1 - i > MAX_FORK_DEPTH ==> r == Err::<(), BlockError>(
                            BlockError::ForkDepthExceeded,
                        ))
                        &&& (c.len() - 1 - i <= MAX_FORK_DEPTH ==> (r is Ok
                            <==> spec_committed_chain_ok(#[trigger] c.subrange(0, i + 1).push(b), d)))
                    })
                &&& (pre_ok && !tip_ext && (forall|i: int|
                    0 <= i < c.len() ==> (#[trigger] c[i]).hash != b.prev_hash) ==> forall|f: int|
                    spec_fork_tip_at(old(self).forks@, b.prev_hash, f) ==> (r is Ok
                        <==> spec_committed_chain_ok(
                        #[trigger] blocks_view(old(self).forks@[f].chain@).push(b),
                        d,
                    )))
                &&& (pre_ok && !tip_ext && (forall|i: int|
                    0 <= i < c.len() ==> (#[trigger] c[i]).hash != b.prev_hash) && (forall|f: int|
                    0 <= f < old(self).forks@.len() ==> blocks_view(
                        (#[trigger] old(self).forks@[f]).chain@,
                    ).last().hash != b.prev_hash) ==> r == Err::<(), BlockError>(
                    BlockError::NoFit,
                ))
            }),
            r is Ok ==> final(self).chain() == old(self).chain().push(block@) || final(self).chain() == old(self).chain() || spec_cumulative_work(final(self).chain())
                > spec_cumulative_work(old(self).chain()),
    {
        if !check_difficulty(&block.hash, self.difficulty) {
            return Err(BlockError::BadPow);
        }
        if block.timestamp > now_ms && block.timestamp - now_ms > 7_200_000 {
            return Err(BlockError::TimeInFuture);
        }
        proof {
            assert(!(block@.timestamp > now_ms + 7_200_000));
        }
        let last_index = self.blocks.len() - 1;
        if bytes_eq(&block.prev_hash, &self.blocks[last_index].hash)
            && self.blocks[last_index].index < u32::MAX && block.index
            == self.blocks[last_index].index + 1 {
            return self.add_block_at(block, now_ms);
        }
        // a fork rooted at a committed block: find the first parent
        let n = self.blocks.len();
        proof {
            assert(self.chain().last() == self.blocks@[last_index as int]@);
        }
        let mut i: usize = 0;
        while i < n
            invariant
                old(self).wf(),
                self == old(self),
                hash_meets_difficulty(block@.hash, self.difficulty as int),
                !(block@.timestamp > now_ms + 7_200_000),
                !(block@.prev_hash == self.chain().last().hash && self.chain().last().index
                    < u32::MAX && block@.index == self.chain().last().index + 1),
                n == self.blocks@.len(),
                i <= n,
                forall|j: int| 0 <= j < i ==> (#[trigger] self.chain()[j]).hash != block@.prev_hash,
            decreases n - i,
        {
            if bytes_eq(&block.prev_hash, &self.blocks[i].hash) {
                proof {
                    assert(self.chain()[i as int].hash == block@.prev_hash);
                    assert(spec_parent_at(self.chain(), block@.prev_hash, i as int));
                    assert forall|i2: int|
                        spec_parent_at(self.chain(), block@.prev_hash, i2) implies i2 == i by {
                        if i2 < i {
                            assert(self.chain()[i2].hash != block@.prev_hash);
                        }
                        if i2 > i {
                            assert(self.chain()[i as int].hash != block@.prev_hash);
                        }
                    }
                    assert(self.chain().len() == n);
                }
                if n - 1 - i > MAX_FORK_DEPTH {
                    return Err(BlockError::ForkDepthExceeded);
                }
                let mut candidate: Vec<Block> = Vec::new();
                let mut j: usize = 0;
                while j <= i
                    invariant
                        old(self).wf(),
                        self == old(self),
                        i < self.blocks@.len(),
                        self.blocks@.len() <= usize::MAX,
                        j <= i + 1,
                        candidate@.len() == j,
                        forall|q: int| 0 <= q < j ==> candidate@[q]@ == self.chain()[q],
                    decreases i + 1 - j,
                {
                    candidate.push(self.blocks[j].duplicate());
                    j = j + 1;
                }
                let ghost bv = block@;
                candidate.push(block);
                proof {
                    assert(blocks_view(candidate@) =~= self.chain().subrange(0, i + 1).push(bv));
                }
                if !self.chain_committed_ok(&candidate) {
                    return Err(BlockError::InvalidFork);
                }
                let base = clone_bytes(&self.blocks[i].hash);
                self.upsert_fork(base, candidate);
                self.resolve_forks();
                return Ok(());
            }
            i = i + 1;
        }
        // a block extending a registered fork's tip: find the first match
        let nf = self.forks.len();
        let mut f: usize = 0;
        while f < nf
            invariant
                old(self).wf(),
                self == old(self),
                hash_meets_difficulty(block@.hash, self.difficulty as int),
                !(block@.timestamp > now_ms + 7_200_000),
                !(block@.prev_hash == self.chain().last().hash && self.chain().last().index
                    < u32::MAX && block@.index == self.chain().last().index + 1),
                forall|j: int|
                    0 <= j < self.chain().len() ==> (#[trigger] self.chain()[j]).hash
                        != block@.prev_hash,
                nf == self.forks@.len(),
                f <= nf,
                forall|j: int|
                    0 <= j < f ==> blocks_view(
                        (#[trigger] self.forks@[j]).chain@,
                    ).last().hash != block@.prev_hash,
            decreases nf - f,
        {
            let tip = self.forks[f].chain.len() - 1;
            if bytes_eq(&block.prev_hash, &self.forks[f].chain[tip].hash) {
                proof {
                    assert(blocks_view(self.forks@[f as int].chain@).last()
                        == self.forks@[f as int].chain@[tip as int]@);
                    assert(spec_fork_tip_at(self.forks@, block@.prev_hash, f as int));
                }
                let mut candidate: Vec<Block> = Vec::new();
                let m = self.forks[f].chain.len();
                let mut j: usize = 0;
                while j < m
                    invariant
                        old(self).wf(),
                        self == old(self),
                        f < self.forks@.len(),
                        m == self.forks@[f as int].chain@.len(),
                        j <= m,
                        candidate@.len() == j,
                        forall|q: int|
                            0 <= q < j ==> candidate@[q]@ == blocks_view(
                                self.forks@[f as int].chain@,
                            )[q],
                    decreases m - j,
                {
                    candidate.push(self.forks[f].chain[j].duplicate());
                    j = j + 1;
                }
                let ghost bv = block@;
                candidate.push(block);
                proof {
                    assert(blocks_view(candidate@) =~= blocks_view(
                        self.forks@[f as int].chain@,
                    ).push(bv));
                }
                if !self.chain_committed_ok(&candidate) {
                    return Err(BlockError::InvalidFork);
                }
                let base = clone_bytes(&self.forks[f].base);
                self.upsert_fork(base, candidate);
                self.resolve_forks();
                return Ok(());
            }
            f = f + 1;
        }
        Err(BlockError::NoFit)
    }

    /// Route an inbound block against the wall clock, read once.
    pub fn receive_block(&mut self, block: Block) -> (r: Result<(), BlockError>)
        requires
            old(self).wf(),
        ensures
            final(self).wf(),
            final(self).difficulty == old(self).difficulty,
            final(self).initial_balances == old(self).initial_balances,
            r is Err ==> *final(self) == *old(self),
    {
        let t = now();
        self.receive_block_at(block, t)
    }

    /// Register or replace the fork keyed by `base`.
    fn upsert_fork(&mut self, base: BHash, chain: Vec<Block>)
        requires
            old(self).wf(),
            chain@.len() >= 1,
        ensures
            final(self).wf(),
            final(self).blocks == old(self).blocks,
            final(self).difficulty == old(self).difficulty,
            final(self).balances == old(self).balances,
            final(self).initial_balances == old(self).initial_balances,
    {
        let nf = self.forks.len();
        let mut i: usize = 0;
        while i < nf
            invariant
                old(self).wf(),
                self == old(self),
                chain@.len() >= 1,
                nf == self.forks@.len(),
                i <= nf,
            decreases nf - i,
        {
            if bytes_eq(&self.forks[i].base, &base) {
                let ghost before = self.forks@;
                self.forks[i] = Fork { base, chain };
                proof {
                    assert forall|l: int|
                        0 <= l < self.forks@.len() implies (#[trigger] self.forks@[l]).chain@.len()
                        >= 1 by {
                        if l != i {
                            assert(self.forks@[l] == before[l]);
                            assert(before[l].chain@.len() >= 1);
                        }
                    }
                }
                return ;
            }
            i = i + 1;
        }
        self.forks.push(Fork { base, chain });
    }

    /// Assemble and mine a block on top of the parent of the current tip,
    /// then route it, registering a fork of depth one.
    pub fn simulate_fork_at(&mut self, transactions: Vec<Transaction>, timestamp: u128) -> (r:
        Result<Block, &'static str>)
        requires
            old(self).wf(),
            transactions@.len() <= u32::MAX,
        ensures
            final(self).wf(),
            final(self).difficulty == old(self).difficulty,
            final(self).initial_balances == old(self).initial_balances,
    {
        if self.blocks.len() < 2 {
            return Err("Need at least 2 blocks to create a fork");
        }
        let fork_base_index = self.blocks.len() - 2;
        let base_index = self.blocks[fork_base_index].index;
        if base_index == u32::MAX {
            return Err("Need at least 2 blocks to create a fork");
        }
        let mut fork_block = Block::new(
            base_index + 1,
            timestamp,
            clone_bytes(&self.blocks[fork_base_index].hash),
            0,
            transactions,
        );
        match self.mine_block(&mut fork_block) {
            Ok(()) => {},
            Err(_) => {
                return Err("Mining timed out - adjust difficulty");
            },
        }
        let mined = fork_block.duplicate();
        match self.receive_block_at(fork_block, timestamp) {
            Ok(()) => Ok(mined),
            Err(_) => Err("Block doesn't fit in any chain"),
        }
    }

    /// Assemble and mine a one-deep fork at the current wall clock.
    pub fn simulate_fork(&mut self, transactions: Vec<Transaction>) -> (r: Result<
        Block,
        &'static str,
    >)
        requires
            old(self).wf(),
            transactions@.len() <= u32::MAX,
        ensures
            final(self).wf(),
            final(self).difficulty == old(self).difficulty,
    {
        let t = now();
        self.simulate_fork_at(transactions, t)
    }

    /// The headers of every committed block, in order.
    pub fn get_block_headers(&self) -> (r: Vec<BlockHeader>)
        ensures
            r@.len() == self.chain().len(),
            forall|i: int|
                0 <= i < r@.len() ==> (#[trigger] r@[i]).hash@ == self.chain()[i].hash
                    && r@[i].merkle_root@ == self.chain()[i].merkle_root && r@[i].index
                    == self.chain()[i].index,
    {
        let mut out: Vec<BlockHeader> = Vec::new();
        let n = self.blocks.len();
        let mut i: usize = 0;
        while i < n
            invariant
                n == self.blocks@.len(),
                i <= n,
                out@.len() == i,
                forall|j: int|
                    0 <= j < i ==> (#[trigger] out@[j]).hash@ == self.chain()[j].hash
                        && out@[j].merkle_root@ == self.chain()[j].merkle_root && out@[j].index
                        == self.chain()[j].index,
            decreases n - i,
        {
            out.push(self.blocks[i].get_header());
            i = i + 1;
        }
        out
    }

    /// The header at `index`, if committed.
    pub fn get_block_header(&self, index: usize) -> (r: Option<BlockHeader>)
        ensures
            r is Some <==> index < self.chain().len(),
            r matches Some(h) ==> h.hash@ == self.chain()[index as int].hash && h.merkle_root@
                == self.chain()[index as int].merkle_root,
    {
        if index < self.blocks.len() {
            Some(self.blocks[index].get_header())
        } else {
            None
        }
    }

    /// An inclusion proof for `tx_hash` within the block at `block_index`.
    pub fn get_transaction_proof(&self, block_index: usize, tx_hash: &Vec<u8>) -> (r: Option<
        MerkleProof,
    >)
        ensures
            r matches Some(p) ==> block_index < self.chain().len() && spec_merkle_fold(
                tx_hash@,
                proof_view(p.proof@),
            ) == crate::merkle::spec_merkle_root(
                crate::block::tx_hashes_of(self.chain()[block_index as int].transactions),
            ),
    {
        if block_index < self.blocks.len() {
            self.blocks[block_index].generate_inclusion_proof(tx_hash)
        } else {
            None
        }
    }

    /// Whether `proof` folds `tx_hash` to the Merkle root recorded in the
    /// block at `block_index`.
    pub fn verify_transaction_in_chain(
        &self,
        tx_hash: &Vec<u8>,
        proof: &MerkleProof,
        block_index: usize,
    ) -> (r: bool)
        ensures
            r == (block_index < self.chain().len() && spec_merkle_fold(
                tx_hash@,
                proof_view(proof.proof@),
            ) == self.chain()[block_index as int].merkle_root),
    {
        if block_index < self.blocks.len() {
            self.blocks[block_index].verify_transaction_inclusion(tx_hash, proof)
        } else {
            false
        }
    }

}


/// A header-only replica: keeps a hash-linked header chain and checks
/// transaction inclusion against recorded Merkle roots.
pub struct LightClient {
    pub headers: Vec<BlockHeader>,
}

impl LightClient {
    /// Adjacent headers are hash-linked.
    pub open spec fn wf(&self) -> bool {
        forall|i: int|
            1 <= i < self.headers@.len() ==> (#[trigger] self.headers@[i]).prev_hash@
                == self.headers@[i - 1].hash@
    }

    pub fn new() -> (r: Self)
        ensures
            r.wf(),
            r.headers@.len() == 0,
    {
        LightClient { headers: Vec::new() }
    }

    /// Append a header; rejected exactly where it does not link to the
    /// last accepted header.
    pub fn add_header(&mut self, header: BlockHeader) -> (r: Result<(), &'static str>)
        requires
            old(self).wf(),
        ensures
            final(self).wf(),
            r is Ok <==> (old(self).headers@.len() == 0
                || header.prev_hash@ == old(self).headers@.last().hash@),
            r is Ok ==> final(self).headers@.len() == old(self).headers@.len() + 1,
            r is Err ==> *final(self) == *old(self),
    {
        let n = self.headers.len();
        if n > 0 {
            if !bytes_eq(&header.prev_hash, &self.headers[n - 1].hash) {
                return Err("Invalid header chain");
            }
        }
        let ghost before = self.headers@;
        self.headers.push(header);
        proof {
            assert forall|i: int|
                1 <= i < self.headers@.len() implies (#[trigger] self.headers@[i]).prev_hash@
                == self.headers@[i - 1].hash@ by {
                if i < before.len() {
                    assert(self.headers@[i] == before[i]);
                    assert(self.headers@[i - 1] == before[i - 1]);
                }
            }
        }
        Ok(())
    }

    /// Whether `proof` folds `tx_hash` to the Merkle root of the header
    /// at `block_index`.
    pub fn verify_transaction(
        &self,
        tx_hash: &Vec<u8>,
        proof: &MerkleProof,
        block_index: usize,
    ) -> (r: bool)
        ensures
            r == (block_index < self.headers@.len() && spec_merkle_fold(
                tx_hash@,
                proof_view(proof.proof@),
            ) == self.headers@[block_index as int].merkle_root@),
    {
        if block_index < self.headers.len() {
            MerkleTree::verify_proof(&self.headers[block_index].merkle_root, tx_hash, proof)
        } else {
            false
        }
    }

    /// The number of accepted headers.
    pub fn get_height(&self) -> (r: usize)
        ensures
            r == self.headers@.len(),
    {
        self.headers.len()
    }
}

} // verus!
