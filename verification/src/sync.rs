//! The synchronisation layer's decisions, separated from the transport:
//! recognising snapshot-request control values, deriving request and
//! response keys, handling inbound sync events against the chain and the
//! pool, and choosing whether to adopt a peer's snapshot.
use vstd::prelude::*;

use crate::block::Block;
use crate::blockchain::Blockchain;
use crate::blockchain::blocks_view;
use crate::blockchain::spec_committed_chain_ok;
use crate::bytemap::clone_bytes;
use crate::constants::KEY_LENGTH;
use crate::crypto::random_bytes32;
use crate::crypto::sha256;
use crate::crypto::sha256_of;
use crate::hexcode::hex_decode;
use crate::hexcode::is_hex_seq;
use crate::hexcode::spec_hex_decode;
use crate::now;
use crate::pool::TransactionPool;
use crate::pool::pool_contains_hash;
use crate::pool::spec_admits;
use crate::constants::MAX_POOL_SIZE;
use crate::spec_u128_bytes;
use crate::transaction::Transaction;
use crate::u128_to_bytes;

verus! {

/// An inbound value of the STORE channel, already decoded by the caller.
pub enum SyncEvent {
    /// A control string asking for a chain snapshot at `response_key`.
    SnapshotRequest { response_key: Vec<u8> },
    /// A gossiped block.
    NewBlock(Block),
    /// A gossiped transaction.
    NewTransaction(Transaction),
    /// An ordinary value, not a control message.
    Plain,
}

/// What the caller must do after handling an event.
pub enum SyncAction {
    /// Write a snapshot of the committed chain at `key`.
    PublishSnapshot { key: Vec<u8>, blocks: Vec<Block>, difficulty: usize },
    /// The block or transaction was taken.
    Accepted,
    /// The block or transaction was refused.
    Rejected,
    /// Nothing to do; the raw value is stored as-is.
    Ignored,
}

/// The ASCII bytes of the request sentinel.
pub open spec fn request_prefix() -> Seq<u8> {
    seq![82u8, 69u8, 81u8, 85u8, 69u8, 83u8, 84u8, 58u8]
}

/// Whether a stored value is a well-formed snapshot request: the sentinel
/// followed by the response key in hex.
pub open spec fn is_request_value(v: Seq<u8>) -> bool {
    &&& v.len() == 8 + 2 * KEY_LENGTH
    &&& v.subrange(0, 8) == request_prefix()
    &&& is_hex_seq(v.subrange(8, v.len() as int))
}

/// Recognise a snapshot-request control value; Some exactly where the
/// value carries the sentinel and a hex response key of the right length,
/// which is returned decoded.
pub fn recognize_request(value: &Vec<u8>) -> (r: Option<Vec<u8>>)
    ensures
        r is Some <==> is_request_value(value@),
        r matches Some(k) ==> k@ == spec_hex_decode(value@.subrange(8, value@.len() as int))
            && k@.len() == KEY_LENGTH,
{
    if value.len() != 8 + 2 * KEY_LENGTH {
        return None;
    }
    let sentinel: [u8; 8] = [82, 69, 81, 85, 69, 83, 84, 58];
    let mut i: usize = 0;
    while i < 8
        invariant
            value@.len() == 8 + 2 * KEY_LENGTH,
            sentinel@ == request_prefix(),
            i <= 8,
            forall|j: int| 0 <= j < i ==> value@[j] == request_prefix()[j],
        decreases 8 - i,
    {
        if value[i] != sentinel[i] {
            proof {
                assert(value@[i as int] != request_prefix()[i as int]);
                assert(value@.subrange(0, 8) != request_prefix());
            }
            return None;
        }
        i = i + 1;
    }
    proof {
        assert(value@.subrange(0, 8) =~= request_prefix());
    }
    let mut hex_part: Vec<u8> = Vec::new();
    let mut j: usize = 8;
    while j < value.len()
        invariant
            value@.len() == 8 + 2 * KEY_LENGTH,
            8 <= j <= value@.len(),
            hex_part@ == value@.subrange(8, j as int),
        decreases value@.len() - j,
    {
        hex_part.push(value[j]);
        proof {
            assert(value@.subrange(8, j + 1) =~= value@.subrange(8, j as int).push(
                value@[j as int],
            ));
        }
        j = j + 1;
    }
    proof {
        assert(hex_part@ == value@.subrange(8, value@.len() as int));
    }
    match hex_decode(hex_part.as_slice()) {
        Some(key) => {
            proof {
                crate::hexcode::lemma_hex_encode_len(key@);
            }
            Some(key)
        },
        None => None,
    }
}

/// The response key derived from a request key: a digest under a domain
/// tag, truncated to the key length.
pub open spec fn spec_response_key(request_key: Seq<u8>) -> Seq<u8> {
    sha256_of(seq![2u8] + request_key).take(KEY_LENGTH as int)
}

fn take_key(h: &Vec<u8>) -> (r: Vec<u8>)
    requires
        h@.len() >= KEY_LENGTH,
    ensures
        r@ == h@.take(KEY_LENGTH as int),
        r@.len() == KEY_LENGTH,
{
    let mut out: Vec<u8> = Vec::new();
    let mut i: usize = 0;
    while i < KEY_LENGTH
        invariant
            h@.len() >= KEY_LENGTH,
            i <= KEY_LENGTH,
            out@ == h@.subrange(0, i as int),
        decreases KEY_LENGTH - i,
    {
        out.push(h[i]);
        proof {
            assert(h@.subrange(0, i + 1) =~= h@.subrange(0, i as int).push(h@[i as int]));
        }
        i = i + 1;
    }
    proof {
        assert(out@ =~= h@.take(KEY_LENGTH as int));
    }
    out
}

/// The response key belonging to a request key.
pub fn derive_response_key(request_key: &Vec<u8>) -> (r: Vec<u8>)
    ensures
        r@ == spec_response_key(request_key@),
        r@.len() == KEY_LENGTH,
{
    let mut input: Vec<u8> = Vec::new();
    input.push(2u8);
    let mut i: usize = 0;
    while i < request_key.len()
        invariant
            i <= request_key@.len(),
            input@ == seq![2u8] + request_key@.subrange(0, i as int),
        decreases request_key@.len() - i,
    {
        input.push(request_key[i]);
        proof {
            assert(request_key@.subrange(0, i + 1) =~= request_key@.subrange(0, i as int).push(
                request_key@[i as int],
            ));
        }
        i = i + 1;
    }
    proof {
        assert(request_key@.subrange(0, request_key@.len() as int) =~= request_key@);
    }
    let h = sha256(input.as_slice());
    take_key(&h)
}

/// A request key from the two node ids, a time reading and entropy: a
/// digest under a domain tag, truncated to the key length.
pub fn derive_request_key(
    self_id: &Vec<u8>,
    peer_id: &Vec<u8>,
    time_ms: u128,
    entropy: &Vec<u8>,
) -> (r: Vec<u8>)
    ensures
        r@ == sha256_of(
            seq![1u8] + self_id@ + peer_id@ + spec_u128_bytes(time_ms) + entropy@,
        ).take(KEY_LENGTH as int),
        r@.len() == KEY_LENGTH,
{
    let mut input: Vec<u8> = Vec::new();
    input.push(1u8);
    append_all(&mut input, self_id);
    append_all(&mut input, peer_id);
    let t = u128_to_bytes(&time_ms);
    let mut q: usize = 0;
    while q < 16
        invariant
            q <= 16,
            t@ == spec_u128_bytes(time_ms),
            input@ == seq![1u8] + self_id@ + peer_id@ + t@.subrange(0, q as int),
        decreases 16 - q,
    {
        input.push(t[q]);
        proof {
            assert(t@.subrange(0, q + 1) =~= t@.subrange(0, q as int).push(t@[q as int]));
        }
        q = q + 1;
    }
    proof {
        assert(t@.subrange(0, 16) =~= t@);
    }
    append_all(&mut input, entropy);
    let h = sha256(input.as_slice());
    take_key(&h)
}

fn append_all(out: &mut Vec<u8>, b: &Vec<u8>)
    ensures
        final(out)@ == old(out)@ + b@,
{
    let mut i: usize = 0;
    while i < b.len()
        invariant
            i <= b@.len(),
            out@ == old(out)@ + b@.subrange(0, i as int),
        decreases b@.len() - i,
    {
        out.push(b[i]);
        proof {
            assert(b@.subrange(0, i + 1) =~= b@.subrange(0, i as int).push(b@[i as int]));
        }
        i = i + 1;
    }
    proof {
        assert(b@.subrange(0, b@.len() as int) =~= b@);
    }
}

/// Fresh request and response keys against the wall clock and the random
/// source; the response key is derived from the request key.
pub fn new_request_keys(self_id: &Vec<u8>, peer_id: &Vec<u8>) -> (r: (Vec<u8>, Vec<u8>))
    ensures
        r.0@.len() == KEY_LENGTH,
        r.1@ == spec_response_key(r.0@),
        r.1@.len() == KEY_LENGTH,
{
    let t = now();
    let entropy = random_bytes32();
    let request_key = derive_request_key(self_id, peer_id, t, &entropy);
    let response_key = derive_response_key(&request_key);
    (request_key, response_key)
}

/// Whether a peer's snapshot should replace the local chain: it must
/// satisfy the committed-chain laws under the local difficulty and be
/// strictly taller than the local chain.
pub fn consider_snapshot(chain: &Blockchain, candidate: &Vec<Block>) -> (r: bool)
    ensures
        r == (spec_committed_chain_ok(blocks_view(candidate@), chain.difficulty as int)
            && candidate@.len() > chain.chain().len()),
{
    let structurally_ok = chain.chain_committed_ok(candidate);
    structurally_ok && candidate.len() > chain.get_block_height()
}

/// Adopt a snapshot: install its blocks, rebuild the balances by replay
/// over the initial allocation, discard the forks, and clear the pool.
pub fn adopt_snapshot(chain: &mut Blockchain, pool: &mut TransactionPool, blocks: Vec<Block>)
    requires
        old(chain).wf(),
        old(pool).wf(),
        spec_committed_chain_ok(blocks_view(blocks@), old(chain).difficulty as int),
    ensures
        final(chain).wf(),
        final(pool).wf(),
        final(chain).chain() == blocks_view(blocks@),
        final(chain).difficulty == old(chain).difficulty,
        final(chain).forks@.len() == 0,
        final(pool).entries@.len() == 0,
        forall|k: Seq<u8>|
            final(chain).balances.spec_get(k) == crate::blockchain::spec_chain_balances(
                final(chain).spec_init_fn(),
                final(chain).chain(),
            )(k),
{
    chain.revert_to_fork_state(&blocks);
    chain.blocks = blocks;
    chain.forks = Vec::new();
    pool.clear();
}

/// Handle one inbound sync event at time `now_ms`: a snapshot request
/// yields the snapshot to publish (state untouched); a gossiped block is
/// routed into the chain; a gossiped transaction is offered to the pool;
/// a plain value is ignored.
pub fn handle_sync_event(
    chain: &mut Blockchain,
    pool: &mut TransactionPool,
    ev: SyncEvent,
    now_ms: u128,
) -> (r: SyncAction)
    requires
        old(chain).wf(),
        old(pool).wf(),
    ensures
        final(chain).wf(),
        final(pool).wf(),
        final(chain).difficulty == old(chain).difficulty,
        ev matches SyncEvent::SnapshotRequest { response_key } ==> *final(chain) == *old(chain)
            && *final(pool) == *old(pool) && (r matches SyncAction::PublishSnapshot {
            key,
            blocks,
            difficulty,
        } ==> key@ == response_key@ && blocks_view(blocks@) == old(chain).chain() && difficulty
            == old(chain).difficulty) && (r is PublishSnapshot),
        ev matches SyncEvent::NewBlock(b) ==> *final(pool) == *old(pool) && (r is Accepted || r
            is Rejected) && (r is Rejected ==> *final(chain) == *old(chain)) && (r is Accepted
            ==> final(chain).chain() == old(chain).chain().push(b@) || final(chain).chain()
            == old(chain).chain() || crate::blockchain::spec_cumulative_work(
            final(chain).chain(),
        ) > crate::blockchain::spec_cumulative_work(old(chain).chain())),
        ev matches SyncEvent::NewTransaction(t) ==> *final(chain) == *old(chain) && (r
            is Accepted || r is Rejected) && (old(pool).entries@.len() < MAX_POOL_SIZE ==> (r
            is Accepted <==> spec_admits(old(pool).entries@, t@, now_ms))) && (r is Accepted ==> pool_contains_hash(final(pool).entries@, t@.tx_hash)),
        ev is Plain ==> *final(chain) == *old(chain) && *final(pool) == *old(pool) && r
            is Ignored,
{
    match ev {
        SyncEvent::SnapshotRequest { response_key } => {
            // a snapshot of the committed chain, stripped of forks and balances
            let blocks = chain.get_blocks_from(0);
            proof {
                assert(chain.chain().skip(0) =~= chain.chain());
            }
            SyncAction::PublishSnapshot { key: response_key, blocks, difficulty: chain.difficulty }
        },
        SyncEvent::NewBlock(b) => {
            match chain.receive_block_at(b, now_ms) {
                Ok(()) => SyncAction::Accepted,
                Err(_) => SyncAction::Rejected,
            }
        },
        SyncEvent::NewTransaction(t) => {
            match pool.add_transaction_at(t, now_ms) {
                Ok(()) => SyncAction::Accepted,
                Err(_) => SyncAction::Rejected,
            }
        },
        SyncEvent::Plain => SyncAction::Ignored,
    }
}


/// Assemble, mine and commit one block of pending transactions at time
/// `now_ms`: selection under the default budgets, proof of work, commit,
/// and the post-commit pool sweep. On an error neither chain nor pool
/// changes. On success the chain grew by the mined block, which meets the
/// difficulty, and no pool entry remains at or below a committed nonce.
pub fn mine_pending_block(
    chain: &mut Blockchain,
    pool: &mut TransactionPool,
    now_ms: u128,
) -> (r: Result<Block, &'static str>)
    requires
        old(chain).wf(),
        old(pool).wf(),
    ensures
        final(chain).wf(),
        final(pool).wf(),
        final(chain).difficulty == old(chain).difficulty,
        r matches Ok(b) ==> final(chain).chain() == old(chain).chain().push(b@)
            && crate::blockchain::hash_meets_difficulty(b@.hash, old(chain).difficulty as int)
            && b@.hash == crate::block::spec_block_hash(b@),
        r is Ok ==> forall|i: int|
            0 <= i < final(pool).entries@.len() ==> (#[trigger] final(pool).entries@[i])
                .transaction@.data.nonce > final(pool).nonce_tracker.spec_nonce(
                final(pool).entries@[i].transaction@.data.sender,
            ),
        r is Err ==> *final(chain) == *old(chain) && *final(pool) == *old(pool),
{
    let transactions = pool.get_transactions_4_block(
        crate::constants::MAX_TRANSACTIONS_PER_BLOCK,
    );
    let mut candidate = match chain.create_block_at(transactions, now_ms) {
        Ok(b) => b,
        Err(e) => {
            return Err(e);
        },
    };
    match chain.mine_block(&mut candidate) {
        Ok(()) => {},
        Err(_) => {
            return Err("Mining timed out - adjust difficulty");
        },
    }
    let mined = candidate.duplicate();
    match chain.add_block_at(candidate, now_ms) {
        Ok(()) => {},
        Err(_) => {
            return Err("Mined block failed validation");
        },
    }
    pool.process_block(&mined.transactions);
    Ok(mined)
}

} // verus!
