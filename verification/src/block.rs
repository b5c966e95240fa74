//! Blocks: a header committing to a Merkle root over the contained
//! transactions, hashed for proof-of-work over every field but the
//! transaction list itself.
use vstd::prelude::*;

use crate::bytemap::clone_bytes;
use crate::crypto::sha256;
use crate::crypto::sha256_of;
use crate::merkle::MerkleProof;
use crate::merkle::MerkleTree;
use crate::merkle::hashes_view;
use crate::merkle::proof_view;
use crate::merkle::spec_merkle_fold;
use crate::merkle::spec_merkle_root;
use crate::now;
use crate::spec_u128_bytes;
use crate::spec_u32_bytes;
use crate::spec_u64_bytes;
use crate::transaction::Transaction;
use crate::transaction::TxV;
use crate::bytemap::bytes_eq;
use crate::u128_to_bytes;
use crate::u32_to_bytes;
use crate::u64_to_bytes;

verus! {

pub type BHash = Vec<u8>;

pub struct Block {
    pub index: u32,
    pub timestamp: u128,
    pub hash: BHash,
    pub prev_hash: BHash,
    pub nonce: u64,
    pub merkle_root: BHash,
    pub transactions: Vec<Transaction>,
    pub tx_count: u32,
}

pub struct BlockHeader {
    pub index: u32,
    pub timestamp: u128,
    pub hash: BHash,
    pub prev_hash: BHash,
    pub nonce: u64,
    pub merkle_root: BHash,
    pub tx_count: u32,
}

/// Mathematical shape of a block.
pub struct BlockV {
    pub index: u32,
    pub timestamp: u128,
    pub hash: Seq<u8>,
    pub prev_hash: Seq<u8>,
    pub nonce: u64,
    pub merkle_root: Seq<u8>,
    pub transactions: Seq<TxV>,
    pub tx_count: u32,
}

/// The transactions of a block as their mathematical shapes.
pub open spec fn txs_view(s: Seq<Transaction>) -> Seq<TxV> {
    Seq::new(s.len(), |i: int| s[i]@)
}

/// The hashes the transactions carry, in order.
pub open spec fn tx_hashes_of(txs: Seq<TxV>) -> Seq<Seq<u8>> {
    Seq::new(txs.len(), |i: int| txs[i].tx_hash)
}

impl View for Block {
    type V = BlockV;

    open spec fn view(&self) -> BlockV {
        BlockV {
            index: self.index,
            timestamp: self.timestamp,
            hash: self.hash@,
            prev_hash: self.prev_hash@,
            nonce: self.nonce,
            merkle_root: self.merkle_root@,
            transactions: txs_view(self.transactions@),
            tx_count: self.tx_count,
        }
    }
}

/// The 32-byte zero hash: genesis links and the empty tree's sentinel.
pub open spec fn zero_hash32() -> Seq<u8> {
    Seq::new(32, |i: int| 0u8)
}

/// The Merkle root a block must commit to: the root over its transaction
/// hashes, or the zero sentinel where it carries none.
pub open spec fn spec_block_merkle_root(txs: Seq<TxV>) -> Seq<u8> {
    if txs.len() == 0 {
        zero_hash32()
    } else {
        spec_merkle_root(tx_hashes_of(txs))
    }
}

/// The bytes a block hash is taken over: every header field except the
/// hash itself; the transaction list is covered by the Merkle root.
pub open spec fn spec_block_bytes(b: BlockV) -> Seq<u8> {
    spec_u32_bytes(b.index) + spec_u128_bytes(b.timestamp) + b.prev_hash + spec_u64_bytes(b.nonce)
        + b.merkle_root + spec_u32_bytes(b.tx_count)
}

/// A block's hash: the digest of its header bytes.
pub open spec fn spec_block_hash(b: BlockV) -> Seq<u8> {
    sha256_of(spec_block_bytes(b))
}

/// A 32-byte vector of zeroes.
pub fn zero_hash_vec() -> (r: Vec<u8>)
    ensures
        r@ == zero_hash32(),
{
    let mut v: Vec<u8> = Vec::new();
    let mut i: usize = 0;
    while i < 32
        invariant
            i <= 32,
            v@.len() == i,
            forall|j: int| 0 <= j < i ==> v@[j] == 0u8,
        decreases 32 - i,
    {
        v.push(0u8);
        i = i + 1;
    }
    proof {
        assert(v@ =~= zero_hash32());
    }
    v
}

fn append_bytes(out: &mut Vec<u8>, b: &Vec<u8>)
    ensures
        final(out)@ == old(out)@ + b@,
{
    let mut i: usize = 0;
    while i < b.len()
        invariant
            i <= b@.len(),
            out@ == old(out)@ + b@.subrange(0, i as int),
        decreases b@.len() - i,
    {
        out.push(b[i]);
        proof {
            assert(b@.subrange(0, i + 1) =~= b@.subrange(0, i as int).push(b@[i as int]));
        }
        i = i + 1;
    }
    proof {
        assert(b@.subrange(0, b@.len() as int) =~= b@);
    }
}

fn append_array(out: &mut Vec<u8>, b: &[u8])
    ensures
        final(out)@ == old(out)@ + b@,
{
    let mut i: usize = 0;
    while i < b.len()
        invariant
            i <= b@.len(),
            out@ == old(out)@ + b@.subrange(0, i as int),
        decreases b@.len() - i,
    {
        out.push(b[i]);
        proof {
            assert(b@.subrange(0, i + 1) =~= b@.subrange(0, i as int).push(b@[i as int]));
        }
        i = i + 1;
    }
    proof {
        assert(b@.subrange(0, b@.len() as int) =~= b@);
    }
}

impl Block {
    /// Assemble a block: the Merkle root is computed over the transaction
    /// hashes (zero sentinel when empty), the hash field starts zeroed.
    pub fn new(
        index: u32,
        timestamp: u128,
        prev_hash: BHash,
        nonce: u64,
        transactions: Vec<Transaction>,
    ) -> (r: Self)
        requires
            transactions@.len() <= u32::MAX,
        ensures
            r@.index == index,
            r@.timestamp == timestamp,
            r@.hash == zero_hash32(),
            r@.prev_hash == prev_hash@,
            r@.nonce == nonce,
            r@.merkle_root == spec_block_merkle_root(txs_view(transactions@)),
            r@.transactions == txs_view(transactions@),
            r@.tx_count == transactions@.len(),
    {
        let merkle_tree = MerkleTree::new(&transactions);
        let merkle_root = match merkle_tree.get_root_hash() {
            Some(root) => root,
            None => zero_hash_vec(),
        };
        proof {
            assert(hashes_view(merkle_tree.leaves@) == tx_hashes_of(txs_view(transactions@)));
        }
        let tx_count = transactions.len() as u32;
        let r = Block {
            index,
            timestamp,
            hash: zero_hash_vec(),
            prev_hash,
            nonce,
            merkle_root,
            transactions,
            tx_count,
        };
        r
    }

    /// The genesis block: index 0, zero links, no transactions, stamped
    /// with the current wall clock.
    pub fn genesis() -> (r: Self)
        ensures
            r@.index == 0,
            r@.hash == zero_hash32(),
            r@.prev_hash == zero_hash32(),
            r@.nonce == 0,
            r@.merkle_root == zero_hash32(),
            r@.transactions =~= Seq::<TxV>::empty(),
            r@.tx_count == 0,
    {
        Block {
            index: 0,
            timestamp: now(),
            hash: zero_hash_vec(),
            prev_hash: zero_hash_vec(),
            nonce: 0,
            merkle_root: zero_hash_vec(),
            transactions: Vec::new(),
            tx_count: 0,
        }
    }

    /// The bytes this block's hash is taken over.
    pub fn bytes(&self) -> (r: Vec<u8>)
        ensures
            r@ == spec_block_bytes(self@),
    {
        let mut out: Vec<u8> = Vec::new();
        append_array(&mut out, &u32_to_bytes(&self.index));
        append_array(&mut out, &u128_to_bytes(&self.timestamp));
        append_bytes(&mut out, &self.prev_hash);
        append_array(&mut out, &u64_to_bytes(&self.nonce));
        append_bytes(&mut out, &self.merkle_root);
        append_array(&mut out, &u32_to_bytes(&self.tx_count));
        proof {
            assert(out@ =~= spec_block_bytes(self@));
        }
        out
    }

    /// This block's hash, recomputed from its current header fields.
    pub fn compute_hash(&self) -> (r: Vec<u8>)
        ensures
            r@ == spec_block_hash(self@),
            r@.len() == 32,
    {
        let b = self.bytes();
        sha256(b.as_slice())
    }

    /// The contained transaction carrying `tx_hash`, if any.
    pub fn get_transaction(&self, tx_hash: &Vec<u8>) -> (r: Option<&Transaction>)
        ensures
            r is Some <==> exists|i: int|
                0 <= i < self@.transactions.len() && self@.transactions[i].tx_hash == tx_hash@,
            r matches Some(tx) ==> tx@.tx_hash == tx_hash@,
    {
        let n = self.transactions.len();
        let mut i: usize = 0;
        while i < n
            invariant
                n == self.transactions@.len(),
                i <= n,
                forall|j: int| 0 <= j < i ==> txs_view(self.transactions@)[j].tx_hash != tx_hash@,
            decreases n - i,
        {
            if bytes_eq(&self.transactions[i].tx_hash, tx_hash) {
                proof {
                    assert(self@.transactions[i as int].tx_hash == tx_hash@);
                }
                return Some(&self.transactions[i]);
            }
            i = i + 1;
        }
        None
    }

    /// Whether `proof` folds `tx_hash` to this block's Merkle root.
    pub fn verify_transaction_inclusion(&self, tx_hash: &Vec<u8>, proof: &MerkleProof) -> (r: bool)
        ensures
            r == (spec_merkle_fold(tx_hash@, proof_view(proof.proof@)) == self@.merkle_root),
    {
        MerkleTree::verify_proof(&self.merkle_root, tx_hash, proof)
    }

    /// A sibling path for `tx_hash` over this block's transactions; the
    /// path folds back to the root over those transactions.
    pub fn generate_inclusion_proof(&self, tx_hash: &Vec<u8>) -> (r: Option<MerkleProof>)
        ensures
            r is Some <==> exists|i: int|
                0 <= i < self@.transactions.len() && self@.transactions[i].tx_hash == tx_hash@,
            r matches Some(p) ==> spec_merkle_fold(tx_hash@, proof_view(p.proof@))
                == spec_merkle_root(tx_hashes_of(self@.transactions)),
    {
        let merkle_tree = MerkleTree::new(&self.transactions);
        proof {
            assert(hashes_view(merkle_tree.leaves@) == tx_hashes_of(self@.transactions));
        }
        let r = merkle_tree.generate_proof(tx_hash);
        proof {
            let lv = hashes_view(merkle_tree.leaves@);
            if r is Some {
                let i = choose|i: int|
                    0 <= i < merkle_tree.leaves@.len() && lv[i] == tx_hash@;
                assert(self@.transactions[i].tx_hash == tx_hash@);
            }
            if exists|i: int|
                0 <= i < self@.transactions.len() && self@.transactions[i].tx_hash == tx_hash@ {
                let i = choose|i: int|
                    0 <= i < self@.transactions.len() && self@.transactions[i].tx_hash
                        == tx_hash@;
                assert(lv[i] == tx_hash@);
            }
        }
        r
    }

    /// The header: every field but the transaction list.
    pub fn get_header(&self) -> (r: BlockHeader)
        ensures
            r.index == self@.index,
            r.timestamp == self@.timestamp,
            r.hash@ == self@.hash,
            r.prev_hash@ == self@.prev_hash,
            r.nonce == self@.nonce,
            r.merkle_root@ == self@.merkle_root,
            r.tx_count == self@.tx_count,
    {
        BlockHeader {
            index: self.index,
            timestamp: self.timestamp,
            hash: clone_bytes(&self.hash),
            prev_hash: clone_bytes(&self.prev_hash),
            nonce: self.nonce,
            merkle_root: clone_bytes(&self.merkle_root),
            tx_count: self.tx_count,
        }
    }

    /// A copy whose view equals the original's.
    pub fn duplicate(&self) -> (r: Self)
        ensures
            r@ == self@,
    {
        let mut txs: Vec<Transaction> = Vec::new();
        let n = self.transactions.len();
        let mut i: usize = 0;
        while i < n
            invariant
                n == self.transactions@.len(),
                i <= n,
                txs@.len() == i,
                forall|j: int| 0 <= j < i ==> txs@[j]@ == self.transactions@[j]@,
            decreases n - i,
        {
            txs.push(self.transactions[i].duplicate());
            i = i + 1;
        }
        let r = Block {
            index: self.index,
            timestamp: self.timestamp,
            hash: clone_bytes(&self.hash),
            prev_hash: clone_bytes(&self.prev_hash),
            nonce: self.nonce,
            merkle_root: clone_bytes(&self.merkle_root),
            transactions: txs,
            tx_count: self.tx_count,
        };
        proof {
            assert(txs_view(r.transactions@) =~= txs_view(self.transactions@));
        }
        r
    }
}

impl BlockHeader {
    /// The bytes a header hash is taken over; identical to the block's.
    pub fn bytes(&self) -> (r: Vec<u8>)
        ensures
            r@ == spec_u32_bytes(self.index) + spec_u128_bytes(self.timestamp) + self.prev_hash@
                + spec_u64_bytes(self.nonce) + self.merkle_root@ + spec_u32_bytes(self.tx_count),
    {
        let mut out: Vec<u8> = Vec::new();
        append_array(&mut out, &u32_to_bytes(&self.index));
        append_array(&mut out, &u128_to_bytes(&self.timestamp));
        append_bytes(&mut out, &self.prev_hash);
        append_array(&mut out, &u64_to_bytes(&self.nonce));
        append_bytes(&mut out, &self.merkle_root);
        append_array(&mut out, &u32_to_bytes(&self.tx_count));
        proof {
            assert(out@ =~= spec_u32_bytes(self.index) + spec_u128_bytes(self.timestamp)
                + self.prev_hash@ + spec_u64_bytes(self.nonce) + self.merkle_root@
                + spec_u32_bytes(self.tx_count));
        }
        out
    }

    /// A copy with equal fields.
    pub fn duplicate(&self) -> (r: Self)
        ensures
            r.index == self.index,
            r.timestamp == self.timestamp,
            r.hash@ == self.hash@,
            r.prev_hash@ == self.prev_hash@,
            r.nonce == self.nonce,
            r.merkle_root@ == self.merkle_root@,
            r.tx_count == self.tx_count,
    {
        BlockHeader {
            index: self.index,
            timestamp: self.timestamp,
            hash: clone_bytes(&self.hash),
            prev_hash: clone_bytes(&self.prev_hash),
            nonce: self.nonce,
            merkle_root: clone_bytes(&self.merkle_root),
            tx_count: self.tx_count,
        }
    }
}

} // verus!
