//! Merkle commitments over transaction hashes: tree construction, root
//! computation, inclusion proofs, and their verification. A proof built by
//! `generate_proof` provably folds back to the tree's root.
use vstd::prelude::*;

use crate::bytemap::bytes_eq;
use crate::bytemap::clone_bytes;
use crate::crypto::sha256;
use crate::crypto::sha256_of;
use crate::transaction::Transaction;

verus! {

pub type MerkleHash = Vec<u8>;

/// The digest of two child hashes laid side by side.
pub open spec fn hash_pair_spec(l: Seq<u8>, r: Seq<u8>) -> Seq<u8> {
    sha256_of(l + r)
}

/// One level up: adjacent entries pairwise hashed, a trailing odd entry
/// paired with itself.
pub open spec fn parent_level(level: Seq<Seq<u8>>) -> Seq<Seq<u8>> {
    Seq::new(
        ((level.len() + 1) / 2) as nat,
        |i: int|
            hash_pair_spec(
                level[2 * i],
                if 2 * i + 1 < level.len() {
                    level[2 * i + 1]
                } else {
                    level[2 * i]
                },
            ),
    )
}

/// The root reached by hashing a level up to a single entry.
pub open spec fn root_of_level(level: Seq<Seq<u8>>) -> Seq<u8>
    decreases level.len(),
{
    if level.len() == 0 {
        Seq::empty()
    } else if level.len() == 1 {
        level[0]
    } else {
        root_of_level(parent_level(level))
    }
}

/// Leaves padded to even length by duplicating the last.
pub open spec fn spec_merkle_pad(leaves: Seq<Seq<u8>>) -> Seq<Seq<u8>> {
    if leaves.len() % 2 == 1 {
        leaves.push(leaves.last())
    } else {
        leaves
    }
}

/// The Merkle root over a sequence of leaf hashes.
pub open spec fn spec_merkle_root(leaves: Seq<Seq<u8>>) -> Seq<u8> {
    root_of_level(spec_merkle_pad(leaves))
}

/// The sibling path from position `i` of a level up to the root. Each
/// entry carries the sibling hash and whether that sibling sits on the
/// right of the climbing hash.
pub open spec fn spec_merkle_path(level: Seq<Seq<u8>>, i: int) -> Seq<(Seq<u8>, bool)>
    decreases level.len(),
{
    if level.len() <= 1 {
        Seq::empty()
    } else {
        let entry = if i % 2 == 1 {
            (level[i - 1], false)
        } else {
            (
                if i + 1 < level.len() {
                    level[i + 1]
                } else {
                    level[i]
                },
                true,
            )
        };
        seq![entry] + spec_merkle_path(parent_level(level), i / 2)
    }
}

/// Fold a leaf hash up a sibling path.
pub open spec fn spec_merkle_fold(leaf: Seq<u8>, path: Seq<(Seq<u8>, bool)>) -> Seq<u8>
    decreases path.len(),
{
    if path.len() == 0 {
        leaf
    } else {
        let step = if path[0].1 {
            hash_pair_spec(leaf, path[0].0)
        } else {
            hash_pair_spec(path[0].0, leaf)
        };
        spec_merkle_fold(step, path.drop_first())
    }
}

proof fn lemma_fold_push(leaf: Seq<u8>, path: Seq<(Seq<u8>, bool)>, entry: (Seq<u8>, bool))
    ensures
        entry.1 ==> spec_merkle_fold(leaf, path.push(entry)) == hash_pair_spec(
            spec_merkle_fold(leaf, path),
            entry.0,
        ),
        !entry.1 ==> spec_merkle_fold(leaf, path.push(entry)) == hash_pair_spec(
            entry.0,
            spec_merkle_fold(leaf, path),
        ),
    decreases path.len(),
{
    if path.len() == 0 {
        reveal_with_fuel(spec_merkle_fold, 2);
        assert(path.push(entry)[0] == entry);
        assert(path.push(entry).drop_first() =~= Seq::<(Seq<u8>, bool)>::empty());
        assert(spec_merkle_fold(leaf, path) == leaf);
    } else {
        assert(path.push(entry)[0] == path[0]);
        assert(path.push(entry).drop_first() =~= path.drop_first().push(entry));
        let step = if path[0].1 {
            hash_pair_spec(leaf, path[0].0)
        } else {
            hash_pair_spec(path[0].0, leaf)
        };
        lemma_fold_push(step, path.drop_first(), entry);
        assert(spec_merkle_fold(leaf, path.push(entry)) == spec_merkle_fold(
            step,
            path.drop_first().push(entry),
        ));
        assert(spec_merkle_fold(leaf, path) == spec_merkle_fold(step, path.drop_first()));
    }
}

/// Folding the path generated at a position reconstructs the level's root.
pub proof fn lemma_path_folds_to_root(level: Seq<Seq<u8>>, i: int)
    requires
        0 <= i < level.len(),
    ensures
        spec_merkle_fold(level[i], spec_merkle_path(level, i)) == root_of_level(level),
    decreases level.len(),
{
    if level.len() == 1 {
    } else {
        let p = parent_level(level);
        let path = spec_merkle_path(level, i);
        assert(p.len() == (level.len() + 1) / 2);
        assert(0 <= i / 2 < p.len());
        let step = if path[0].1 {
            hash_pair_spec(level[i], path[0].0)
        } else {
            hash_pair_spec(path[0].0, level[i])
        };
        if i % 2 == 1 {
            assert(2 * (i / 2) == i - 1);
            assert(p[i / 2] == hash_pair_spec(level[i - 1], level[i]));
            assert(step == p[i / 2]);
        } else {
            assert(2 * (i / 2) == i);
            if i + 1 < level.len() {
                assert(p[i / 2] == hash_pair_spec(level[i], level[i + 1]));
            } else {
                assert(p[i / 2] == hash_pair_spec(level[i], level[i]));
            }
            assert(step == p[i / 2]);
        }
        assert(path.drop_first() =~= spec_merkle_path(p, i / 2));
        lemma_path_folds_to_root(p, i / 2);
    }
}


/// Index of the first leaf equal to `tx_hash`, if any.
fn find_hash_index(leaves: &Vec<MerkleHash>, tx_hash: &Vec<u8>) -> (r: Option<usize>)
    ensures
        r matches Some(i) ==> i < leaves@.len() && leaves@[i as int]@ == tx_hash@,
        r is None ==> forall|j: int| 0 <= j < leaves@.len() ==> leaves@[j]@ != tx_hash@,
{
    let mut i: usize = 0;
    while i < leaves.len()
        invariant
            i <= leaves@.len(),
            forall|j: int| 0 <= j < i ==> leaves@[j]@ != tx_hash@,
        decreases leaves@.len() - i,
    {
        if bytes_eq(&leaves[i], tx_hash) {
            return Some(i);
        }
        i = i + 1;
    }
    None
}

/// The level above: adjacent hashes pairwise hashed, a trailing odd hash
/// paired with itself.
fn level_up(level: &Vec<MerkleHash>) -> (r: Vec<MerkleHash>)
    ensures
        hashes_view(r@) == parent_level(hashes_view(level@)),
{
    let n = level.len();
    let mut parents: Vec<MerkleHash> = Vec::new();
    let mut i: usize = 0;
    while i < n
        invariant
            n == level@.len(),
            i <= n,
            (i % 2 == 0 && parents@.len() == i / 2) || (i == n && parents@.len() == (n + 1) / 2),
            forall|j: int|
                0 <= j < parents@.len() ==> parents@[j]@ == parent_level(hashes_view(level@))[j],
        decreases n - i,
    {
        if i + 1 < n {
            let h = hash_pair(&level[i], &level[i + 1]);
            parents.push(h);
            i = i + 2;
        } else {
            let h = hash_pair(&level[i], &level[i]);
            parents.push(h);
            i = i + 1;
        }
    }
    proof {
        assert(hashes_view(parents@) =~= parent_level(hashes_view(level@)));
    }
    parents
}

/// One node of a Merkle tree: two optional children and a hash.
pub struct MerkleNode {
    pub left: Option<Box<MerkleNode>>,
    pub right: Option<Box<MerkleNode>>,
    pub hash: MerkleHash,
}

/// A Merkle tree: its root node, if any, and the unpadded leaf hashes.
pub struct MerkleTree {
    pub root: Option<Box<MerkleNode>>,
    pub leaves: Vec<MerkleHash>,
}

/// A sibling path; the bool of an entry says the sibling is on the right.
pub struct MerkleProof {
    pub proof: Vec<(MerkleHash, bool)>,
}

/// The leaf hashes as a sequence of byte sequences.
pub open spec fn hashes_view(v: Seq<Vec<u8>>) -> Seq<Seq<u8>> {
    Seq::new(v.len(), |i: int| v[i]@)
}

/// The sibling path as a sequence of (bytes, side) pairs.
pub open spec fn proof_view(p: Seq<(Vec<u8>, bool)>) -> Seq<(Seq<u8>, bool)> {
    Seq::new(p.len(), |i: int| (p[i].0@, p[i].1))
}

/// The digest of two hashes laid side by side.
pub fn hash_pair(left: &Vec<u8>, right: &Vec<u8>) -> (r: Vec<u8>)
    ensures
        r@ == hash_pair_spec(left@, right@),
        r@.len() == 32,
{
    let mut joined = clone_bytes(left);
    let mut i: usize = 0;
    while i < right.len()
        invariant
            i <= right@.len(),
            joined@ == left@ + right@.subrange(0, i as int),
        decreases right@.len() - i,
    {
        joined.push(right[i]);
        proof {
            assert(right@.subrange(0, i + 1) =~= right@.subrange(0, i as int).push(
                right@[i as int],
            ));
        }
        i = i + 1;
    }
    proof {
        assert(right@.subrange(0, right@.len() as int) =~= right@);
    }
    sha256(joined.as_slice())
}

impl MerkleTree {
    /// The root node, if any, carries the Merkle root of the leaves.
    pub open spec fn wf(&self) -> bool {
        &&& (self.root is Some <==> self.leaves@.len() > 0)
        &&& (match self.root {
            Some(n) => n.hash@ == spec_merkle_root(hashes_view(self.leaves@)),
            None => true,
        })
    }

    /// Build a tree over the hashes of `transactions`, in order.
    pub fn new(transactions: &Vec<Transaction>) -> (r: Self)
        ensures
            r.wf(),
            hashes_view(r.leaves@) == Seq::new(
                transactions@.len(),
                |i: int| transactions@[i].tx_hash@,
            ),
    {
        let mut hashes: Vec<MerkleHash> = Vec::new();
        let mut i: usize = 0;
        while i < transactions.len()
            invariant
                i <= transactions@.len(),
                hashes@.len() == i,
                forall|j: int| 0 <= j < i ==> hashes@[j]@ == transactions@[j].tx_hash@,
            decreases transactions@.len() - i,
        {
            hashes.push(clone_bytes(&transactions[i].tx_hash));
            i = i + 1;
        }
        let r = Self::from_hashes(hashes);
        proof {
            assert(hashes_view(r.leaves@) =~= Seq::new(
                transactions@.len(),
                |i: int| transactions@[i].tx_hash@,
            ));
        }
        r
    }

    /// Build a tree over given leaf hashes, in order.
    pub fn from_hashes(hashes: Vec<MerkleHash>) -> (r: Self)
        ensures
            r.wf(),
            hashes_view(r.leaves@) == hashes_view(hashes@),
    {
        if hashes.len() == 0 {
            return MerkleTree { root: None, leaves: hashes };
        }
        let mut padded: Vec<MerkleHash> = Vec::new();
        let mut i: usize = 0;
        while i < hashes.len()
            invariant
                i <= hashes@.len(),
                padded@.len() == i,
                forall|j: int| 0 <= j < i ==> padded@[j]@ == hashes@[j]@,
            decreases hashes@.len() - i,
        {
            padded.push(clone_bytes(&hashes[i]));
            i = i + 1;
        }
        if padded.len() % 2 == 1 {
            let last = clone_bytes(&padded[padded.len() - 1]);
            padded.push(last);
        }
        proof {
            assert(hashes_view(padded@) =~= spec_merkle_pad(hashes_view(hashes@)));
        }
        let mut nodes: Vec<Box<MerkleNode>> = Vec::new();
        let mut k: usize = 0;
        while k < padded.len()
            invariant
                k <= padded@.len(),
                nodes@.len() == k,
                forall|j: int| 0 <= j < k ==> nodes@[j].hash@ == padded@[j]@,
            decreases padded@.len() - k,
        {
            nodes.push(
                Box::new(
                    MerkleNode { left: None, right: None, hash: clone_bytes(&padded[k]) },
                ),
            );
            k = k + 1;
        }
        proof {
            assert(node_hashes(nodes@) =~= hashes_view(padded@));
        }
        let root = Self::build_tree(nodes);
        MerkleTree { root: Some(root), leaves: hashes }
    }

    /// Hash pairs of nodes upward until a single root node remains; a
    /// trailing odd node is paired with a copy of its own hash.
    pub fn build_tree(nodes: Vec<Box<MerkleNode>>) -> (r: Box<MerkleNode>)
        requires
            nodes@.len() >= 1,
        ensures
            r.hash@ == root_of_level(node_hashes(nodes@)),
        decreases nodes@.len(),
    {
        let ghost lvl = node_hashes(nodes@);
        if nodes.len() == 1 {
            let mut nodes = nodes;
            let n = nodes.pop().unwrap();
            return n;
        }
        let mut nodes = nodes;
        let mut parents: Vec<Box<MerkleNode>> = Vec::new();
        let ghost n = lvl.len();
        let mut i: usize = 0;
        while nodes.len() > 0
            invariant
                n == lvl.len(),
                n <= usize::MAX,
                i <= n,
                i + nodes@.len() == n,
                node_hashes(nodes@) =~= lvl.skip(i as int),
                (i % 2 == 0 && parents@.len() == i / 2) || (i == n && parents@.len() == (n + 1)
                    / 2),
                forall|j: int|
                    0 <= j < parents@.len() ==> parents@[j].hash@ == parent_level(lvl)[j],
            decreases nodes@.len(),
        {
            proof {
                assert(lvl.skip(i as int)[0] == lvl[i as int]);
            }
            let ghost prev = nodes@;
            if nodes.len() >= 2 {
                proof {
                    assert(lvl.skip(i as int)[1] == lvl[i + 1]);
                }
                let left = nodes.remove(0);
                let right = nodes.remove(0);
                let parent_hash = hash_pair(&left.hash, &right.hash);
                parents.push(
                    Box::new(
                        MerkleNode { left: Some(left), right: Some(right), hash: parent_hash },
                    ),
                );
                proof {
                    assert forall|j: int| 0 <= j < nodes@.len() implies nodes@[j].hash@ == lvl[i
                        + 2 + j] by {
                        assert(nodes@[j] == prev[j + 2]);
                        assert(node_hashes(prev)[j + 2] == lvl.skip(i as int)[j + 2]);
                    }
                    assert(node_hashes(nodes@) =~= lvl.skip(i + 2));
                    assert(parents@.last().hash@ == hash_pair_spec(lvl[i as int], lvl[i + 1]));
                    assert(parent_level(lvl)[i as int / 2] == hash_pair_spec(
                        lvl[2 * (i as int / 2)],
                        lvl[2 * (i as int / 2) + 1],
                    ));
                }
                i = i + 2;
            } else {
                let left = nodes.remove(0);
                let twin = Box::new(
                    MerkleNode { left: None, right: None, hash: clone_bytes(&left.hash) },
                );
                let parent_hash = hash_pair(&left.hash, &left.hash);
                parents.push(
                    Box::new(
                        MerkleNode { left: Some(left), right: Some(twin), hash: parent_hash },
                    ),
                );
                proof {
                    assert(nodes@.len() == 0);
                    assert(node_hashes(nodes@) =~= lvl.skip(i + 1));
                    assert(i + 1 == n);
                    assert(parents@.last().hash@ == hash_pair_spec(lvl[i as int], lvl[i as int]));
                    assert(parent_level(lvl)[i as int / 2] == hash_pair_spec(
                        lvl[2 * (i as int / 2)],
                        lvl[2 * (i as int / 2)],
                    ));
                }
                i = i + 1;
            }
        }
        proof {
            assert(i == n);
            assert(parents@.len() == (n + 1) / 2);
            assert(node_hashes(parents@) =~= parent_level(lvl));
        }
        Self::build_tree(parents)
    }

    /// The root hash; None exactly for the empty tree.
    pub fn get_root_hash(&self) -> (r: Option<MerkleHash>)
        requires
            self.wf(),
        ensures
            r is Some <==> self.leaves@.len() > 0,
            r matches Some(h) ==> h@ == spec_merkle_root(hashes_view(self.leaves@)),
    {
        match &self.root {
            Some(node) => Some(clone_bytes(&node.hash)),
            None => None,
        }
    }

    /// The leaf hashes, in order.
    pub fn get_leaves(&self) -> (r: &Vec<MerkleHash>)
        ensures
            r == self.leaves,
    {
        &self.leaves
    }

    /// A sibling path for `tx_hash`; None exactly where no leaf carries it.
    /// A returned path folds from `tx_hash` to this tree's Merkle root.
    pub fn generate_proof(&self, tx_hash: &Vec<u8>) -> (r: Option<MerkleProof>)
        requires
            self.wf(),
        ensures
            r is Some <==> exists|i: int|
                0 <= i < self.leaves@.len() && hashes_view(self.leaves@)[i] == tx_hash@,
            r matches Some(p) ==> spec_merkle_fold(tx_hash@, proof_view(p.proof@))
                == spec_merkle_root(hashes_view(self.leaves@)),
    {
        let n = self.leaves.len();
        let leaf_index = match find_hash_index(&self.leaves, tx_hash) {
            Some(idx) => idx,
            None => {
                return None;
            },
        };
        // climb the padded levels, collecting the sibling at each
        let mut level: Vec<MerkleHash> = Vec::new();
        let mut k: usize = 0;
        while k < n
            invariant
                n == self.leaves@.len(),
                k <= n,
                level@.len() == k,
                forall|j: int| 0 <= j < k ==> level@[j]@ == self.leaves@[j]@,
            decreases n - k,
        {
            level.push(clone_bytes(&self.leaves[k]));
            k = k + 1;
        }
        if level.len() % 2 == 1 {
            let last = clone_bytes(&level[level.len() - 1]);
            level.push(last);
        }
        proof {
            assert(hashes_view(level@) =~= spec_merkle_pad(hashes_view(self.leaves@)));
        }
        let ghost level0 = hashes_view(level@);
        let ghost idx0 = leaf_index as int;
        let mut path: Vec<(MerkleHash, bool)> = Vec::new();
        let mut idx = leaf_index;
        proof {
            assert(proof_view(path@) =~= Seq::<(Seq<u8>, bool)>::empty());
            assert(spec_merkle_path(level0, idx0) =~= proof_view(path@) + spec_merkle_path(
                level0,
                idx0,
            ));
        }
        while level.len() > 1
            invariant
                idx < level@.len(),
                spec_merkle_path(level0, idx0) == proof_view(path@) + spec_merkle_path(
                    hashes_view(level@),
                    idx as int,
                ),
            decreases level@.len(),
        {
            let ghost cur = hashes_view(level@);
            let entry = if idx % 2 == 1 {
                (clone_bytes(&level[idx - 1]), false)
            } else {
                if idx + 1 < level.len() {
                    (clone_bytes(&level[idx + 1]), true)
                } else {
                    (clone_bytes(&level[idx]), true)
                }
            };
            path.push(entry);
            proof {
                assert(proof_view(path@) =~= proof_view(path@.drop_last()) + seq![
                    (path@.last().0@, path@.last().1),
                ]);
                assert(spec_merkle_path(cur, idx as int) == seq![
                    (path@.last().0@, path@.last().1),
                ] + spec_merkle_path(parent_level(cur), idx as int / 2));
                assert(spec_merkle_path(level0, idx0) =~= proof_view(path@) + spec_merkle_path(
                    parent_level(cur),
                    idx as int / 2,
                ));
            }
            level = level_up(&level);
            idx = idx / 2;
            proof {
                assert(idx < level@.len());
            }
        }
        proof {
            assert(spec_merkle_path(hashes_view(level@), idx as int) =~= Seq::<
                (Seq<u8>, bool),
            >::empty());
            assert(spec_merkle_path(level0, idx0) =~= proof_view(path@));
            lemma_path_folds_to_root(level0, idx0);
            assert(level0[idx0] == tx_hash@);
        }
        Some(MerkleProof { proof: path })
    }

    /// Fold `tx_hash` up `proof` and compare with `root_hash`.
    pub fn verify_proof(root_hash: &Vec<u8>, tx_hash: &Vec<u8>, proof: &MerkleProof) -> (r: bool)
        ensures
            r == (spec_merkle_fold(tx_hash@, proof_view(proof.proof@)) == root_hash@),
    {
        let mut current = clone_bytes(tx_hash);
        let n = proof.proof.len();
        let mut i: usize = 0;
        while i < n
            invariant
                n == proof.proof@.len(),
                i <= n,
                current@ == spec_merkle_fold(tx_hash@, proof_view(proof.proof@.subrange(0, i as int))),
            decreases n - i,
        {
            proof {
                assert(proof_view(proof.proof@.subrange(0, i + 1)) =~= proof_view(
                    proof.proof@.subrange(0, i as int),
                ).push((proof.proof@[i as int].0@, proof.proof@[i as int].1)));
                lemma_fold_push(
                    tx_hash@,
                    proof_view(proof.proof@.subrange(0, i as int)),
                    (proof.proof@[i as int].0@, proof.proof@[i as int].1),
                );
            }
            let (sibling, is_right) = &proof.proof[i];
            if *is_right {
                current = hash_pair(&current, sibling);
            } else {
                current = hash_pair(sibling, &current);
            }
            i = i + 1;
        }
        proof {
            assert(proof.proof@.subrange(0, n as int) =~= proof.proof@);
        }
        bytes_eq(&current, root_hash)
    }
}

/// The hashes of a sequence of nodes.
pub open spec fn node_hashes(nodes: Seq<Box<MerkleNode>>) -> Seq<Seq<u8>> {
    Seq::new(nodes.len(), |i: int| nodes[i].hash@)
}

} // verus!
