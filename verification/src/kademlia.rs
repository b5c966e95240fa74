//! The Kademlia overlay's local state: contacts, XOR distance, k-buckets
//! with least-recently-seen order, the routing table with its closest-node
//! query, and the proof-of-work gate of the JOIN handshake.
use vstd::prelude::*;

use crate::bytemap::bytes_eq;
use crate::bytemap::clone_bytes;
use crate::constants::DIFFICULTY;
use crate::constants::ID_LENGTH;
use crate::constants::K;
use crate::constants::N_BUCKETS;
use crate::crypto::sha256;
use crate::crypto::sha256_of;
use crate::spec_u64_bytes;
use crate::u64_to_bytes;

verus! {

/// A routing hint: node id, network address, and public key.
pub struct Contact {
    pub id: Vec<u8>,
    pub ip: Vec<u8>,
    pub port: u32,
    pub public_key: Vec<u8>,
}

/// Mathematical shape of a contact.
pub struct ContactV {
    pub id: Seq<u8>,
    pub ip: Seq<u8>,
    pub port: u32,
    pub public_key: Seq<u8>,
}

impl View for Contact {
    type V = ContactV;

    open spec fn view(&self) -> ContactV {
        ContactV { id: self.id@, ip: self.ip@, port: self.port, public_key: self.public_key@ }
    }
}

impl Contact {
    /// A copy whose view equals the original's.
    pub fn duplicate(&self) -> (r: Self)
        ensures
            r@ == self@,
    {
        Contact {
            id: clone_bytes(&self.id),
            ip: clone_bytes(&self.ip),
            port: self.port,
            public_key: clone_bytes(&self.public_key),
        }
    }
}

/// Whether `a` is strictly closer to `t` than `b` under the XOR metric,
/// compared from byte position `i` on.
pub open spec fn dist_less_from(a: Seq<u8>, b: Seq<u8>, t: Seq<u8>, i: int) -> bool
    decreases t.len() - i,
{
    if i < 0 || i >= a.len() || i >= b.len() || i >= t.len() {
        false
    } else if (a[i] ^ t[i]) < (b[i] ^ t[i]) {
        true
    } else if (a[i] ^ t[i]) > (b[i] ^ t[i]) {
        false
    } else {
        dist_less_from(a, b, t, i + 1)
    }
}

/// Whether `a` is strictly closer to `t` than `b`: byte-wise XOR
/// distances compared lexicographically.
pub open spec fn spec_dist_less(a: Seq<u8>, b: Seq<u8>, t: Seq<u8>) -> bool {
    dist_less_from(a, b, t, 0)
}

/// The XOR order is transitive in the sense sorting needs: what is not
/// closer than `p` is not closer than anything closer than `p`.
pub proof fn lemma_dist_less_trans(a: Seq<u8>, p: Seq<u8>, q: Seq<u8>, t: Seq<u8>, i: int)
    requires
        a.len() == t.len(),
        p.len() == t.len(),
        q.len() == t.len(),
        0 <= i,
        dist_less_from(a, p, t, i),
        !dist_less_from(q, p, t, i),
    ensures
        !dist_less_from(q, a, t, i),
    decreases t.len() - i,
{
    if i < t.len() {
        let av = a[i] ^ t[i];
        let pv = p[i] ^ t[i];
        let qv = q[i] ^ t[i];
        if av == pv && qv == pv {
            lemma_dist_less_trans(a, p, q, t, i + 1);
        }
    }
}

/// Compare XOR distances to `target`.
pub fn dist_less(a: &Vec<u8>, b: &Vec<u8>, target: &Vec<u8>) -> (r: bool)
    requires
        a@.len() == target@.len(),
        b@.len() == target@.len(),
    ensures
        r == spec_dist_less(a@, b@, target@),
{
    let n = target.len();
    let mut i: usize = 0;
    while i < n
        invariant
            n == target@.len(),
            a@.len() == n,
            b@.len() == n,
            i <= n,
            spec_dist_less(a@, b@, target@) == dist_less_from(a@, b@, target@, i as int),
        decreases n - i,
    {
        let av = a[i] ^ target[i];
        let bv = b[i] ^ target[i];
        if av < bv {
            return true;
        }
        if av > bv {
            return false;
        }
        i = i + 1;
    }
    false
}

/// Position of the highest-order bit at which `a` and `b` differ, scanned
/// from byte `i`; negative where they agree everywhere.
pub open spec fn bucket_index_from(a: Seq<u8>, b: Seq<u8>, i: int) -> int
    decreases a.len() - i,
{
    if i < 0 || i >= a.len() || i >= b.len() {
        -1
    } else if a[i] ^ b[i] != 0 {
        8 * i + crate::blockchain::spec_byte_lz(a[i] ^ b[i]) as int
    } else {
        bucket_index_from(a, b, i + 1)
    }
}

/// The bucket a contact belongs to in a table owned by `a`.
pub open spec fn spec_bucket_index(a: Seq<u8>, b: Seq<u8>) -> int {
    bucket_index_from(a, b, 0)
}

proof fn lemma_bucket_index_range(a: Seq<u8>, b: Seq<u8>, i: int)
    requires
        a.len() == b.len(),
        0 <= i,
    ensures
        -1 <= bucket_index_from(a, b, i) < 8 * a.len(),
    decreases a.len() - i,
{
    if 0 <= i < a.len() {
        if a[i] ^ b[i] != 0 {
            assert(crate::blockchain::spec_byte_lz(a[i] ^ b[i]) < 8);
        } else {
            lemma_bucket_index_range(a, b, i + 1);
        }
    }
}

/// The bucket index of `other` in a table owned by `own`; None exactly
/// where the two ids agree byte for byte.
pub fn bucket_index(own: &Vec<u8>, other: &Vec<u8>) -> (r: Option<usize>)
    requires
        own@.len() == other@.len(),
        own@.len() == ID_LENGTH,
    ensures
        r matches Some(b) ==> b == spec_bucket_index(own@, other@) && b < N_BUCKETS,
        r is None ==> spec_bucket_index(own@, other@) == -1,
{
    let n = own.len();
    let mut i: usize = 0;
    while i < n
        invariant
            n == own@.len(),
            other@.len() == n,
            n == ID_LENGTH,
            i <= n,
            spec_bucket_index(own@, other@) == bucket_index_from(own@, other@, i as int),
        decreases n - i,
    {
        let x = own[i] ^ other[i];
        if x != 0 {
            let lz: usize = if x >= 128 {
                0
            } else if x >= 64 {
                1
            } else if x >= 32 {
                2
            } else if x >= 16 {
                3
            } else if x >= 8 {
                4
            } else if x >= 4 {
                5
            } else if x >= 2 {
                6
            } else {
                7
            };
            return Some(8 * i + lz);
        }
        i = i + 1;
    }
    None
}

/// Whether some contact in `s` carries the id.
pub open spec fn has_id(s: Seq<Contact>, id: Seq<u8>) -> bool {
    exists|i: int| 0 <= i < s.len() && (#[trigger] s[i])@.id == id
}

/// What a k-bucket update did.
#[derive(Clone, Copy, PartialEq, Eq, Structural, Debug)]
pub enum UpdateOutcome {
    /// The contact was present and moved to the most-recent end.
    Refreshed,
    /// The contact was appended at the most-recent end.
    Inserted,
    /// The bucket is full of other contacts; nothing changed.
    Full,
}

/// An ordered set of at most K contacts: least recently seen first.
pub struct KBucket {
    pub nodes: Vec<Contact>,
}

impl KBucket {
    /// At most K contacts, with pairwise distinct ids.
    pub open spec fn wf(&self) -> bool {
        &&& self.nodes@.len() <= K
        &&& (forall|i: int, j: int|
            0 <= i < j < self.nodes@.len() ==> (#[trigger] self.nodes@[i])@.id != (
            #[trigger] self.nodes@[j])@.id)
    }

    pub fn new() -> (r: Self)
        ensures
            r.wf(),
            r.nodes@.len() == 0,
    {
        KBucket { nodes: Vec::new() }
    }

    /// Whether the bucket holds the contact's id.
    pub fn contains(&self, node: &Contact) -> (r: bool)
        ensures
            r == has_id(self.nodes@, node@.id),
    {
        let n = self.nodes.len();
        let mut i: usize = 0;
        while i < n
            invariant
                n == self.nodes@.len(),
                i <= n,
                forall|j: int| 0 <= j < i ==> (#[trigger] self.nodes@[j])@.id != node@.id,
            decreases n - i,
        {
            if bytes_eq(&self.nodes[i].id, &node.id) {
                proof {
                    assert(self.nodes@[i as int]@.id == node@.id);
                }
                return true;
            }
            i = i + 1;
        }
        false
    }

    /// The least recently seen contact, at the head.
    pub fn get_lru(&self) -> (r: Option<&Contact>)
        ensures
            r is Some <==> self.nodes@.len() > 0,
            r matches Some(c) ==> c@ == self.nodes@[0]@,
    {
        if self.nodes.len() == 0 {
            None
        } else {
            Some(&self.nodes[0])
        }
    }

    /// Whether the bucket is at capacity.
    pub fn is_full(&self) -> (r: bool)
        ensures
            r == (self.nodes@.len() >= K),
    {
        self.nodes.len() >= K
    }

    /// Copies of the contacts, least recently seen first.
    pub fn get_nodes(&self) -> (r: Vec<Contact>)
        ensures
            r@.len() == self.nodes@.len(),
            forall|i: int| 0 <= i < r@.len() ==> r@[i]@ == (#[trigger] self.nodes@[i])@,
    {
        let mut out: Vec<Contact> = Vec::new();
        let n = self.nodes.len();
        let mut i: usize = 0;
        while i < n
            invariant
                n == self.nodes@.len(),
                i <= n,
                out@.len() == i,
                forall|j: int| 0 <= j < i ==> out@[j]@ == (#[trigger] self.nodes@[j])@,
            decreases n - i,
        {
            out.push(self.nodes[i].duplicate());
            i = i + 1;
        }
        out
    }

    /// A present contact moves to the most-recent end; an absent one is
    /// appended while room remains; a full bucket of others is untouched.
    /// The bucket never exceeds K and the updated contact, when kept,
    /// stands at the tail.
    pub fn update(&mut self, node: Contact) -> (r: UpdateOutcome)
        requires
            old(self).wf(),
        ensures
            final(self).wf(),
            r == UpdateOutcome::Full <==> !has_id(old(self).nodes@, node@.id) && old(self).nodes@.len() >= K,
            r == UpdateOutcome::Refreshed ==> has_id(old(self).nodes@, node@.id) && final(self).nodes@.len() == old(self).nodes@.len() && final(self).nodes@.last()@ == node@,
            r == UpdateOutcome::Inserted ==> !has_id(old(self).nodes@, node@.id) && final(self).nodes@ == old(self).nodes@.push(node),
            r == UpdateOutcome::Full ==> *final(self) == *old(self),
            forall|i: int|
                0 <= i < final(self).nodes@.len() ==> has_id(
                    old(self).nodes@,
                    (#[trigger] final(self).nodes@[i])@.id,
                ) || final(self).nodes@[i]@.id == node@.id,
    {
        let ghost before = self.nodes@;
        let n = self.nodes.len();
        let mut pos: usize = 0;
        while pos < n
            invariant
                self == old(self),
                old(self).wf(),
                before == self.nodes@,
                n == self.nodes@.len(),
                pos <= n,
                forall|j: int| 0 <= j < pos ==> (#[trigger] self.nodes@[j])@.id != node@.id,
            decreases n - pos,
        {
            if bytes_eq(&self.nodes[pos].id, &node.id) {
                proof {
                    assert(self.nodes@[pos as int]@.id == node@.id);
                    assert(has_id(before, node@.id));
                }
                let _ = self.nodes.remove(pos);
                let ghost mid = self.nodes@;
                self.nodes.push(node);
                proof {
                    assert forall|a: int|
                        0 <= a < mid.len() implies (#[trigger] mid[a])@.id != node@.id by {
                        let a0 = if a < pos {
                            a
                        } else {
                            a + 1
                        };
                        assert(mid[a] == before[a0]);
                        if a0 != pos {
                            assert(before[a0]@.id != before[pos as int]@.id);
                        }
                    }
                    assert forall|a: int, b: int|
                        0 <= a < b < self.nodes@.len() implies (#[trigger] self.nodes@[a])@.id != (
                        #[trigger] self.nodes@[b])@.id by {
                        if b < mid.len() {
                            let a0 = if a < pos {
                                a
                            } else {
                                a + 1
                            };
                            let b0 = if b < pos {
                                b
                            } else {
                                b + 1
                            };
                            assert(self.nodes@[a] == before[a0]);
                            assert(self.nodes@[b] == before[b0]);
                        } else {
                            assert(self.nodes@[a] == mid[a]);
                        }
                    }
                    assert forall|i: int|
                        0 <= i < self.nodes@.len() implies has_id(
                        before,
                        (#[trigger] self.nodes@[i])@.id,
                    ) || self.nodes@[i]@.id == node@.id by {
                        if i < mid.len() {
                            let a0 = if i < pos {
                                i
                            } else {
                                i + 1
                            };
                            assert(self.nodes@[i] == before[a0]);
                            assert(has_id(before, before[a0]@.id));
                        }
                    }
                }
                return UpdateOutcome::Refreshed;
            }
            pos = pos + 1;
        }
        proof {
            assert(!has_id(before, node@.id));
        }
        if self.nodes.len() < K {
            self.nodes.push(node);
            proof {
                assert forall|a: int, b: int|
                    0 <= a < b < self.nodes@.len() implies (#[trigger] self.nodes@[a])@.id != (
                    #[trigger] self.nodes@[b])@.id by {
                    if b < before.len() {
                        assert(self.nodes@[a] == before[a]);
                        assert(self.nodes@[b] == before[b]);
                    } else {
                        assert(self.nodes@[a] == before[a]);
                        assert(has_id(before, before[a]@.id));
                    }
                }
                assert forall|i: int|
                    0 <= i < self.nodes@.len() implies has_id(
                    before,
                    (#[trigger] self.nodes@[i])@.id,
                ) || self.nodes@[i]@.id == node@.id by {
                    if i < before.len() {
                        assert(self.nodes@[i] == before[i]);
                        assert(has_id(before, before[i]@.id));
                    }
                }
            }
            UpdateOutcome::Inserted
        } else {
            UpdateOutcome::Full
        }
    }

    /// Evict the least recently seen contact and append `node`; only
    /// valid after the caller probed the head and found it unresponsive.
    pub fn replace_lru(&mut self, node: Contact)
        requires
            old(self).wf(),
            old(self).nodes@.len() >= 1,
            !has_id(old(self).nodes@, node@.id),
        ensures
            final(self).wf(),
            final(self).nodes@ == old(self).nodes@.drop_first().push(node),
            final(self).nodes@.len() == old(self).nodes@.len(),
    {
        let ghost before = self.nodes@;
        let _ = self.nodes.remove(0);
        let ghost mid = self.nodes@;
        self.nodes.push(node);
        proof {
            assert(mid =~= before.drop_first());
            assert forall|a: int, b: int|
                0 <= a < b < self.nodes@.len() implies (#[trigger] self.nodes@[a])@.id != (
                #[trigger] self.nodes@[b])@.id by {
                if b < mid.len() {
                    assert(self.nodes@[a] == before[a + 1]);
                    assert(self.nodes@[b] == before[b + 1]);
                } else {
                    assert(self.nodes@[a] == before[a + 1]);
                    assert(has_id(before, before[a + 1]@.id));
                }
            }
        }
    }

    /// Remove the contact carrying the id, if present.
    pub fn remove(&mut self, node: &Contact)
        requires
            old(self).wf(),
        ensures
            final(self).wf(),
            !has_id(final(self).nodes@, node@.id),
            final(self).nodes@.len() <= old(self).nodes@.len(),
            forall|i: int|
                0 <= i < final(self).nodes@.len() ==> has_id(
                    old(self).nodes@,
                    (#[trigger] final(self).nodes@[i])@.id,
                ),
    {
        let ghost before = self.nodes@;
        let n = self.nodes.len();
        let mut pos: usize = 0;
        while pos < n
            invariant
                self == old(self),
                old(self).wf(),
                before == self.nodes@,
                n == self.nodes@.len(),
                pos <= n,
                forall|j: int| 0 <= j < pos ==> (#[trigger] self.nodes@[j])@.id != node@.id,
            decreases n - pos,
        {
            if bytes_eq(&self.nodes[pos].id, &node.id) {
                let _ = self.nodes.remove(pos);
                proof {
                    assert forall|a: int, b: int|
                        0 <= a < b < self.nodes@.len() implies (#[trigger] self.nodes@[a])@.id != (
                        #[trigger] self.nodes@[b])@.id by {
                        let a0 = if a < pos {
                            a
                        } else {
                            a + 1
                        };
                        let b0 = if b < pos {
                            b
                        } else {
                            b + 1
                        };
                        assert(self.nodes@[a] == before[a0]);
                        assert(self.nodes@[b] == before[b0]);
                    }
                    assert forall|a: int|
                        0 <= a < self.nodes@.len() implies (#[trigger] self.nodes@[a])@.id
                        != node@.id by {
                        let a0 = if a < pos {
                            a
                        } else {
                            a + 1
                        };
                        assert(self.nodes@[a] == before[a0]);
                        if a0 != pos {
                            assert(before[a0]@.id != before[pos as int]@.id);
                        }
                    }
                    assert forall|a: int|
                        0 <= a < self.nodes@.len() implies has_id(
                        before,
                        (#[trigger] self.nodes@[a])@.id,
                    ) by {
                        let a0 = if a < pos {
                            a
                        } else {
                            a + 1
                        };
                        assert(self.nodes@[a] == before[a0]);
                        assert(has_id(before, before[a0]@.id));
                    }
                }
                return ;
            }
            pos = pos + 1;
        }
        proof {
            assert forall|a: int|
                0 <= a < self.nodes@.len() implies has_id(
                before,
                (#[trigger] self.nodes@[a])@.id,
            ) by {
                assert(self.nodes@[a] == before[a]);
            }
        }
    }
}

/// Whether `pow_hash` is the digest of `id` followed by `nonce`, with at
/// least `difficulty` leading zero bytes: the JOIN admission gate.
pub open spec fn spec_pow_ok(id: Seq<u8>, nonce: Seq<u8>, pow_hash: Seq<u8>, difficulty: int) -> bool {
    &&& pow_hash == sha256_of(id + nonce)
    &&& difficulty <= pow_hash.len()
    &&& (forall|j: int| 0 <= j < difficulty ==> pow_hash[j] == 0)
}

/// Check a JOIN proof of work: the offered digest must equal the digest
/// of `id ++ nonce` and begin with `difficulty` zero bytes.
pub fn verify_pow(id: &Vec<u8>, nonce: &Vec<u8>, pow_hash: &Vec<u8>, difficulty: usize) -> (r:
    bool)
    ensures
        r == spec_pow_ok(id@, nonce@, pow_hash@, difficulty as int),
{
    let mut input = clone_bytes(id);
    let mut i: usize = 0;
    while i < nonce.len()
        invariant
            i <= nonce@.len(),
            input@ == id@ + nonce@.subrange(0, i as int),
        decreases nonce@.len() - i,
    {
        input.push(nonce[i]);
        proof {
            assert(nonce@.subrange(0, i + 1) =~= nonce@.subrange(0, i as int).push(
                nonce@[i as int],
            ));
        }
        i = i + 1;
    }
    proof {
        assert(nonce@.subrange(0, nonce@.len() as int) =~= nonce@);
    }
    let computed = sha256(input.as_slice());
    if !bytes_eq(&computed, pow_hash) {
        return false;
    }
    if difficulty > pow_hash.len() {
        return false;
    }
    let mut j: usize = 0;
    while j < difficulty
        invariant
            difficulty <= pow_hash@.len(),
            j <= difficulty,
            forall|q: int| 0 <= q < j ==> pow_hash@[q] == 0,
        decreases difficulty - j,
    {
        if pow_hash[j] != 0 {
            proof {
                assert(pow_hash@[j as int] != 0);
            }
            return false;
        }
        j = j + 1;
    }
    true
}

/// Search nonces for a JOIN proof of work at the default difficulty,
/// bounded by `max_iters` attempts; a found pair passes `verify_pow`.
pub fn generate_pow(id: &Vec<u8>, max_iters: u64) -> (r: Option<(u64, Vec<u8>)>)
    ensures
        r matches Some((nonce, h)) ==> spec_pow_ok(
            id@,
            spec_u64_bytes(nonce),
            h@,
            DIFFICULTY as int,
        ),
        r is None ==> forall|n: u64|
            n < max_iters ==> !spec_pow_ok(
                id@,
                #[trigger] spec_u64_bytes(n),
                sha256_of(id@ + spec_u64_bytes(n)),
                DIFFICULTY as int,
            ),
{
    let mut nonce: u64 = 0;
    let mut tries: u64 = 0;
    while tries < max_iters
        invariant
            tries <= max_iters,
            nonce == tries,
            forall|n: u64|
                n < tries ==> !spec_pow_ok(
                    id@,
                    #[trigger] spec_u64_bytes(n),
                    sha256_of(id@ + spec_u64_bytes(n)),
                    DIFFICULTY as int,
                ),
        decreases max_iters - tries,
    {
        let nonce_bytes = u64_to_bytes(&nonce);
        let mut nv: Vec<u8> = Vec::new();
        let mut q: usize = 0;
        while q < 8
            invariant
                q <= 8,
                nonce_bytes@ == spec_u64_bytes(nonce),
                nv@ == nonce_bytes@.subrange(0, q as int),
            decreases 8 - q,
        {
            nv.push(nonce_bytes[q]);
            proof {
                assert(nonce_bytes@.subrange(0, q + 1) =~= nonce_bytes@.subrange(
                    0,
                    q as int,
                ).push(nonce_bytes@[q as int]));
            }
            q = q + 1;
        }
        proof {
            assert(nonce_bytes@.subrange(0, 8) =~= nonce_bytes@);
        }
        let mut input = clone_bytes(id);
        let mut i: usize = 0;
        while i < nv.len()
            invariant
                i <= nv@.len(),
                input@ == id@ + nv@.subrange(0, i as int),
            decreases nv@.len() - i,
        {
            input.push(nv[i]);
            proof {
                assert(nv@.subrange(0, i + 1) =~= nv@.subrange(0, i as int).push(nv@[i as int]));
            }
            i = i + 1;
        }
        proof {
            assert(nv@.subrange(0, nv@.len() as int) =~= nv@);
        }
        let h = sha256(input.as_slice());
        if verify_pow(id, &nv, &h, DIFFICULTY) {
            return Some((nonce, h));
        }
        proof {
            assert(nv@ == spec_u64_bytes(nonce));
            assert(h@ == sha256_of(id@ + spec_u64_bytes(nonce)));
            assert(!spec_pow_ok(
                id@,
                spec_u64_bytes(nonce),
                sha256_of(id@ + spec_u64_bytes(nonce)),
                DIFFICULTY as int,
            ));
        }
        if nonce == u64::MAX {
            proof {
                // nonce always equals tries, and tries < max_iters <= u64::MAX
                assert(false);
            }
            return None;
        }
        nonce = nonce + 1;
        tries = tries + 1;
    }
    None
}


/// Irreflexivity: nothing is strictly closer to the target than itself.
pub proof fn lemma_dist_irrefl(p: Seq<u8>, t: Seq<u8>, i: int)
    ensures
        !dist_less_from(p, p, t, i),
    decreases t.len() - i,
{
    if 0 <= i && i < p.len() && i < t.len() {
        lemma_dist_irrefl(p, t, i + 1);
    }
}

/// Whether a contact (as its shape) stands somewhere in the table.
pub open spec fn in_table(buckets: Seq<KBucket>, c: ContactV) -> bool {
    exists|b: int, i: int|
        0 <= b < buckets.len() && 0 <= i < buckets[b].nodes@.len() && (#[trigger] buckets[b
        ].nodes@[i])@ == c
}

/// The number of contacts the table holds.
pub open spec fn spec_table_size(buckets: Seq<KBucket>) -> nat
    decreases buckets.len(),
{
    if buckets.len() == 0 {
        0
    } else {
        spec_table_size(buckets.drop_last()) + buckets.last().nodes@.len()
    }
}

proof fn lemma_table_size_push(buckets: Seq<KBucket>, b: KBucket)
    ensures
        spec_table_size(buckets.push(b)) == spec_table_size(buckets) + b.nodes@.len(),
{
    assert(buckets.push(b).drop_last() =~= buckets);
    assert(buckets.push(b).last() == b);
}

/// The routing table: one bucket per bit of the XOR distance to the
/// owner's id, each holding at most K contacts in least-recently-seen
/// order.
pub struct RoutingTable {
    pub id: Vec<u8>,
    pub buckets: Vec<KBucket>,
}

impl RoutingTable {
    /// The owner id has the right length, there is one bucket per bit,
    /// every bucket is well-formed, and every contact sits in the bucket
    /// of its distance to the owner.
    pub open spec fn wf(&self) -> bool {
        &&& self.id@.len() == ID_LENGTH
        &&& self.buckets@.len() == N_BUCKETS
        &&& (forall|b: int| 0 <= b < self.buckets@.len() ==> (#[trigger] self.buckets@[b]).wf())
        &&& (forall|b: int, i: int|
            0 <= b < self.buckets@.len() && 0 <= i < self.buckets@[b].nodes@.len() ==> (
            #[trigger] self.buckets@[b].nodes@[i])@.id.len() == ID_LENGTH && spec_bucket_index(
                self.id@,
                self.buckets@[b].nodes@[i]@.id,
            ) == b)
    }

    pub fn new(id: Vec<u8>) -> (r: Self)
        requires
            id@.len() == ID_LENGTH,
        ensures
            r.wf(),
            spec_table_size(r.buckets@) == 0,
            r.id@ == id@,
    {
        let mut buckets: Vec<KBucket> = Vec::new();
        let mut b: usize = 0;
        proof {
            assert(spec_table_size(buckets@) == 0);
        }
        while b < N_BUCKETS
            invariant
                b <= N_BUCKETS,
                buckets@.len() == b,
                forall|q: int| 0 <= q < b ==> (#[trigger] buckets@[q]).nodes@.len() == 0,
                spec_table_size(buckets@) == 0,
            decreases N_BUCKETS - b,
        {
            let ghost before = buckets@;
            let nb = KBucket::new();
            proof {
                lemma_table_size_push(before, nb);
            }
            buckets.push(nb);
            b = b + 1;
        }
        RoutingTable { id, buckets }
    }

    /// Route an inbound contact to its bucket: refreshed or inserted
    /// contacts end at the most-recent end; for a full bucket nothing
    /// changes and the least recently seen contact comes back as the
    /// eviction candidate for the caller to probe.
    pub fn update(&mut self, node: Contact) -> (r: Option<Contact>)
        requires
            old(self).wf(),
            node@.id.len() == ID_LENGTH,
        ensures
            final(self).wf(),
            final(self).id == old(self).id,
            r is Some ==> final(self).buckets@ == old(self).buckets@,
            spec_bucket_index(old(self).id@, node@.id) == -1 ==> r is None && final(self).buckets@
                == old(self).buckets@,
            ({
                let b = spec_bucket_index(old(self).id@, node@.id);
                &&& (r is None && b != -1 ==> {
                    &&& (forall|q: int|
                        0 <= q < final(self).buckets@.len() && q != b
                            ==> #[trigger] final(self).buckets@[q] == old(self).buckets@[q])
                    &&& final(self).buckets@[b].nodes@.len() >= 1
                    &&& final(self).buckets@[b].nodes@.last()@ == node@
                    &&& (has_id(old(self).buckets@[b].nodes@, node@.id) ==> final(self).buckets@[b].nodes@.len() == old(self).buckets@[b].nodes@.len())
                    &&& (!has_id(old(self).buckets@[b].nodes@, node@.id) ==> final(self).buckets@[b].nodes@ == old(self).buckets@[b].nodes@.push(node))
                })
                &&& (r matches Some(lru) ==> b != -1 && old(self).buckets@[b].nodes@.len() >= K
                    && !has_id(old(self).buckets@[b].nodes@, node@.id) && lru@ == old(self).buckets@[b].nodes@[0]@)
            }),
    {
        let idx = match bucket_index(&self.id, &node.id) {
            Some(b) => b,
            None => {
                // the owner's own id has no bucket
                return None;
            },
        };
        proof {
            assert(self.buckets@[idx as int].wf());
        }
        let ghost nodev = node@;
        let ghost bucket_before = self.buckets@[idx as int];
        let outcome = self.buckets[idx].update(node);
        proof {
            assert(self.buckets@ == old(self).buckets@.update(
                idx as int,
                self.buckets@[idx as int],
            ));
            assert forall|b: int, i: int|
                0 <= b < self.buckets@.len() && 0 <= i < self.buckets@[b].nodes@.len() implies (
            #[trigger] self.buckets@[b].nodes@[i])@.id.len() == ID_LENGTH && spec_bucket_index(
                self.id@,
                self.buckets@[b].nodes@[i]@.id,
            ) == b by {
                if b != idx {
                    assert(self.buckets@[b] == old(self).buckets@[b]);
                } else {
                    let cur = self.buckets@[b].nodes@[i];
                    if cur@.id == nodev.id {
                        assert(spec_bucket_index(self.id@, nodev.id) == idx);
                    } else {
                        assert(has_id(bucket_before.nodes@, cur@.id));
                        let w = choose|w: int|
                            0 <= w < bucket_before.nodes@.len() && (#[trigger] bucket_before
                            .nodes@[w])@.id == cur@.id;
                        assert(spec_bucket_index(self.id@, bucket_before.nodes@[w]@.id) == idx);
                    }
                }
            }
        }
        match outcome {
            UpdateOutcome::Full => {
                proof {
                    assert(self.buckets@[idx as int] == bucket_before);
                    assert(self.buckets@ =~= old(self).buckets@);
                    assert(bucket_before.nodes@.len() >= K);
                }
                let lru = self.buckets[idx].get_lru();
                match lru {
                    Some(c) => {
                        let out = c.duplicate();
                        proof {
                            assert(self.buckets@[idx as int].nodes@[0]@.id.len() == ID_LENGTH);
                        }
                        Some(out)
                    },
                    None => {
                        proof {
                            // a full bucket always has a head
                            assert(false);
                        }
                        None
                    },
                }
            },
            _ => {
                proof {
                    assert forall|q: int|
                        0 <= q < self.buckets@.len() && q != idx implies #[trigger] self
                        .buckets@[q] == old(self).buckets@[q] by {}
                }
                None
            },
        }
    }

    /// Evict a probed-dead least recently seen contact in favour of a
    /// newcomer; a no-op unless the newcomer's bucket is non-empty, its
    /// head is the probed contact, and the newcomer is absent.
    pub fn replace_lru(&mut self, probed: &Contact, node: Contact)
        requires
            old(self).wf(),
            node@.id.len() == ID_LENGTH,
        ensures
            final(self).wf(),
            final(self).id == old(self).id,
            ({
                let b = spec_bucket_index(old(self).id@, node@.id);
                let eligible = b != -1 && old(self).buckets@[b].nodes@.len() >= 1 && old(self).buckets@[b].nodes@[0]@.id == probed@.id && !has_id(
                    old(self).buckets@[b].nodes@,
                    node@.id,
                );
                &&& (!eligible ==> *final(self) == *old(self))
                &&& (eligible ==> final(self).buckets@[b].nodes@ == old(self).buckets@[b].nodes@.drop_first().push(node) && (forall|q: int|
                    0 <= q < final(self).buckets@.len() && q != b ==> #[trigger] final(self).buckets@[q] == old(self).buckets@[q]))
            }),
    {
        let idx = match bucket_index(&self.id, &node.id) {
            Some(b) => b,
            None => {
                return ;
            },
        };
        let ghost nodev = node@;
        let ghost bucket_before = self.buckets@[idx as int];
        proof {
            assert(self.buckets@[idx as int].wf());
        }
        if self.buckets[idx].contains(&node) {
            return ;
        }
        let head_matches = match self.buckets[idx].get_lru() {
            Some(c) => bytes_eq(&c.id, &probed.id),
            None => false,
        };
        if !head_matches {
            return ;
        }
        proof {
            assert(bucket_before.nodes@.len() >= 1);
            assert(bucket_before.nodes@[0]@.id == probed@.id);
        }
        self.buckets[idx].replace_lru(node);
        proof {
            assert forall|b: int, i: int|
                0 <= b < self.buckets@.len() && 0 <= i < self.buckets@[b].nodes@.len() implies (
            #[trigger] self.buckets@[b].nodes@[i])@.id.len() == ID_LENGTH && spec_bucket_index(
                self.id@,
                self.buckets@[b].nodes@[i]@.id,
            ) == b by {
                if b != idx {
                    assert(self.buckets@[b] == old(self).buckets@[b]);
                } else {
                    let cur = self.buckets@[b].nodes@[i];
                    if i < self.buckets@[b].nodes@.len() - 1 {
                        assert(cur == bucket_before.nodes@.drop_first()[i]);
                        assert(cur == bucket_before.nodes@[i + 1]);
                        assert(spec_bucket_index(self.id@, bucket_before.nodes@[i + 1]@.id)
                            == idx);
                    } else {
                        assert(cur@ == nodev);
                        assert(spec_bucket_index(self.id@, nodev.id) == idx);
                    }
                }
            }
            assert forall|q: int|
                0 <= q < self.buckets@.len() && q != idx implies #[trigger] self.buckets@[q]
                == old(self).buckets@[q] by {}
        }
    }

    /// Remove a contact's id from its bucket.
    pub fn remove(&mut self, node: &Contact)
        requires
            old(self).wf(),
            node@.id.len() == ID_LENGTH,
        ensures
            final(self).wf(),
            final(self).id == old(self).id,
            spec_bucket_index(old(self).id@, node@.id) == -1 ==> *final(self) == *old(self),
            ({
                let b = spec_bucket_index(old(self).id@, node@.id);
                b != -1 ==> !has_id(final(self).buckets@[b].nodes@, node@.id) && final(self).buckets@[b].nodes@.len() <= old(self).buckets@[b].nodes@.len() && (forall|q: int|
                    0 <= q < final(self).buckets@.len() && q != b ==> #[trigger] final(self).buckets@[q] == old(self).buckets@[q])
            }),
    {
        let idx = match bucket_index(&self.id, &node.id) {
            Some(b) => b,
            None => {
                return ;
            },
        };
        let ghost bucket_before = self.buckets@[idx as int];
        proof {
            assert(self.buckets@[idx as int].wf());
        }
        self.buckets[idx].remove(node);
        proof {
            assert forall|b: int, i: int|
                0 <= b < self.buckets@.len() && 0 <= i < self.buckets@[b].nodes@.len() implies (
            #[trigger] self.buckets@[b].nodes@[i])@.id.len() == ID_LENGTH && spec_bucket_index(
                self.id@,
                self.buckets@[b].nodes@[i]@.id,
            ) == b by {
                if b != idx {
                    assert(self.buckets@[b] == old(self).buckets@[b]);
                } else {
                    let cur = self.buckets@[b].nodes@[i];
                    assert(has_id(bucket_before.nodes@, cur@.id));
                    let w = choose|w: int|
                        0 <= w < bucket_before.nodes@.len() && (#[trigger] bucket_before
                        .nodes@[w])@.id == cur@.id;
                    assert(spec_bucket_index(self.id@, bucket_before.nodes@[w]@.id) == idx);
                }
            }
        }
    }

    /// Up to `k` contacts from the whole table, sorted by ascending XOR
    /// distance to `target`, with pairwise distinct ids: exactly
    /// min(k, total contacts) of them, each standing in the table.
    #[verifier::rlimit(100)]
    pub fn find_closest_nodes(&self, target: &Vec<u8>, k: usize) -> (r: Vec<Contact>)
        requires
            self.wf(),
            target@.len() == ID_LENGTH,
        ensures
            r@.len() == (if k <= spec_table_size(self.buckets@) {
                k as nat
            } else {
                spec_table_size(self.buckets@)
            }),
            forall|a: int, b: int|
                0 <= a < b < r@.len() ==> !spec_dist_less(
                    (#[trigger] r@[b])@.id,
                    (#[trigger] r@[a])@.id,
                    target@,
                ),
            forall|a: int, b: int| 0 <= a < b < r@.len() ==> (#[trigger] r@[a])@.id != (
            #[trigger] r@[b])@.id,
            forall|i: int| 0 <= i < r@.len() ==> in_table(self.buckets@, (#[trigger] r@[i])@),
            forall|i: int| 0 <= i < r@.len() ==> (#[trigger] r@[i])@.id.len() == ID_LENGTH,
    {
        // gather every contact, bucket by bucket
        let mut all: Vec<Contact> = Vec::new();
        let nb = self.buckets.len();
        let mut b: usize = 0;
        proof {
            assert(self.buckets@.subrange(0, 0) =~= Seq::<KBucket>::empty());
        }
        while b < nb
            invariant
                self.wf(),
                target@.len() == ID_LENGTH,
                nb == self.buckets@.len(),
                b <= nb,
                all@.len() == spec_table_size(self.buckets@.subrange(0, b as int)),
                forall|x: int| 0 <= x < all@.len() ==> in_table(self.buckets@, (#[trigger] all@[x])@),
                forall|x: int| 0 <= x < all@.len() ==> (#[trigger] all@[x])@.id.len() == ID_LENGTH,
                forall|x: int|
                    0 <= x < all@.len() ==> spec_bucket_index(self.id@, (#[trigger] all@[x])@.id)
                        < b,
                forall|x: int, y: int|
                    0 <= x < y < all@.len() ==> (#[trigger] all@[x])@.id != (
                    #[trigger] all@[y])@.id,
            decreases nb - b,
        {
            let m = self.buckets[b].nodes.len();
            let mut i: usize = 0;
            while i < m
                invariant
                    self.wf(),
                    nb == self.buckets@.len(),
                    b < nb,
                    m == self.buckets@[b as int].nodes@.len(),
                    i <= m,
                    all@.len() == spec_table_size(self.buckets@.subrange(0, b as int)) + i,
                    forall|x: int|
                        0 <= x < all@.len() ==> in_table(self.buckets@, (#[trigger] all@[x])@),
                    forall|x: int|
                        0 <= x < all@.len() ==> (#[trigger] all@[x])@.id.len() == ID_LENGTH,
                    forall|x: int|
                        0 <= x < all@.len() ==> spec_bucket_index(
                            self.id@,
                            (#[trigger] all@[x])@.id,
                        ) < b || (spec_bucket_index(self.id@, all@[x]@.id) == b && exists|i2: int|
                            0 <= i2 < i && all@[x]@ == (#[trigger] self.buckets@[b as int
                            ].nodes@[i2])@),
                    forall|x: int, y: int|
                        0 <= x < y < all@.len() ==> (#[trigger] all@[x])@.id != (
                        #[trigger] all@[y])@.id,
                decreases m - i,
            {
                let ghost before = all@;
                let c = self.buckets[b].nodes[i].duplicate();
                let ghost cv = c@;
                proof {
                    assert(cv == self.buckets@[b as int].nodes@[i as int]@);
                    assert(spec_bucket_index(self.id@, cv.id) == b);
                    assert(in_table(self.buckets@, cv));
                }
                all.push(c);
                proof {
                    assert forall|x: int, y: int|
                        0 <= x < y < all@.len() implies (#[trigger] all@[x])@.id != (
                    #[trigger] all@[y])@.id by {
                        if y < before.len() {
                            assert(all@[x] == before[x]);
                            assert(all@[y] == before[y]);
                        } else {
                            assert(all@[x] == before[x]);
                            if spec_bucket_index(self.id@, before[x]@.id) < b {
                                if before[x]@.id == cv.id {
                                    assert(spec_bucket_index(self.id@, before[x]@.id) == b);
                                }
                            } else {
                                let i2 = choose|i2: int|
                                    0 <= i2 < i && before[x]@ == (#[trigger] self.buckets@[b as int
                                    ].nodes@[i2])@;
                                assert(self.buckets@[b as int].nodes@[i2]@.id
                                    != self.buckets@[b as int].nodes@[i as int]@.id);
                            }
                        }
                    }
                }
                i = i + 1;
            }
            proof {
                let s1 = self.buckets@.subrange(0, b + 1);
                assert(s1.drop_last() =~= self.buckets@.subrange(0, b as int));
                assert(s1.last() == self.buckets@[b as int]);
            }
            b = b + 1;
        }
        proof {
            assert(self.buckets@.subrange(0, nb as int) =~= self.buckets@);
        }
        // sort by ascending XOR distance to the target (insertion sort)
        let mut sorted: Vec<Contact> = Vec::new();
        let total = all.len();
        let mut x: usize = 0;
        while x < total
            invariant
                self.wf(),
                target@.len() == ID_LENGTH,
                total == all@.len(),
                x <= total,
                sorted@.len() == x,
                forall|q: int| 0 <= q < all@.len() ==> in_table(self.buckets@, (#[trigger] all@[q])@),
                forall|q: int| 0 <= q < all@.len() ==> (#[trigger] all@[q])@.id.len() == ID_LENGTH,
                forall|q: int, y: int|
                    0 <= q < y < all@.len() ==> (#[trigger] all@[q])@.id != (#[trigger] all@[y])@.id,
                forall|q: int|
                    0 <= q < sorted@.len() ==> in_table(self.buckets@, (#[trigger] sorted@[q])@),
                forall|q: int|
                    0 <= q < sorted@.len() ==> (#[trigger] sorted@[q])@.id.len() == ID_LENGTH,
                forall|q: int, y: int|
                    0 <= q < y < sorted@.len() ==> (#[trigger] sorted@[q])@.id != (
                    #[trigger] sorted@[y])@.id,
                forall|q: int, y: int|
                    0 <= q < y < sorted@.len() ==> !spec_dist_less(
                        (#[trigger] sorted@[y])@.id,
                        (#[trigger] sorted@[q])@.id,
                        target@,
                    ),
                forall|q: int|
                    0 <= q < sorted@.len() ==> exists|y: int|
                        0 <= y < x && (#[trigger] sorted@[q])@ == all@[y]@,
                forall|q: int|
                    0 <= q < sorted@.len() ==> (#[trigger] sorted@[q])@.id != all@[x as int]@.id
                        || x >= all@.len(),
            decreases total - x,
        {
            let c = all[x].duplicate();
            let ghost cv = c@;
            proof {
                assert(cv == all@[x as int]@);
            }
            let mut pos: usize = 0;
            while pos < sorted.len()
                invariant
                    target@.len() == ID_LENGTH,
                    cv.id.len() == ID_LENGTH,
                    cv == c@,
                    pos <= sorted@.len(),
                    forall|q: int|
                        0 <= q < sorted@.len() ==> (#[trigger] sorted@[q])@.id.len() == ID_LENGTH,
                    forall|j: int|
                        0 <= j < pos ==> !spec_dist_less(cv.id, (#[trigger] sorted@[j])@.id, target@),
                ensures
                    pos <= sorted@.len(),
                    forall|j: int|
                        0 <= j < pos ==> !spec_dist_less(cv.id, (#[trigger] sorted@[j])@.id, target@),
                    pos < sorted@.len() ==> spec_dist_less(cv.id, sorted@[pos as int]@.id, target@),
                decreases sorted@.len() - pos,
            {
                if dist_less(&c.id, &sorted[pos].id, target) {
                    break ;
                }
                pos = pos + 1;
            }
            let ghost before = sorted@;
            let ghost posg = pos as int;
            sorted.insert(pos, c);
            proof {
                assert forall|q: int|
                    0 <= q < sorted@.len() implies in_table(
                    self.buckets@,
                    (#[trigger] sorted@[q])@,
                ) && sorted@[q]@.id.len() == ID_LENGTH by {
                    if q < posg {
                        assert(sorted@[q] == before[q]);
                    } else if q == posg {
                        assert(sorted@[q]@ == cv);
                        assert(in_table(self.buckets@, all@[x as int]@));
                    } else {
                        assert(sorted@[q] == before[q - 1]);
                    }
                }
                assert forall|q: int, y: int|
                    0 <= q < y < sorted@.len() implies (#[trigger] sorted@[q])@.id != (
                #[trigger] sorted@[y])@.id by {
                    let qa: int = if q < posg {
                        q
                    } else {
                        q - 1
                    };
                    let ya: int = if y < posg {
                        y
                    } else {
                        y - 1
                    };
                    if q == posg {
                        assert(sorted@[y] == before[y - 1]);
                        assert(before[y - 1]@.id != cv.id);
                    } else if y == posg {
                        assert(sorted@[q] == before[q]);
                        assert(before[q]@.id != cv.id);
                    } else {
                        assert(sorted@[q] == before[qa]);
                        assert(sorted@[y] == before[ya]);
                    }
                }
                assert forall|q: int, y: int|
                    0 <= q < y < sorted@.len() implies !spec_dist_less(
                    (#[trigger] sorted@[y])@.id,
                    (#[trigger] sorted@[q])@.id,
                    target@,
                ) by {
                    if q == posg && y > posg {
                        assert(sorted@[q]@ == cv);
                        assert(sorted@[y] == before[y - 1]);
                        assert(spec_dist_less(cv.id, before[posg]@.id, target@));
                        if y - 1 > posg {
                            assert(!spec_dist_less(
                                before[y - 1]@.id,
                                before[posg]@.id,
                                target@,
                            ));
                            lemma_dist_less_trans(
                                cv.id,
                                before[posg]@.id,
                                before[y - 1]@.id,
                                target@,
                                0,
                            );
                        } else {
                            lemma_dist_irrefl(before[posg]@.id, target@, 0);
                            lemma_dist_less_trans(
                                cv.id,
                                before[posg]@.id,
                                before[posg]@.id,
                                target@,
                                0,
                            );
                        }
                    } else if y == posg {
                        assert(sorted@[q] == before[q]);
                        assert(sorted@[y]@ == cv);
                        assert(!spec_dist_less(cv.id, before[q]@.id, target@));
                    } else if q < posg && y > posg {
                        assert(sorted@[q] == before[q]);
                        assert(sorted@[y] == before[y - 1]);
                    } else if q > posg {
                        assert(sorted@[q] == before[q - 1]);
                        assert(sorted@[y] == before[y - 1]);
                    } else {
                        assert(sorted@[q] == before[q]);
                        assert(sorted@[y] == before[y]);
                    }
                }
                assert forall|q: int|
                    0 <= q < sorted@.len() implies exists|y: int|
                    0 <= y < x + 1 && (#[trigger] sorted@[q])@ == all@[y]@ by {
                    if q < posg {
                        assert(sorted@[q] == before[q]);
                        let w = choose|w: int| 0 <= w < x && before[q]@ == all@[w]@;
                        assert(sorted@[q]@ == all@[w]@);
                    } else if q == posg {
                        assert(sorted@[q]@ == all@[x as int]@);
                    } else {
                        assert(sorted@[q] == before[q - 1]);
                        let w = choose|w: int| 0 <= w < x && before[q - 1]@ == all@[w]@;
                        assert(sorted@[q]@ == all@[w]@);
                    }
                }
                if x + 1 < all@.len() {
                    assert forall|q: int|
                        0 <= q < sorted@.len() implies (#[trigger] sorted@[q])@.id != all@[x
                        + 1]@.id by {
                        let w = choose|w: int| 0 <= w < x + 1 && (sorted@[q])@ == all@[w]@;
                        assert(all@[w]@.id != all@[x + 1]@.id);
                    }
                }
            }
            x = x + 1;
        }
        // keep the closest k
        if sorted.len() > k {
            let ghost before = sorted@;
            sorted.truncate(k);
            proof {
                assert(sorted@ =~= before.subrange(0, k as int));
            }
        }
        proof {
            assert(spec_table_size(self.buckets@) == total);
        }
        sorted
    }
}


/// A FIND_VALUE reply: the stored value, or the closest contacts.
pub struct FindValueReply {
    pub value: Option<Vec<u8>>,
    pub nodes: Vec<Contact>,
}

/// Assemble the FIND_VALUE response: the stored value and no contacts
/// where the local store holds the key, else no value and the closest K
/// contacts to the key.
pub fn find_value_response(
    store: &crate::bytemap::StoreMap,
    table: &RoutingTable,
    key: &Vec<u8>,
) -> (r: FindValueReply)
    requires
        store.wf(),
        table.wf(),
        key@.len() == ID_LENGTH,
    ensures
        store.spec_get(key@) is Some ==> r.value is Some && r.value.unwrap()@ == store.spec_get(
            key@,
        ).unwrap() && r.nodes@.len() == 0,
        store.spec_get(key@) is None ==> r.value is None && r.nodes@.len() == (if K
            <= spec_table_size(table.buckets@) {
            K as nat
        } else {
            spec_table_size(table.buckets@)
        }) && (forall|a: int, b: int|
            0 <= a < b < r.nodes@.len() ==> !spec_dist_less(
                (#[trigger] r.nodes@[b])@.id,
                (#[trigger] r.nodes@[a])@.id,
                key@,
            )),
{
    match store.get(key) {
        Some(value) => FindValueReply { value: Some(value), nodes: Vec::new() },
        None => FindValueReply { value: None, nodes: table.find_closest_nodes(key, K) },
    }
}

} // verus!
