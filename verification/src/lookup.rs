//! The iterative lookup engine's state machine, separated from the RPCs:
//! a work queue of candidates, the set of queried ids, the running list
//! of closest contacts, and the passive-caching decision for a value hit.
use vstd::prelude::*;

use crate::bytemap::bytes_eq;
use crate::bytemap::clone_bytes;
use crate::constants::ALPHA;
use crate::constants::ID_LENGTH;
use crate::kademlia::Contact;
use crate::kademlia::ContactV;
use crate::kademlia::dist_less;
use crate::kademlia::lemma_dist_irrefl;
use crate::kademlia::lemma_dist_less_trans;
use crate::kademlia::spec_dist_less;

verus! {

/// Whether some id in `s` equals `id`.
pub open spec fn ids_contain(s: Seq<Vec<u8>>, id: Seq<u8>) -> bool {
    exists|i: int| 0 <= i < s.len() && (#[trigger] s[i])@ == id
}

/// The ids as byte sequences.
pub open spec fn ids_view(s: Seq<Vec<u8>>) -> Seq<Seq<u8>> {
    Seq::new(s.len(), |i: int| s[i]@)
}

/// The contacts as their shapes.
pub open spec fn contacts_view(s: Seq<Contact>) -> Seq<ContactV> {
    Seq::new(s.len(), |i: int| s[i]@)
}

/// Whether an id stands in a sequence of id bytes.
pub open spec fn idseq_contains(q: Seq<Seq<u8>>, id: Seq<u8>) -> bool {
    exists|i: int| 0 <= i < q.len() && #[trigger] q[i] == id
}

/// Whether some contact shape carries the id.
pub open spec fn cv_has_id(s: Seq<ContactV>, id: Seq<u8>) -> bool {
    exists|i: int| 0 <= i < s.len() && (#[trigger] s[i]).id == id
}

proof fn lemma_ids_bridge(s: Seq<Vec<u8>>, id: Seq<u8>)
    ensures
        ids_contain(s, id) == idseq_contains(ids_view(s), id),
{
    if ids_contain(s, id) {
        let w = choose|w: int| 0 <= w < s.len() && (#[trigger] s[w])@ == id;
        assert(ids_view(s)[w] == id);
    }
    if idseq_contains(ids_view(s), id) {
        let w = choose|w: int| 0 <= w < ids_view(s).len() && #[trigger] ids_view(s)[w] == id;
        assert(s[w]@ == id);
    }
}

/// One round's batch: walk up to `fuel` contacts off the queue's front,
/// skipping already-queried ids and marking the taken ones; yields the
/// batch, the queried ids afterwards, and the remaining queue.
pub open spec fn spec_take_batch(cands: Seq<ContactV>, q: Seq<Seq<u8>>, fuel: nat) -> (
    Seq<ContactV>,
    Seq<Seq<u8>>,
    Seq<ContactV>,
)
    decreases fuel,
{
    if fuel == 0 || cands.len() == 0 {
        (Seq::empty(), q, cands)
    } else {
        let c = cands[0];
        if idseq_contains(q, c.id) {
            spec_take_batch(cands.drop_first(), q, (fuel - 1) as nat)
        } else {
            let rest = spec_take_batch(cands.drop_first(), q.push(c.id), (fuel - 1) as nat);
            (seq![c] + rest.0, rest.1, rest.2)
        }
    }
}

/// Contacts learned from a response merged in order: an id neither
/// queried nor queued joins both the queue and the closest list.
pub open spec fn spec_merge(
    cands: Seq<ContactV>,
    closest: Seq<ContactV>,
    q: Seq<Seq<u8>>,
    nodes: Seq<ContactV>,
) -> (Seq<ContactV>, Seq<ContactV>)
    decreases nodes.len(),
{
    if nodes.len() == 0 {
        (cands, closest)
    } else {
        let nd = nodes[0];
        if idseq_contains(q, nd.id) || cv_has_id(cands, nd.id) {
            spec_merge(cands, closest, q, nodes.drop_first())
        } else {
            spec_merge(cands.push(nd), closest.push(nd), q, nodes.drop_first())
        }
    }
}

/// One in-progress iterative lookup over a target id or key.
pub struct LookupState {
    pub target: Vec<u8>,
    pub closest: Vec<Contact>,
    pub queried: Vec<Vec<u8>>,
    pub candidates: Vec<Contact>,
}

impl LookupState {
    /// Target and contact ids all have the id length.
    pub open spec fn wf(&self) -> bool {
        &&& self.target@.len() == ID_LENGTH
        &&& (forall|i: int|
            0 <= i < self.closest@.len() ==> (#[trigger] self.closest@[i])@.id.len() == ID_LENGTH)
        &&& (forall|i: int|
            0 <= i < self.candidates@.len() ==> (#[trigger] self.candidates@[i])@.id.len()
                == ID_LENGTH)
    }

    /// Seed a lookup from the local routing table's closest contacts.
    pub fn new(target: Vec<u8>, seed: Vec<Contact>) -> (r: Self)
        requires
            target@.len() == ID_LENGTH,
            forall|i: int| 0 <= i < seed@.len() ==> (#[trigger] seed@[i])@.id.len() == ID_LENGTH,
        ensures
            r.wf(),
            r.target@ == target@,
            r.queried@.len() == 0,
            contacts_view(r.closest@) == contacts_view(seed@),
            contacts_view(r.candidates@) == contacts_view(seed@),
    {
        let mut closest: Vec<Contact> = Vec::new();
        let n = seed.len();
        let mut i: usize = 0;
        while i < n
            invariant
                n == seed@.len(),
                forall|j: int| 0 <= j < n ==> (#[trigger] seed@[j])@.id.len() == ID_LENGTH,
                i <= n,
                closest@.len() == i,
                forall|j: int| 0 <= j < i ==> (#[trigger] closest@[j])@ == seed@[j]@,
                forall|j: int| 0 <= j < i ==> (#[trigger] closest@[j])@.id.len() == ID_LENGTH,
            decreases n - i,
        {
            closest.push(seed[i].duplicate());
            i = i + 1;
        }
        proof {
            assert(contacts_view(closest@) =~= contacts_view(seed@));
        }
        LookupState { target, closest, queried: Vec::new(), candidates: seed }
    }

    /// Whether an id was already queried in this lookup.
    pub fn was_queried(&self, id: &Vec<u8>) -> (r: bool)
        ensures
            r == ids_contain(self.queried@, id@),
    {
        let n = self.queried.len();
        let mut i: usize = 0;
        while i < n
            invariant
                n == self.queried@.len(),
                i <= n,
                forall|j: int| 0 <= j < i ==> (#[trigger] self.queried@[j])@ != id@,
            decreases n - i,
        {
            if bytes_eq(&self.queried[i], id) {
                proof {
                    assert(self.queried@[i as int]@ == id@);
                }
                return true;
            }
            i = i + 1;
        }
        false
    }

    /// Whether the work queue is exhausted, ending the lookup.
    pub fn is_done(&self) -> (r: bool)
        ensures
            r == (self.candidates@.len() == 0),
    {
        self.candidates.len() == 0
    }

    /// Pop up to α contacts off the queue's front, returning the ones not
    /// yet queried and marking them queried: exactly the round that
    /// `spec_take_batch` describes, so a queried peer is never returned
    /// again by a later round.
    pub fn next_batch(&mut self) -> (r: Vec<Contact>)
        requires
            old(self).wf(),
        ensures
            final(self).wf(),
            final(self).target == old(self).target,
            final(self).closest == old(self).closest,
            r@.len() <= ALPHA,
            (contacts_view(r@), ids_view(final(self).queried@), contacts_view(
                final(self).candidates@,
            )) == spec_take_batch(
                contacts_view(old(self).candidates@),
                ids_view(old(self).queried@),
                ALPHA as nat,
            ),
    {
        let ghost c0 = contacts_view(old(self).candidates@);
        let ghost q0 = ids_view(old(self).queried@);
        let mut batch: Vec<Contact> = Vec::new();
        let mut taken: usize = 0;
        proof {
            assert(contacts_view(batch@) =~= Seq::<ContactV>::empty());
        }
        while taken < ALPHA && self.candidates.len() > 0
            invariant
                self.wf(),
                self.target == old(self).target,
                self.closest == old(self).closest,
                taken <= ALPHA,
                batch@.len() <= taken,
                spec_take_batch(c0, q0, ALPHA as nat) == ({
                    let rest = spec_take_batch(
                        contacts_view(self.candidates@),
                        ids_view(self.queried@),
                        (ALPHA - taken) as nat,
                    );
                    (contacts_view(batch@) + rest.0, rest.1, rest.2)
                }),
            decreases ALPHA - taken,
        {
            let ghost cv = contacts_view(self.candidates@);
            let ghost qv = ids_view(self.queried@);
            let node = self.candidates.remove(0);
            proof {
                assert(contacts_view(self.candidates@) =~= cv.drop_first());
                assert(node@ == cv[0]);
            }
            let seen = self.was_queried(&node.id);
            proof {
                lemma_ids_bridge(self.queried@, node@.id);
            }
            if !seen {
                let ghost qbefore = self.queried@;
                self.queried.push(clone_bytes(&node.id));
                proof {
                    assert(ids_view(self.queried@) =~= qv.push(node@.id));
                }
                let ghost bbefore = batch@;
                batch.push(node);
                proof {
                    assert(contacts_view(batch@) =~= contacts_view(bbefore).push(cv[0]));
                    assert(contacts_view(bbefore).push(cv[0]) =~= contacts_view(bbefore) + seq![
                        cv[0],
                    ]);
                    let rest = spec_take_batch(
                        contacts_view(self.candidates@),
                        ids_view(self.queried@),
                        (ALPHA - taken - 1) as nat,
                    );
                    assert(contacts_view(batch@) + rest.0 =~= contacts_view(bbefore) + (seq![
                        cv[0],
                    ] + rest.0));
                }
            }
            taken = taken + 1;
        }
        batch
    }

    /// Whether the queue already holds a contact with the id.
    fn queue_has_id(&self, id: &Vec<u8>) -> (r: bool)
        ensures
            r == cv_has_id(contacts_view(self.candidates@), id@),
    {
        let m = self.candidates.len();
        let mut q: usize = 0;
        while q < m
            invariant
                m == self.candidates@.len(),
                q <= m,
                forall|j: int| 0 <= j < q ==> (#[trigger] self.candidates@[j])@.id != id@,
            decreases m - q,
        {
            if bytes_eq(&self.candidates[q].id, id) {
                proof {
                    assert(contacts_view(self.candidates@)[q as int].id == id@);
                }
                return true;
            }
            q = q + 1;
        }
        proof {
            if cv_has_id(contacts_view(self.candidates@), id@) {
                let w = choose|w: int|
                    0 <= w < contacts_view(self.candidates@).len() && (#[trigger] contacts_view(
                        self.candidates@,
                    )[w]).id == id@;
                assert(self.candidates@[w]@.id == id@);
            }
        }
        false
    }

    /// Merge contacts learned from a response, exactly as `spec_merge`
    /// describes: ids neither queried nor queued join the queue and the
    /// closest list; the rest are dropped.
    pub fn on_response(&mut self, nodes: Vec<Contact>)
        requires
            old(self).wf(),
            forall|i: int| 0 <= i < nodes@.len() ==> (#[trigger] nodes@[i])@.id.len() == ID_LENGTH,
        ensures
            final(self).wf(),
            final(self).target == old(self).target,
            final(self).queried == old(self).queried,
            (contacts_view(final(self).candidates@), contacts_view(final(self).closest@))
                == spec_merge(
                contacts_view(old(self).candidates@),
                contacts_view(old(self).closest@),
                ids_view(old(self).queried@),
                contacts_view(nodes@),
            ),
    {
        let ghost c0 = contacts_view(old(self).candidates@);
        let ghost cl0 = contacts_view(old(self).closest@);
        let ghost q0 = ids_view(old(self).queried@);
        let ghost nv = contacts_view(nodes@);
        let n = nodes.len();
        let mut i: usize = 0;
        proof {
            assert(nv.skip(0) =~= nv);
        }
        while i < n
            invariant
                self.wf(),
                self.target == old(self).target,
                self.queried == old(self).queried,
                q0 == ids_view(self.queried@),
                n == nodes@.len(),
                nv == contacts_view(nodes@),
                forall|j: int| 0 <= j < n ==> (#[trigger] nodes@[j])@.id.len() == ID_LENGTH,
                i <= n,
                spec_merge(c0, cl0, q0, nv) == spec_merge(
                    contacts_view(self.candidates@),
                    contacts_view(self.closest@),
                    q0,
                    nv.skip(i as int),
                ),
            decreases n - i,
        {
            proof {
                assert(nv.skip(i as int)[0] == nv[i as int]);
                assert(nv[i as int] == nodes@[i as int]@);
                assert(nv.skip(i as int).drop_first() =~= nv.skip(i + 1));
            }
            let seen = self.was_queried(&nodes[i].id);
            proof {
                lemma_ids_bridge(self.queried@, nodes@[i as int]@.id);
            }
            let in_queue = self.queue_has_id(&nodes[i].id);
            if !seen && !in_queue {
                let ghost cb = contacts_view(self.candidates@);
                let ghost clb = contacts_view(self.closest@);
                self.candidates.push(nodes[i].duplicate());
                self.closest.push(nodes[i].duplicate());
                proof {
                    assert(contacts_view(self.candidates@) =~= cb.push(nv[i as int]));
                    assert(contacts_view(self.closest@) =~= clb.push(nv[i as int]));
                }
            }
            i = i + 1;
        }
        proof {
            assert(nv.skip(n as int) =~= Seq::<ContactV>::empty());
        }
    }

    /// The known contacts sorted by ascending XOR distance to the target,
    /// truncated to the closest `k`: exactly min(k, known) of them, each
    /// drawn from the closest list.
    pub fn results(&self, k: usize) -> (r: Vec<Contact>)
        requires
            self.wf(),
        ensures
            r@.len() == (if k <= self.closest@.len() {
                k as int
            } else {
                self.closest@.len() as int
            }),
            forall|a: int, b: int|
                0 <= a < b < r@.len() ==> !spec_dist_less(
                    (#[trigger] r@[b])@.id,
                    (#[trigger] r@[a])@.id,
                    self.target@,
                ),
            forall|i: int|
                0 <= i < r@.len() ==> cv_has_id(
                    contacts_view(self.closest@),
                    (#[trigger] r@[i])@.id,
                ),
    {
        let mut sorted: Vec<Contact> = Vec::new();
        let total = self.closest.len();
        let mut x: usize = 0;
        while x < total
            invariant
                self.wf(),
                total == self.closest@.len(),
                x <= total,
                sorted@.len() == x,
                forall|q: int|
                    0 <= q < sorted@.len() ==> (#[trigger] sorted@[q])@.id.len() == ID_LENGTH,
                forall|q: int, y: int|
                    0 <= q < y < sorted@.len() ==> !spec_dist_less(
                        (#[trigger] sorted@[y])@.id,
                        (#[trigger] sorted@[q])@.id,
                        self.target@,
                    ),
                forall|q: int|
                    0 <= q < sorted@.len() ==> cv_has_id(
                        contacts_view(self.closest@),
                        (#[trigger] sorted@[q])@.id,
                    ),
            decreases total - x,
        {
            let c = self.closest[x].duplicate();
            let ghost cvx = c@;
            proof {
                assert(cvx == self.closest@[x as int]@);
                assert(contacts_view(self.closest@)[x as int].id == cvx.id);
                assert(cv_has_id(contacts_view(self.closest@), cvx.id));
            }
            let mut pos: usize = 0;
            while pos < sorted.len()
                invariant
                    self.wf(),
                    cvx.id.len() == ID_LENGTH,
                    cvx == c@,
                    pos <= sorted@.len(),
                    forall|q: int|
                        0 <= q < sorted@.len() ==> (#[trigger] sorted@[q])@.id.len() == ID_LENGTH,
                    forall|j: int|
                        0 <= j < pos ==> !spec_dist_less(
                            cvx.id,
                            (#[trigger] sorted@[j])@.id,
                            self.target@,
                        ),
                ensures
                    pos <= sorted@.len(),
                    forall|j: int|
                        0 <= j < pos ==> !spec_dist_less(
                            cvx.id,
                            (#[trigger] sorted@[j])@.id,
                            self.target@,
                        ),
                    pos < sorted@.len() ==> spec_dist_less(
                        cvx.id,
                        sorted@[pos as int]@.id,
                        self.target@,
                    ),
                decreases sorted@.len() - pos,
            {
                if dist_less(&c.id, &sorted[pos].id, &self.target) {
                    break ;
                }
                pos = pos + 1;
            }
            let ghost before = sorted@;
            let ghost posg = pos as int;
            sorted.insert(pos, c);
            proof {
                assert forall|q: int|
                    0 <= q < sorted@.len() implies (#[trigger] sorted@[q])@.id.len() == ID_LENGTH
                    && cv_has_id(contacts_view(self.closest@), sorted@[q]@.id) by {
                    if q < posg {
                        assert(sorted@[q] == before[q]);
                    } else if q == posg {
                        assert(sorted@[q]@ == cvx);
                    } else {
                        assert(sorted@[q] == before[q - 1]);
                    }
                }
                assert forall|q: int, y: int|
                    0 <= q < y < sorted@.len() implies !spec_dist_less(
                    (#[trigger] sorted@[y])@.id,
                    (#[trigger] sorted@[q])@.id,
                    self.target@,
                ) by {
                    if q == posg && y > posg {
                        assert(sorted@[q]@ == cvx);
                        assert(sorted@[y] == before[y - 1]);
                        assert(spec_dist_less(cvx.id, before[posg]@.id, self.target@));
                        if y - 1 > posg {
                            assert(!spec_dist_less(
                                before[y - 1]@.id,
                                before[posg]@.id,
                                self.target@,
                            ));
                            lemma_dist_less_trans(
                                cvx.id,
                                before[posg]@.id,
                                before[y - 1]@.id,
                                self.target@,
                                0,
                            );
                        } else {
                            lemma_dist_irrefl(before[posg]@.id, self.target@, 0);
                            lemma_dist_less_trans(
                                cvx.id,
                                before[posg]@.id,
                                before[posg]@.id,
                                self.target@,
                                0,
                            );
                        }
                    } else if y == posg {
                        assert(sorted@[q] == before[q]);
                        assert(sorted@[y]@ == cvx);
                        assert(!spec_dist_less(cvx.id, before[q]@.id, self.target@));
                    } else if q < posg && y > posg {
                        assert(sorted@[q] == before[q]);
                        assert(sorted@[y] == before[y - 1]);
                    } else if q > posg {
                        assert(sorted@[q] == before[q - 1]);
                        assert(sorted@[y] == before[y - 1]);
                    } else {
                        assert(sorted@[q] == before[q]);
                        assert(sorted@[y] == before[y]);
                    }
                }
            }
            x = x + 1;
        }
        if sorted.len() > k {
            let ghost before = sorted@;
            sorted.truncate(k);
            proof {
                assert(sorted@ =~= before.subrange(0, k as int));
            }
        }
        sorted
    }
}

/// The passive-caching decision after a value hit: cache at this node
/// exactly when its id stands among the closest `k` contacts to the key.
pub fn should_cache(sorted_closest: &Vec<Contact>, self_id: &Vec<u8>, k: usize) -> (r: bool)
    ensures
        r == exists|i: int|
            0 <= i < sorted_closest@.len() && i < k && (#[trigger] sorted_closest@[i])@.id
                == self_id@,
{
    let bound = if sorted_closest.len() < k {
        sorted_closest.len()
    } else {
        k
    };
    let mut i: usize = 0;
    while i < bound
        invariant
            bound <= sorted_closest@.len(),
            bound <= k,
            bound == (if sorted_closest@.len() < k {
                sorted_closest@.len() as int
            } else {
                k as int
            }),
            i <= bound,
            forall|j: int| 0 <= j < i ==> (#[trigger] sorted_closest@[j])@.id != self_id@,
        decreases bound - i,
    {
        if bytes_eq(&sorted_closest[i].id, self_id) {
            proof {
                assert(sorted_closest@[i as int]@.id == self_id@);
            }
            return true;
        }
        i = i + 1;
    }
    false
}

} // verus!
