//! Byte-keyed maps backed by association lists with unique keys: balances
//! and nonce tracking (keys to u64, absent meaning zero) and the local
//! key-value store (keys to byte strings).
use vstd::prelude::*;

verus! {

/// Equality of two byte vectors, reflected into their views.
pub fn bytes_eq(a: &Vec<u8>, b: &Vec<u8>) -> (r: bool)
    ensures
        r == (a@ == b@),
{
    let r = a == b;
    proof {
        if r {
            assert(a@ =~= b@);
        } else {
            if a@ == b@ {
                assert(a.len() == b.len());
                assert(forall|i: int| 0 <= i < a.len() ==> a[i] == b[i]);
            }
        }
    }
    r
}

/// A copy of a byte vector whose view provably equals the original's.
pub fn clone_bytes(v: &Vec<u8>) -> (r: Vec<u8>)
    ensures
        r@ == v@,
{
    let r = v.clone();
    proof {
        assert(r@ =~= v@);
    }
    r
}

/// First value bound to `k`, scanning from the front.
pub open spec fn lookup_kv<V>(s: Seq<(Vec<u8>, V)>, k: Seq<u8>) -> Option<V>
    decreases s.len(),
{
    if s.len() == 0 {
        None
    } else if s[0].0@ == k {
        Some(s[0].1)
    } else {
        lookup_kv(s.drop_first(), k)
    }
}

proof fn lemma_lookup_skip<V>(s: Seq<(Vec<u8>, V)>, i: int, k: Seq<u8>)
    requires
        0 <= i <= s.len(),
        forall|j: int| 0 <= j < i ==> s[j].0@ != k,
    ensures
        lookup_kv(s, k) == lookup_kv(s.skip(i), k),
    decreases i,
{
    if i > 0 {
        assert(s[0].0@ != k);
        assert(forall|j: int| 0 <= j < i - 1 ==> s.drop_first()[j].0@ != k);
        lemma_lookup_skip(s.drop_first(), i - 1, k);
        assert(s.drop_first().skip(i - 1) =~= s.skip(i));
    } else {
        assert(s.skip(0) =~= s);
    }
}

proof fn lemma_lookup_update<V>(s: Seq<(Vec<u8>, V)>, i: int, p: (Vec<u8>, V), k: Seq<u8>)
    requires
        0 <= i < s.len(),
        s[i].0@ == p.0@,
        forall|j: int| 0 <= j < i ==> s[j].0@ != p.0@,
    ensures
        lookup_kv(s.update(i, p), k) == if k == p.0@ {
            Some(p.1)
        } else {
            lookup_kv(s, k)
        },
    decreases i,
{
    let t = s.update(i, p);
    if i == 0 {
        assert(t[0] == p);
        if k != p.0@ {
            assert(t.drop_first() =~= s.drop_first());
        }
    } else {
        assert(t[0] == s[0]);
        assert(t.drop_first() =~= s.drop_first().update(i - 1, p));
        lemma_lookup_update(s.drop_first(), i - 1, p, k);
    }
}

proof fn lemma_lookup_push<V>(s: Seq<(Vec<u8>, V)>, p: (Vec<u8>, V), k: Seq<u8>)
    requires
        forall|j: int| 0 <= j < s.len() ==> s[j].0@ != p.0@,
    ensures
        lookup_kv(s.push(p), k) == if k == p.0@ {
            Some(p.1)
        } else {
            lookup_kv(s, k)
        },
    decreases s.len(),
{
    if s.len() == 0 {
        assert(s.push(p)[0] == p);
        if k != p.0@ {
            assert(lookup_kv(s.push(p).drop_first(), k) == lookup_kv(s.push(p).skip(1), k));
            assert(s.push(p).skip(1) =~= s);
        }
    } else {
        assert(s.push(p)[0] == s[0]);
        assert(s.push(p).drop_first() =~= s.drop_first().push(p));
        lemma_lookup_push(s.drop_first(), p, k);
    }
}

/// Map from byte keys to u64 values; a key that is absent counts as 0.
/// Backs both the balance table and the per-sender nonce tracker.
pub struct BalanceMap {
    entries: Vec<(Vec<u8>, u64)>,
}

impl BalanceMap {
    /// Keys are pairwise distinct.
    pub closed spec fn wf(&self) -> bool {
        forall|i: int, j: int|
            0 <= i < j < self.entries@.len() ==> self.entries@[i].0@ != self.entries@[j].0@
    }

    /// The value bound to `k`, with 0 for an absent key.
    pub closed spec fn spec_get(&self, k: Seq<u8>) -> u64 {
        match lookup_kv(self.entries@, k) {
            Some(v) => v,
            None => 0,
        }
    }

    pub fn new() -> (r: Self)
        ensures
            r.wf(),
            forall|k: Seq<u8>| r.spec_get(k) == 0,
    {
        BalanceMap { entries: Vec::new() }
    }

    pub fn get(&self, key: &Vec<u8>) -> (r: u64)
        requires
            self.wf(),
        ensures
            r == self.spec_get(key@),
    {
        let n = self.entries.len();
        let mut i: usize = 0;
        while i < n
            invariant
                n == self.entries@.len(),
                i <= n,
                forall|j: int| 0 <= j < i ==> self.entries@[j].0@ != key@,
            decreases n - i,
        {
            if bytes_eq(&self.entries[i].0, key) {
                proof {
                    lemma_lookup_skip(self.entries@, i as int, key@);
                    assert(self.entries@.skip(i as int)[0] == self.entries@[i as int]);
                }
                return self.entries[i].1;
            }
            i = i + 1;
        }
        proof {
            lemma_lookup_skip(self.entries@, n as int, key@);
            assert(self.entries@.skip(n as int) =~= Seq::<(Vec<u8>, u64)>::empty());
        }
        0
    }

    /// Bind `key` to `v`, replacing any previous binding.
    pub fn set(&mut self, key: &Vec<u8>, v: u64)
        requires
            old(self).wf(),
        ensures
            final(self).wf(),
            forall|k: Seq<u8>|
                final(self).spec_get(k) == if k == key@ {
                    v
                } else {
                    old(self).spec_get(k)
                },
    {
        let n = self.entries.len();
        let mut i: usize = 0;
        while i < n
            invariant
                self == old(self),
                old(self).wf(),
                n == self.entries@.len(),
                i <= n,
                forall|j: int| 0 <= j < i ==> self.entries@[j].0@ != key@,
            decreases n - i,
        {
            if bytes_eq(&self.entries[i].0, key) {
                let p = (clone_bytes(key), v);
                proof {
                    lemma_lookup_skip(self.entries@, i as int, key@);
                    assert(self.entries@.skip(i as int)[0] == self.entries@[i as int]);
                    assert forall|k: Seq<u8>|
                        lookup_kv(self.entries@.update(i as int, p), k) == (if k == key@ {
                            Some(v)
                        } else {
                            lookup_kv(self.entries@, k)
                        }) by {
                        lemma_lookup_update(self.entries@, i as int, p, k);
                    }
                }
                let ghost before = self.entries@;
                proof {
                    assert(before[i as int].0@ == key@);
                }
                self.entries[i] = p;
                proof {
                    assert(self.entries@ == before.update(i as int, p));
                    assert forall|a: int, b: int|
                        0 <= a < b < self.entries@.len() implies self.entries@[a].0@
                        != self.entries@[b].0@ by {
                        assert(old(self).entries@[a].0@ != old(self).entries@[b].0@);
                        if a == i {
                            assert(self.entries@[a].0@ == key@);
                        }
                        if b == i {
                            assert(self.entries@[b].0@ == key@);
                        }
                    }
                }
                return ;
            }
            i = i + 1;
        }
        let p = (clone_bytes(key), v);
        proof {
            lemma_lookup_skip(self.entries@, n as int, key@);
            assert(self.entries@.skip(n as int) =~= Seq::<(Vec<u8>, u64)>::empty());
            assert forall|k: Seq<u8>|
                lookup_kv(self.entries@.push(p), k) == (if k == key@ {
                    Some(v)
                } else {
                    lookup_kv(self.entries@, k)
                }) by {
                lemma_lookup_push(self.entries@, p, k);
            }
        }
        self.entries.push(p);
    }

    /// Drop every binding.
    pub fn clear(&mut self)
        ensures
            final(self).wf(),
            forall|k: Seq<u8>| final(self).spec_get(k) == 0,
    {
        self.entries.clear();
    }

    /// A copy with the same bindings.
    pub fn duplicate(&self) -> (r: Self)
        requires
            self.wf(),
        ensures
            r.wf(),
            forall|k: Seq<u8>| r.spec_get(k) == self.spec_get(k),
    {
        let mut entries: Vec<(Vec<u8>, u64)> = Vec::new();
        let n = self.entries.len();
        let mut i: usize = 0;
        while i < n
            invariant
                n == self.entries@.len(),
                i <= n,
                entries@.len() == i,
                forall|j: int|
                    0 <= j < i ==> entries@[j].0@ == self.entries@[j].0@ && entries@[j].1
                        == self.entries@[j].1,
            decreases n - i,
        {
            entries.push((clone_bytes(&self.entries[i].0), self.entries[i].1));
            i = i + 1;
        }
        let r = BalanceMap { entries };
        proof {
            assert(r.wf()) by {
                assert(forall|i: int, j: int|
                    0 <= i < j < r.entries@.len() ==> r.entries@[i].0@ != r.entries@[j].0@);
            }
            assert forall|k: Seq<u8>| r.spec_get(k) == self.spec_get(k) by {
                lemma_lookup_congruent(r.entries@, self.entries@, k);
            }
        }
        r
    }
}

proof fn lemma_lookup_congruent(a: Seq<(Vec<u8>, u64)>, b: Seq<(Vec<u8>, u64)>, k: Seq<u8>)
    requires
        a.len() == b.len(),
        forall|j: int| 0 <= j < a.len() ==> a[j].0@ == b[j].0@ && a[j].1 == b[j].1,
    ensures
        lookup_kv(a, k) == lookup_kv(b, k),
    decreases a.len(),
{
    if a.len() > 0 {
        lemma_lookup_congruent(a.drop_first(), b.drop_first(), k);
    }
}


/// Map from byte keys to byte-string values: the node's local store.
pub struct StoreMap {
    entries: Vec<(Vec<u8>, Vec<u8>)>,
}

impl StoreMap {
    /// Keys are pairwise distinct.
    pub closed spec fn wf(&self) -> bool {
        forall|i: int, j: int|
            0 <= i < j < self.entries@.len() ==> self.entries@[i].0@ != self.entries@[j].0@
    }

    /// The value bound to `k`, if any.
    pub closed spec fn spec_get(&self, k: Seq<u8>) -> Option<Seq<u8>> {
        match lookup_kv(self.entries@, k) {
            Some(v) => Some(v@),
            None => None,
        }
    }

    pub fn new() -> (r: Self)
        ensures
            r.wf(),
            forall|k: Seq<u8>| r.spec_get(k) is None,
    {
        StoreMap { entries: Vec::new() }
    }

    pub fn get(&self, key: &Vec<u8>) -> (r: Option<Vec<u8>>)
        requires
            self.wf(),
        ensures
            r is Some <==> self.spec_get(key@) is Some,
            r is Some ==> r.unwrap()@ == self.spec_get(key@).unwrap(),
    {
        let n = self.entries.len();
        let mut i: usize = 0;
        while i < n
            invariant
                n == self.entries@.len(),
                i <= n,
                forall|j: int| 0 <= j < i ==> self.entries@[j].0@ != key@,
            decreases n - i,
        {
            if bytes_eq(&self.entries[i].0, key) {
                proof {
                    lemma_lookup_skip(self.entries@, i as int, key@);
                    assert(self.entries@.skip(i as int)[0] == self.entries@[i as int]);
                }
                return Some(clone_bytes(&self.entries[i].1));
            }
            i = i + 1;
        }
        proof {
            lemma_lookup_skip(self.entries@, n as int, key@);
            assert(self.entries@.skip(n as int) =~= Seq::<(Vec<u8>, Vec<u8>)>::empty());
        }
        None
    }

    /// Bind `key` to `value`, replacing any previous binding.
    pub fn insert(&mut self, key: &Vec<u8>, value: Vec<u8>)
        requires
            old(self).wf(),
        ensures
            final(self).wf(),
            final(self).spec_get(key@) == Some(value@),
            forall|k: Seq<u8>| k != key@ ==> final(self).spec_get(k) == old(self).spec_get(k),
    {
        let n = self.entries.len();
        let mut i: usize = 0;
        while i < n
            invariant
                self == old(self),
                old(self).wf(),
                n == self.entries@.len(),
                i <= n,
                forall|j: int| 0 <= j < i ==> self.entries@[j].0@ != key@,
            decreases n - i,
        {
            if bytes_eq(&self.entries[i].0, key) {
                let p = (clone_bytes(key), value);
                proof {
                    lemma_lookup_skip(self.entries@, i as int, key@);
                    assert(self.entries@.skip(i as int)[0] == self.entries@[i as int]);
                    assert forall|k: Seq<u8>|
                        lookup_kv(self.entries@.update(i as int, p), k) == (if k == key@ {
                            Some(p.1)
                        } else {
                            lookup_kv(self.entries@, k)
                        }) by {
                        lemma_lookup_update(self.entries@, i as int, p, k);
                    }
                }
                let ghost before = self.entries@;
                proof {
                    assert(before[i as int].0@ == key@);
                }
                self.entries[i] = p;
                proof {
                    assert(self.entries@ == before.update(i as int, p));
                    assert forall|a: int, b: int|
                        0 <= a < b < self.entries@.len() implies self.entries@[a].0@
                        != self.entries@[b].0@ by {
                        assert(old(self).entries@[a].0@ != old(self).entries@[b].0@);
                        if a == i {
                            assert(self.entries@[a].0@ == key@);
                        }
                        if b == i {
                            assert(self.entries@[b].0@ == key@);
                        }
                    }
                }
                return ;
            }
            i = i + 1;
        }
        let p = (clone_bytes(key), value);
        proof {
            lemma_lookup_skip(self.entries@, n as int, key@);
            assert(self.entries@.skip(n as int) =~= Seq::<(Vec<u8>, Vec<u8>)>::empty());
            assert forall|k: Seq<u8>|
                lookup_kv(self.entries@.push(p), k) == (if k == key@ {
                    Some(p.1)
                } else {
                    lookup_kv(self.entries@, k)
                }) by {
                lemma_lookup_push(self.entries@, p, k);
            }
        }
        self.entries.push(p);
    }
}

} // verus!
