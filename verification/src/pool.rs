//! The transaction pool: admission with nonce discipline and fee floors,
//! fee-ordered selection for block assembly, and post-commit cleanup that
//! keeps only entries strictly above each sender's committed nonce.
use vstd::prelude::*;

use crate::bytemap::bytes_eq;
use crate::constants::MAX_POOL_SIZE;
use crate::constants::MAX_TXS_PER_SENDER;
use crate::constants::MIN_FEE_RATE;
use crate::constants::TX_EXPIRY_TIME_MS;
use crate::now;
use crate::transaction::NonceTracker;
use crate::transaction::PublicKey;
use crate::transaction::Transaction;
use crate::transaction::TransactionType;
use crate::transaction::TxHash;
use crate::transaction::TxV;
use crate::transaction::spec_tx_data_bytes;
use crate::transaction::spec_tx_valid_at;
use crate::transaction::tx_data_bounded;
use crate::transaction::tx_data_bytes;

verus! {

/// A pool entry: the transaction with its admission time and fee rate.
pub struct PoolTransaction {
    pub transaction: Transaction,
    pub added_at: u128,
    pub fee_per_byte: u64,
}

/// The pending set, with the committed-nonce tracker it is pruned by.
pub struct TransactionPool {
    pub entries: Vec<PoolTransaction>,
    pub nonce_tracker: NonceTracker,
    pub total_size: usize,
}

/// Whether some entry carries the hash `h`.
pub open spec fn pool_contains_hash(entries: Seq<PoolTransaction>, h: Seq<u8>) -> bool {
    exists|i: int| 0 <= i < entries.len() && entries[i].transaction@.tx_hash == h
}

/// How many entries a sender has pending.
pub open spec fn spec_sender_count(s: Seq<PoolTransaction>, sender: Seq<u8>) -> nat
    decreases s.len(),
{
    if s.len() == 0 {
        0
    } else {
        spec_sender_count(s.drop_last(), sender) + if s.last().transaction@.data.sender
            == sender {
            1nat
        } else {
            0nat
        }
    }
}

/// The highest nonce a sender has pending, 0 where none.
pub open spec fn spec_highest_nonce(s: Seq<PoolTransaction>, sender: Seq<u8>) -> u64
    decreases s.len(),
{
    if s.len() == 0 {
        0
    } else {
        let rest = spec_highest_nonce(s.drop_last(), sender);
        if s.last().transaction@.data.sender == sender && s.last().transaction@.data.nonce
            > rest {
            s.last().transaction@.data.nonce
        } else {
            rest
        }
    }
}

/// Whether a sender already has a pending entry with nonce `n`.
pub open spec fn spec_nonce_taken(s: Seq<PoolTransaction>, sender: Seq<u8>, n: u64) -> bool {
    exists|i: int|
        0 <= i < s.len() && (#[trigger] s[i]).transaction@.data.sender == sender
            && s[i].transaction@.data.nonce == n
}

/// The deterministic size estimate of a transaction: its payload encoding
/// plus a fixed overhead, saturated; the overhead alone for a transaction
/// whose fields overflow their length prefixes.
pub open spec fn spec_tx_size(t: TxV) -> usize {
    if tx_data_bounded(t.data) {
        if spec_tx_data_bytes(t.data).len() + 100 > usize::MAX {
            usize::MAX
        } else {
            (spec_tx_data_bytes(t.data).len() + 100) as usize
        }
    } else {
        100
    }
}

/// The fee rate of a transaction over its size estimate.
pub open spec fn spec_fee_rate(t: TxV) -> u64 {
    t.data.fee / spec_tx_size(t) as u64
}

/// Whether the pool admits `t` at time `now_ms`: hash absent, valid at
/// that time, sender quota free, the nonce neither a gap above the
/// sender's highest pending nonce nor a duplicate of a pending one (a
/// sender with nothing pending is under no nonce rule at admission;
/// stale nonces fall to the post-commit sweep), and the fee rate at the
/// floor.
pub open spec fn spec_admits(entries: Seq<PoolTransaction>, t: TxV, now_ms: u128) -> bool {
    &&& !pool_contains_hash(entries, t.tx_hash)
    &&& spec_tx_valid_at(t, now_ms)
    &&& spec_sender_count(entries, t.data.sender) < MAX_TXS_PER_SENDER
    &&& (spec_sender_count(entries, t.data.sender) > 0 ==> {
        &&& !(spec_highest_nonce(entries, t.data.sender) < u64::MAX && t.data.nonce
            > spec_highest_nonce(entries, t.data.sender) + 1)
        &&& !spec_nonce_taken(entries, t.data.sender, t.data.nonce)
    })
    &&& spec_fee_rate(t) >= MIN_FEE_RATE
}


/// Whether some pool entry carries exactly the transaction `t`.
pub open spec fn tx_in_pool(entries: Seq<PoolTransaction>, t: TxV) -> bool {
    exists|j: int| 0 <= j < entries.len() && (#[trigger] entries[j]).transaction@ == t
}

/// Whether `e` is one of the entries of `s`.
pub open spec fn entry_among(s: Seq<PoolTransaction>, e: PoolTransaction) -> bool {
    exists|j: int| 0 <= j < s.len() && (#[trigger] s[j]) == e
}


/// Whether entry `a` sorts strictly before entry `b` for block assembly:
/// higher fee per byte first, ascending nonce on a tie.
pub open spec fn fee_before(e: Seq<PoolTransaction>, a: int, b: int) -> bool {
    e[a].fee_per_byte > e[b].fee_per_byte || (e[a].fee_per_byte == e[b].fee_per_byte
        && e[a].transaction@.data.nonce < e[b].transaction@.data.nonce)
}

/// Insert index `x` into an order, before the first entry it sorts
/// strictly before.
pub open spec fn spec_fee_insert(order: Seq<int>, e: Seq<PoolTransaction>, x: int) -> Seq<int>
    decreases order.len(),
{
    if order.len() == 0 {
        seq![x]
    } else if fee_before(e, x, order[0]) {
        seq![x] + order
    } else {
        seq![order[0]] + spec_fee_insert(order.drop_first(), e, x)
    }
}

/// The assembly order of the first `n` entries: indices sorted by
/// descending fee per byte, ties by ascending nonce, built by insertion.
pub open spec fn spec_fee_order(e: Seq<PoolTransaction>, n: nat) -> Seq<int>
    decreases n,
{
    if n == 0 {
        Seq::empty()
    } else {
        spec_fee_insert(spec_fee_order(e, (n - 1) as nat), e, n - 1)
    }
}

proof fn lemma_fee_insert_at(order: Seq<int>, e: Seq<PoolTransaction>, x: int, pos: int)
    requires
        0 <= pos <= order.len(),
        forall|j: int| 0 <= j < pos ==> !fee_before(e, x, #[trigger] order[j]),
        pos < order.len() ==> fee_before(e, x, order[pos]),
    ensures
        spec_fee_insert(order, e, x) == order.subrange(0, pos) + seq![x] + order.skip(pos),
    decreases pos,
{
    if order.len() == 0 {
        assert(spec_fee_insert(order, e, x) =~= order.subrange(0, pos) + seq![x] + order.skip(
            pos,
        ));
    } else if pos == 0 {
        if fee_before(e, x, order[0]) {
            assert(spec_fee_insert(order, e, x) =~= order.subrange(0, 0) + seq![x] + order.skip(
                0,
            ));
        }
    } else {
        assert(!fee_before(e, x, order[0]));
        assert(forall|j: int| 0 <= j < pos - 1 ==> !fee_before(
            e,
            x,
            #[trigger] order.drop_first()[j],
        ));
        lemma_fee_insert_at(order.drop_first(), e, x, pos - 1);
        assert(spec_fee_insert(order, e, x) =~= order.subrange(0, pos) + seq![x] + order.skip(
            pos,
        ));
    }
}

/// The expected-nonce table advanced to a picked transaction's nonce.
pub open spec fn spec_step_expected(exp: spec_fn(Seq<u8>) -> u64, t: TxV) -> spec_fn(
    Seq<u8>,
) -> u64 {
    |s: Seq<u8>|
        if s == t.data.sender {
            t.data.nonce
        } else {
            exp(s)
        }
}

/// The greedy walk over the assembly order from position `k`: a candidate
/// is taken exactly when it fits the remaining byte and gas budgets, the
/// block cap is not reached, and its nonce is the successor of its
/// sender's expected nonce; taking it advances that expectation.
pub open spec fn spec_greedy(
    e: Seq<PoolTransaction>,
    order: Seq<int>,
    k: nat,
    exp: spec_fn(Seq<u8>) -> u64,
    total_b: int,
    total_g: int,
    max_size: int,
    max_gas: int,
    picked: nat,
) -> Seq<TxV>
    decreases order.len() - k,
{
    if k >= order.len() || picked >= 1000 {
        Seq::empty()
    } else if 0 <= order[k as int] < e.len() {
        let t = e[order[k as int]].transaction@;
        let sz = spec_tx_size(t) as int;
        let g = spec_gas_cost(t) as int;
        let cur = exp(t.data.sender);
        if total_b + sz <= max_size && total_g + g <= max_gas && cur < u64::MAX && t.data.nonce
            == cur + 1 {
            seq![t] + spec_greedy(
                e,
                order,
                k + 1,
                spec_step_expected(exp, t),
                total_b + sz,
                total_g + g,
                max_size,
                max_gas,
                picked + 1,
            )
        } else {
            spec_greedy(e, order, k + 1, exp, total_b, total_g, max_size, max_gas, picked)
        }
    } else {
        spec_greedy(e, order, k + 1, exp, total_b, total_g, max_size, max_gas, picked)
    }
}

/// What block assembly selects from a pool: the greedy walk over the
/// fee order, expectations seeded from the committed-nonce tracker.
pub open spec fn spec_selection(
    e: Seq<PoolTransaction>,
    committed: spec_fn(Seq<u8>) -> u64,
    max_size: int,
    max_gas: int,
) -> Seq<TxV> {
    spec_greedy(e, spec_fee_order(e, e.len()), 0, committed, 0, 0, max_size, max_gas, 0)
}

/// The views of a list of transactions.
pub open spec fn sel_views(s: Seq<Transaction>) -> Seq<TxV> {
    Seq::new(s.len(), |i: int| s[i]@)
}

/// The order indices as mathematical integers.
pub open spec fn idx_views(s: Seq<usize>) -> Seq<int> {
    Seq::new(s.len(), |i: int| s[i] as int)
}


/// Whether `t` is the transaction of one of the first `i` entries.
pub open spec fn tx_in_prefix(entries: Seq<PoolTransaction>, i: int, t: TxV) -> bool {
    exists|j: int| 0 <= j < i && j < entries.len() && (#[trigger] entries[j]).transaction@ == t
}

/// Whether a pool entry is still within the expiry window at `now_ms`.
pub open spec fn entry_fresh(e: PoolTransaction, now_ms: u128) -> bool {
    now_ms < e.added_at || now_ms - e.added_at <= TX_EXPIRY_TIME_MS
}

/// The entries still fresh at `now_ms`, in order.
pub open spec fn spec_keep_fresh(s: Seq<PoolTransaction>, now_ms: u128) -> Seq<PoolTransaction>
    decreases s.len(),
{
    if s.len() == 0 {
        s
    } else {
        let rest = spec_keep_fresh(s.drop_last(), now_ms);
        if entry_fresh(s.last(), now_ms) {
            rest.push(s.last())
        } else {
            rest
        }
    }
}

/// A tracker advanced by one committed transaction: the sender's nonce
/// moves to the transaction's, never backwards.
pub open spec fn spec_advance_one(f: spec_fn(Seq<u8>) -> u64, t: TxV) -> spec_fn(Seq<u8>) -> u64 {
    |k: Seq<u8>|
        if k == t.data.sender && t.data.nonce > f(t.data.sender) {
            t.data.nonce
        } else {
            f(k)
        }
}

/// A tracker advanced by a list of transactions, in order.
pub open spec fn spec_advance_nonces(f: spec_fn(Seq<u8>) -> u64, txs: Seq<TxV>) -> spec_fn(
    Seq<u8>,
) -> u64
    decreases txs.len(),
{
    if txs.len() == 0 {
        f
    } else {
        spec_advance_nonces(spec_advance_one(f, txs[0]), txs.drop_first())
    }
}

pub proof fn lemma_advance_nonces_push(f: spec_fn(Seq<u8>) -> u64, txs: Seq<TxV>, t: TxV)
    ensures
        spec_advance_nonces(f, txs.push(t)) == spec_advance_one(spec_advance_nonces(f, txs), t),
    decreases txs.len(),
{
    if txs.len() == 0 {
        assert(txs.push(t)[0] == t);
        assert(txs.push(t).drop_first() =~= Seq::<TxV>::empty());
        reveal_with_fuel(spec_advance_nonces, 2);
    } else {
        assert(txs.push(t)[0] == txs[0]);
        assert(txs.push(t).drop_first() =~= txs.drop_first().push(t));
        lemma_advance_nonces_push(spec_advance_one(f, txs[0]), txs.drop_first(), t);
    }
}


/// A sender with count zero has no entry in the pool.
proof fn lemma_sender_count_zero(s: Seq<PoolTransaction>, sender: Seq<u8>)
    requires
        spec_sender_count(s, sender) == 0,
    ensures
        forall|i: int| 0 <= i < s.len() ==> (#[trigger] s[i]).transaction@.data.sender != sender,
    decreases s.len(),
{
    if s.len() > 0 {
        lemma_sender_count_zero(s.drop_last(), sender);
        assert forall|i: int|
            0 <= i < s.len() implies (#[trigger] s[i]).transaction@.data.sender != sender by {
            if i < s.len() - 1 {
                assert(s.drop_last()[i] == s[i]);
            }
        }
    }
}

/// A removed element leaves every other element's absence intact.
proof fn lemma_remove_keeps_absent(s: Seq<PoolTransaction>, i: int, h: Seq<u8>)
    requires
        0 <= i < s.len(),
        !pool_contains_hash(s, h),
    ensures
        !pool_contains_hash(s.remove(i), h),
{
    let t = s.remove(i);
    assert forall|a: int| 0 <= a < t.len() implies t[a].transaction@.tx_hash != h by {
        let a0 = if a < i {
            a
        } else {
            a + 1
        };
        assert(t[a] == s[a0]);
    }
}

/// The deterministic size estimate, exactly `spec_tx_size`.
pub fn estimate_transaction_size(tx: &Transaction) -> (r: usize)
    ensures
        r == spec_tx_size(tx@),
        r >= 100,
{
    if !(tx.data.sender.len() as u64 <= u32::MAX as u64) {
        return 100;
    }
    let receiver_ok = match &tx.data.receiver {
        Some(x) => x.len() as u64 <= u32::MAX as u64,
        None => true,
    };
    let data_ok = match &tx.data.data {
        Some(x) => x.len() as u64 <= u32::MAX as u64,
        None => true,
    };
    if !(receiver_ok && data_ok) {
        return 100;
    }
    let encoded = tx_data_bytes(&tx.data);
    if encoded.len() > usize::MAX - 100 {
        usize::MAX
    } else {
        encoded.len() + 100
    }
}

impl TransactionPool {
    /// Entries carry pairwise distinct hashes, one sender never holds two
    /// entries with one nonce, and the tracker is well-formed.
    pub open spec fn wf(&self) -> bool {
        &&& (forall|i: int, j: int|
            0 <= i < j < self.entries@.len() ==> (#[trigger] self.entries@[i]).transaction@.tx_hash
                != (#[trigger] self.entries@[j]).transaction@.tx_hash)
        &&& (forall|i: int, j: int|
            0 <= i < j < self.entries@.len() && (#[trigger] self.entries@[i]).transaction@.data.sender
                == (#[trigger] self.entries@[j]).transaction@.data.sender
                ==> self.entries@[i].transaction@.data.nonce
                != self.entries@[j].transaction@.data.nonce)
        &&& self.nonce_tracker.wf()
    }

    pub fn new() -> (r: Self)
        ensures
            r.wf(),
            r.entries@.len() == 0,
            r.total_size == 0,
            forall|k: Seq<u8>| r.nonce_tracker.spec_nonce(k) == 0,
    {
        TransactionPool { entries: Vec::new(), nonce_tracker: NonceTracker::new(), total_size: 0 }
    }

    /// The number of pending entries.
    pub fn size(&self) -> (r: usize)
        ensures
            r == self.entries@.len(),
    {
        self.entries.len()
    }

    /// The tracked byte size of the pool.
    pub fn total_memory_usage(&self) -> (r: usize)
        ensures
            r == self.total_size,
    {
        self.total_size
    }

    /// Drop every entry; the committed-nonce tracker is kept.
    pub fn clear(&mut self)
        requires
            old(self).wf(),
        ensures
            final(self).wf(),
            final(self).entries@.len() == 0,
            final(self).total_size == 0,
            final(self).nonce_tracker == old(self).nonce_tracker,
    {
        self.entries.clear();
        self.total_size = 0;
    }

    /// Index of the entry carrying `tx_hash`, if any.
    fn find_entry(&self, tx_hash: &TxHash) -> (r: Option<usize>)
        ensures
            r matches Some(i) ==> i < self.entries@.len()
                && self.entries@[i as int].transaction@.tx_hash == tx_hash@,
            r is None ==> !pool_contains_hash(self.entries@, tx_hash@),
    {
        let n = self.entries.len();
        let mut i: usize = 0;
        while i < n
            invariant
                n == self.entries@.len(),
                i <= n,
                forall|j: int|
                    0 <= j < i ==> (#[trigger] self.entries@[j]).transaction@.tx_hash != tx_hash@,
            decreases n - i,
        {
            if bytes_eq(&self.entries[i].transaction.tx_hash, tx_hash) {
                return Some(i);
            }
            i = i + 1;
        }
        None
    }

    /// The pending transaction carrying `tx_hash`, if any.
    pub fn get_transaction(&self, tx_hash: &TxHash) -> (r: Option<&Transaction>)
        ensures
            r is Some <==> pool_contains_hash(self.entries@, tx_hash@),
            r matches Some(tx) ==> tx@.tx_hash == tx_hash@,
    {
        match self.find_entry(tx_hash) {
            Some(i) => Some(&self.entries[i].transaction),
            None => None,
        }
    }

    /// Remove the entry at `i`, releasing its tracked size.
    fn remove_entry_at(&mut self, i: usize)
        requires
            old(self).wf(),
            i < old(self).entries@.len(),
        ensures
            final(self).wf(),
            final(self).entries@ == old(self).entries@.remove(i as int),
            final(self).nonce_tracker == old(self).nonce_tracker,
            final(self).total_size == (if old(self).total_size >= spec_tx_size(
                old(self).entries@[i as int].transaction@,
            ) {
                (old(self).total_size - spec_tx_size(
                    old(self).entries@[i as int].transaction@,
                )) as usize
            } else {
                0
            }),
    {
        let ghost before = self.entries@;
        let entry = self.entries.remove(i);
        let sz = estimate_transaction_size(&entry.transaction);
        if self.total_size >= sz {
            self.total_size = self.total_size - sz;
        } else {
            self.total_size = 0;
        }
        proof {
            assert forall|a: int, b: int|
                0 <= a < b < self.entries@.len() implies (#[trigger] self.entries@[a])
                .transaction@.tx_hash != (#[trigger] self.entries@[b]).transaction@.tx_hash && ((
            #[trigger] self.entries@[a]).transaction@.data.sender == (
            #[trigger] self.entries@[b]).transaction@.data.sender
                ==> self.entries@[a].transaction@.data.nonce
                != self.entries@[b].transaction@.data.nonce) by {
                let a0 = if a < i {
                    a
                } else {
                    a + 1
                };
                let b0 = if b < i {
                    b
                } else {
                    b + 1
                };
                assert(self.entries@[a] == before[a0]);
                assert(self.entries@[b] == before[b0]);
            }
        }
    }

    /// Remove and return the entry carrying `tx_hash`, if any; the pool's
    /// tracked size shrinks by the entry's size estimate.
    pub fn remove_transaction(&mut self, tx_hash: &TxHash) -> (r: Option<Transaction>)
        requires
            old(self).wf(),
        ensures
            final(self).wf(),
            r is Some <==> pool_contains_hash(old(self).entries@, tx_hash@),
            r matches Some(tx) ==> tx@.tx_hash == tx_hash@ && exists|i: int|
                0 <= i < old(self).entries@.len() && tx@ == (#[trigger] old(self).entries@[i]).transaction@ && final(self).entries@ == old(self).entries@.remove(i)
                    && final(self).total_size == (if old(self).total_size >= spec_tx_size(
                    old(self).entries@[i].transaction@,
                ) {
                    (old(self).total_size - spec_tx_size(
                        old(self).entries@[i].transaction@,
                    )) as usize
                } else {
                    0
                }),
            r is None ==> *final(self) == *old(self),
            !pool_contains_hash(final(self).entries@, tx_hash@),
            final(self).nonce_tracker == old(self).nonce_tracker,
    {
        let ghost before = self.entries@;
        match self.find_entry(tx_hash) {
            Some(i) => {
                let tx = self.entries[i].transaction.duplicate();
                self.remove_entry_at(i);
                proof {
                    assert forall|a: int|
                        0 <= a < self.entries@.len() implies (#[trigger] self.entries@[a])
                        .transaction@.tx_hash != tx_hash@ by {
                        let a0 = if a < i {
                            a
                        } else {
                            a + 1
                        };
                        assert(self.entries@[a] == before.remove(i as int)[a]);
                        assert(before.remove(i as int)[a] == before[a0]);
                        if a0 != i {
                            assert(before[a0].transaction@.tx_hash != before[i as int
                            ].transaction@.tx_hash);
                        }
                    }
                }
                Some(tx)
            },
            None => None,
        }
    }

    /// A sender's pending count, highest pending nonce, and whether the
    /// sender already holds `nonce`.
    fn sender_stats(&self, sender: &PublicKey, nonce: u64) -> (r: (usize, u64, bool))
        ensures
            r.0 == spec_sender_count(self.entries@, sender@),
            r.1 == spec_highest_nonce(self.entries@, sender@),
            r.2 == spec_nonce_taken(self.entries@, sender@, nonce),
    {
        let mut count: usize = 0;
        let mut highest: u64 = 0;
        let mut dup = false;
        let n = self.entries.len();
        let mut i: usize = 0;
        proof {
            assert(self.entries@.subrange(0, 0) =~= Seq::<PoolTransaction>::empty());
        }
        while i < n
            invariant
                n == self.entries@.len(),
                i <= n,
                count == spec_sender_count(self.entries@.subrange(0, i as int), sender@),
                count <= i,
                highest == spec_highest_nonce(self.entries@.subrange(0, i as int), sender@),
                dup == spec_nonce_taken(self.entries@.subrange(0, i as int), sender@, nonce),
            decreases n - i,
        {
            proof {
                let s1 = self.entries@.subrange(0, i + 1);
                assert(s1.drop_last() =~= self.entries@.subrange(0, i as int));
                assert(s1.last() == self.entries@[i as int]);
            }
            let e = &self.entries[i];
            if bytes_eq(&e.transaction.data.sender, sender) {
                count = count + 1;
                if e.transaction.data.nonce > highest {
                    highest = e.transaction.data.nonce;
                }
                if e.transaction.data.nonce == nonce {
                    dup = true;
                }
            }
            proof {
                let pre = self.entries@.subrange(0, i as int);
                let s1 = self.entries@.subrange(0, i + 1);
                if spec_nonce_taken(s1, sender@, nonce) && !spec_nonce_taken(pre, sender@, nonce) {
                    let w = choose|w: int|
                        0 <= w < s1.len() && (#[trigger] s1[w]).transaction@.data.sender == sender@
                            && s1[w].transaction@.data.nonce == nonce;
                    if w < i {
                        assert(pre[w] == s1[w]);
                    }
                }
                if spec_nonce_taken(pre, sender@, nonce) {
                    let w = choose|w: int|
                        0 <= w < pre.len() && (#[trigger] pre[w]).transaction@.data.sender
                            == sender@ && pre[w].transaction@.data.nonce == nonce;
                    assert(s1[w] == pre[w]);
                }
            }
            i = i + 1;
        }
        proof {
            assert(self.entries@.subrange(0, n as int) =~= self.entries@);
        }
        (count, highest, dup)
    }

    /// Admit a transaction at time `now_ms`. When the pool is below its
    /// capacity, the result is `Ok` exactly when the admission rules pass
    /// (`spec_admits`); on `Ok` the entry is appended with this admission
    /// time and fee rate and the tracked size grows by the size estimate;
    /// on `Err` nothing changes. A pool at capacity first evicts its
    /// lowest fee-rate entry.
    pub fn add_transaction_at(&mut self, tx: Transaction, now_ms: u128) -> (r: Result<
        (),
        &'static str,
    >)
        requires
            old(self).wf(),
        ensures
            final(self).wf(),
            final(self).nonce_tracker == old(self).nonce_tracker,
            old(self).entries@.len() < MAX_POOL_SIZE ==> (r is Ok <==> spec_admits(
                old(self).entries@,
                tx@,
                now_ms,
            )),
            old(self).entries@.len() < MAX_POOL_SIZE && r is Err ==> *final(self) == *old(self),
            old(self).entries@.len() < MAX_POOL_SIZE && r is Ok ==> final(self).entries@.len()
                == old(self).entries@.len() + 1 && final(self).entries@.drop_last() == old(self).entries@ && final(self).entries@.last().transaction@ == tx@ && final(self).entries@.last().added_at == now_ms && final(self).entries@.last().fee_per_byte
                == spec_fee_rate(tx@) && final(self).total_size == (if old(self).total_size
                + spec_tx_size(tx@) > usize::MAX {
                old(self).total_size
            } else {
                (old(self).total_size + spec_tx_size(tx@)) as usize
            }),
            r is Ok ==> pool_contains_hash(final(self).entries@, tx@.tx_hash),
            pool_contains_hash(old(self).entries@, tx@.tx_hash) ==> r is Err,
            old(self).entries@.len() >= MAX_POOL_SIZE ==> final(self).entries@.len() <= old(self).entries@.len(),
    {
        if self.find_entry(&tx.tx_hash).is_some() {
            return Err("Transaction already exists in the pool");
        }
        if self.entries.len() >= MAX_POOL_SIZE {
            match self.remove_lowest_fee_transaction() {
                Ok(()) => {},
                Err(e) => {
                    return Err(e);
                },
            }
            // at capacity the admission below runs against the evicted set
        }
        if self.find_entry(&tx.tx_hash).is_some() {
            return Err("Transaction already exists in the pool");
        }
        proof {
            assert(!pool_contains_hash(self.entries@, tx@.tx_hash));
        }
        if !tx.verify_at(now_ms) {
            return Err("Transaction signature is invalid");
        }
        let (sender_count, highest_nonce, nonce_dup) = self.sender_stats(
            &tx.data.sender,
            tx.data.nonce,
        );
        if sender_count >= MAX_TXS_PER_SENDER {
            return Err("Too many transactions from sender");
        }
        if sender_count > 0 {
            if highest_nonce < u64::MAX && tx.data.nonce > highest_nonce + 1 {
                return Err("Nonce gap - missing previous transactions");
            }
            if nonce_dup {
                return Err("Duplicate nonce - transaction already exists");
            }
        }
        let tx_size = estimate_transaction_size(&tx);
        let fee_per_byte = tx.data.fee / (tx_size as u64);
        if fee_per_byte < MIN_FEE_RATE {
            return Err("Transaction fee too low");
        }
        let ghost before = self.entries@;
        let entry = PoolTransaction { transaction: tx, added_at: now_ms, fee_per_byte };
        self.entries.push(entry);
        if self.total_size <= usize::MAX - tx_size {
            self.total_size = self.total_size + tx_size;
        }
        proof {
            assert forall|a: int, b: int|
                0 <= a < b < self.entries@.len() implies (#[trigger] self.entries@[a])
                .transaction@.tx_hash != (#[trigger] self.entries@[b]).transaction@.tx_hash by {
                if b < before.len() {
                    assert(self.entries@[a] == before[a]);
                    assert(self.entries@[b] == before[b]);
                } else {
                    assert(self.entries@[a] == before[a]);
                }
            }
            if sender_count == 0 {
                lemma_sender_count_zero(before, tx@.data.sender);
            }
            assert forall|a: int, b: int|
                0 <= a < b < self.entries@.len() && (#[trigger] self.entries@[a])
                .transaction@.data.sender == (#[trigger] self.entries@[b]).transaction@.data.sender
                implies self.entries@[a].transaction@.data.nonce
                != self.entries@[b].transaction@.data.nonce by {
                if b < before.len() {
                    assert(self.entries@[a] == before[a]);
                    assert(self.entries@[b] == before[b]);
                } else {
                    assert(self.entries@[a] == before[a]);
                    if before[a].transaction@.data.sender == tx@.data.sender {
                        assert(spec_sender_count(before, tx@.data.sender) > 0) by {
                            if spec_sender_count(before, tx@.data.sender) == 0 {
                                lemma_sender_count_zero(before, tx@.data.sender);
                            }
                        }
                        assert(!spec_nonce_taken(before, tx@.data.sender, tx@.data.nonce));
                    }
                }
            }
            assert(self.entries@.drop_last() =~= before);
            assert(self.entries@[self.entries@.len() - 1].transaction@ == tx@);
        }
        Ok(())
    }

    /// Admit a transaction against the wall clock, read once; the result
    /// is that of the clock-taking admission at the time read.
    pub fn add_transaction(&mut self, tx: Transaction) -> (r: Result<(), &'static str>)
        requires
            old(self).wf(),
        ensures
            final(self).wf(),
            final(self).nonce_tracker == old(self).nonce_tracker,
            pool_contains_hash(old(self).entries@, tx@.tx_hash) ==> r is Err,
            r is Ok ==> pool_contains_hash(final(self).entries@, tx@.tx_hash),
            old(self).entries@.len() < MAX_POOL_SIZE && r is Err ==> *final(self) == *old(self),
            old(self).entries@.len() < MAX_POOL_SIZE && r is Ok ==> final(self).entries@.len()
                == old(self).entries@.len() + 1 && final(self).entries@.drop_last() == old(self).entries@ && final(self).entries@.last().transaction@ == tx@,
    {
        let t = now();
        self.add_transaction_at(tx, t)
    }

    /// Copies of every pending transaction.
    pub fn get_all_transactions(&self) -> (r: Vec<Transaction>)
        ensures
            r@.len() == self.entries@.len(),
            forall|i: int|
                0 <= i < r@.len() ==> r@[i]@ == (#[trigger] self.entries@[i]).transaction@,
    {
        let mut out: Vec<Transaction> = Vec::new();
        let n = self.entries.len();
        let mut i: usize = 0;
        while i < n
            invariant
                n == self.entries@.len(),
                i <= n,
                out@.len() == i,
                forall|j: int|
                    0 <= j < i ==> out@[j]@ == (#[trigger] self.entries@[j]).transaction@,
            decreases n - i,
        {
            out.push(self.entries[i].transaction.duplicate());
            i = i + 1;
        }
        out
    }

    /// Drop exactly the entries admitted more than the expiry window
    /// before `now_ms`; the fresh ones remain, in order.
    pub fn expire_transactions(&mut self, now_ms: u128)
        requires
            old(self).wf(),
        ensures
            final(self).wf(),
            final(self).entries@ == spec_keep_fresh(old(self).entries@, now_ms),
            final(self).nonce_tracker == old(self).nonce_tracker,
    {
        let ghost orig = self.entries@;
        let mut i: usize = 0;
        let ghost p: int = 0;
        proof {
            assert(orig.subrange(0, 0) =~= Seq::<PoolTransaction>::empty());
            assert(self.entries@ =~= spec_keep_fresh(orig.subrange(0, 0), now_ms) + orig.skip(0));
        }
        while i < self.entries.len()
            invariant
                self.wf(),
                0 <= p <= orig.len(),
                i as int == spec_keep_fresh(orig.subrange(0, p), now_ms).len(),
                self.entries@ == spec_keep_fresh(orig.subrange(0, p), now_ms) + orig.skip(p),
                self.nonce_tracker == old(self).nonce_tracker,
                old(self).wf(),
                orig == old(self).entries@,
            decreases orig.len() - p,
        {
            proof {
                assert(orig.skip(p).len() > 0);
                assert(self.entries@[i as int] == orig.skip(p)[0]);
                assert(orig.skip(p)[0] == orig[p]);
            }
            let e = &self.entries[i];
            let fresh = now_ms < e.added_at || now_ms - e.added_at <= TX_EXPIRY_TIME_MS;
            proof {
                let s1 = orig.subrange(0, p + 1);
                assert(s1.drop_last() =~= orig.subrange(0, p));
                assert(s1.last() == orig[p]);
            }
            if fresh {
                i = i + 1;
                proof {
                    assert(orig.skip(p) =~= seq![orig[p]] + orig.skip(p + 1));
                    assert(self.entries@ =~= spec_keep_fresh(orig.subrange(0, p + 1), now_ms)
                        + orig.skip(p + 1));
                    p = p + 1;
                }
            } else {
                let ghost prev = self.entries@;
                self.remove_entry_at(i);
                proof {
                    assert(self.entries@ =~= spec_keep_fresh(orig.subrange(0, p + 1), now_ms)
                        + orig.skip(p + 1)) by {
                        assert(self.entries@ == prev.remove(i as int));
                        assert forall|a: int|
                            0 <= a < self.entries@.len() implies self.entries@[a] == (
                        spec_keep_fresh(orig.subrange(0, p + 1), now_ms) + orig.skip(p + 1))[a] by {
                            let a0 = if a < i {
                                a
                            } else {
                                a + 1
                            };
                            assert(self.entries@[a] == prev[a0]);
                            if a0 > i {
                                assert(prev[a0] == orig.skip(p)[a0 - i]);
                                assert(orig.skip(p)[a0 - i] == orig[p + a0 - i]);
                                assert(orig.skip(p + 1)[a0 - i - 1] == orig[p + a0 - i]);
                            }
                        }
                    }
                    p = p + 1;
                }
            }
        }
        proof {
            assert(orig.skip(p) =~= Seq::<PoolTransaction>::empty());
            assert(p == orig.len());
            assert(orig.subrange(0, p) =~= orig);
            assert(self.entries@ =~= spec_keep_fresh(orig, now_ms));
        }
    }

    /// Evict an entry carrying the minimal fee per byte.
    pub fn remove_lowest_fee_transaction(&mut self) -> (r: Result<(), &'static str>)
        requires
            old(self).wf(),
        ensures
            final(self).wf(),
            r is Ok <==> old(self).entries@.len() > 0,
            r is Ok ==> exists|i: int|
                0 <= i < old(self).entries@.len() && final(self).entries@ == old(self).entries@.remove(i) && (forall|j: int|
                    0 <= j < old(self).entries@.len() ==> (#[trigger] old(self).entries@[j]).fee_per_byte >= old(self).entries@[i].fee_per_byte),
            r is Err ==> *final(self) == *old(self),
            final(self).nonce_tracker == old(self).nonce_tracker,
    {
        if self.entries.len() == 0 {
            return Err("No transactions to remove");
        }
        let n = self.entries.len();
        let mut lowest: usize = 0;
        let mut i: usize = 1;
        while i < n
            invariant
                n == self.entries@.len(),
                1 <= n,
                i <= n,
                lowest < n,
                forall|j: int|
                    0 <= j < i ==> (#[trigger] self.entries@[j]).fee_per_byte
                        >= self.entries@[lowest as int].fee_per_byte,
            decreases n - i,
        {
            if self.entries[i].fee_per_byte < self.entries[lowest].fee_per_byte {
                lowest = i;
            }
            i = i + 1;
        }
        self.remove_entry_at(lowest);
        Ok(())
    }

    /// The flat gas estimate of a transaction, linear in the payload for
    /// data records.
    pub fn estimate_gas_cost(&self, tx: &Transaction) -> (r: u64)
        ensures
            r == spec_gas_cost(tx@),
    {
        match tx.data.tx_type {
            TransactionType::Transfer => 21000,
            TransactionType::Data => {
                match &tx.data.data {
                    Some(d) => {
                        let len = d.len() as u64;
                        if len > (u64::MAX - 21000) / 68 {
                            u64::MAX
                        } else {
                            21000 + len * 68
                        }
                    },
                    None => 21000,
                }
            },
        }
    }

    /// Select transactions for a block: exactly the greedy walk of
    /// `spec_selection` — candidates in descending fee-per-byte order
    /// (ties by ascending nonce), taken while the byte and gas budgets
    /// and the per-block cap allow and each sender's nonces step
    /// consecutively from its committed nonce. The pool is unchanged.
    #[verifier::rlimit(100)]
    pub fn get_transactions_for_block(&self, max_size: usize, max_gas: u64) -> (r: Vec<
        Transaction,
    >)
        requires
            self.wf(),
        ensures
            sel_views(r@) == spec_selection(
                self.entries@,
                self.nonce_tracker.nonces_fn(),
                max_size as int,
                max_gas as int,
            ),
            r@.len() <= self.entries@.len(),
            r@.len() <= 1000,
            forall|i: int| 0 <= i < r@.len() ==> tx_in_pool(self.entries@, (#[trigger] r@[i])@),
    {
        // order entry indices by descending fee per byte (insertion sort)
        let n = self.entries.len();
        let mut order: Vec<usize> = Vec::new();
        let mut i: usize = 0;
        proof {
            assert(idx_views(order@) =~= spec_fee_order(self.entries@, 0));
        }
        while i < n
            invariant
                self.wf(),
                n == self.entries@.len(),
                i <= n,
                order@.len() == i,
                forall|j: int| 0 <= j < order@.len() ==> (#[trigger] order@[j]) < n,
                idx_views(order@) == spec_fee_order(self.entries@, i as nat),
            decreases n - i,
        {
            let mut pos: usize = 0;
            while pos < order.len()
                invariant
                    self.wf(),
                    i < n,
                    n == self.entries@.len(),
                    pos <= order@.len(),
                    forall|j: int| 0 <= j < order@.len() ==> (#[trigger] order@[j]) < n,
                    forall|j: int|
                        0 <= j < pos ==> !fee_before(
                            self.entries@,
                            i as int,
                            #[trigger] idx_views(order@)[j],
                        ),
                ensures
                    pos <= order@.len(),
                    forall|j: int|
                        0 <= j < pos ==> !fee_before(
                            self.entries@,
                            i as int,
                            #[trigger] idx_views(order@)[j],
                        ),
                    pos < order@.len() ==> fee_before(
                        self.entries@,
                        i as int,
                        idx_views(order@)[pos as int],
                    ),
                decreases order@.len() - pos,
            {
                let o = order[pos];
                let takes = self.entries[i].fee_per_byte > self.entries[o].fee_per_byte || (
                self.entries[i].fee_per_byte == self.entries[o].fee_per_byte
                    && self.entries[i].transaction.data.nonce
                    < self.entries[o].transaction.data.nonce);
                if takes {
                    proof {
                        assert(fee_before(self.entries@, i as int, idx_views(order@)[pos as int]));
                    }
                    break ;
                }
                proof {
                    assert(!fee_before(self.entries@, i as int, idx_views(order@)[pos as int]));
                }
                pos = pos + 1;
            }
            let ghost before = order@;
            order.insert(pos, i);
            proof {
                lemma_fee_insert_at(idx_views(before), self.entries@, i as int, pos as int);
                assert(idx_views(order@) =~= idx_views(before).subrange(0, pos as int) + seq![
                    i as int,
                ] + idx_views(before).skip(pos as int)) by {
                    assert forall|q: int| 0 <= q < order@.len() implies idx_views(order@)[q] == (
                    idx_views(before).subrange(0, pos as int) + seq![i as int] + idx_views(
                        before,
                    ).skip(pos as int))[q] by {
                        if q < pos {
                            assert(order@[q] == before[q]);
                        } else if q == pos {
                        } else {
                            assert(order@[q] == before[q - 1]);
                        }
                    }
                }
                assert forall|j: int| 0 <= j < order@.len() implies (#[trigger] order@[j]) < n by {
                    if j < pos {
                        assert(order@[j] == before[j]);
                    } else if j > pos {
                        assert(order@[j] == before[j - 1]);
                    }
                }
            }
            i = i + 1;
        }
        // walk in fee order: expectations seeded from the committed nonces
        let ghost e = self.entries@;
        let ghost orderv = idx_views(order@);
        let ghost tracker0 = self.nonce_tracker.nonces_fn();
        let mut selected: Vec<Transaction> = Vec::new();
        let mut expected = crate::bytemap::BalanceMap::new();
        let mut total_bytes: usize = 0;
        let mut total_gas: u64 = 0;
        let mut k: usize = 0;
        let ghost mut exp_fn = tracker0;
        proof {
            assert(spec_selection(e, tracker0, max_size as int, max_gas as int)
                == spec_greedy(e, orderv, 0, tracker0, 0, 0, max_size as int, max_gas as int, 0));
            assert forall|sn: Seq<u8>| #[trigger] exp_fn(sn) == (if expected.spec_get(sn)
                > tracker0(sn) {
                expected.spec_get(sn)
            } else {
                tracker0(sn)
            }) by {}
        }
        while k < order.len()
            invariant
                self.wf(),
                e == self.entries@,
                orderv == idx_views(order@),
                tracker0 == self.nonce_tracker.nonces_fn(),
                n == self.entries@.len(),
                order@.len() == n,
                forall|j: int| 0 <= j < order@.len() ==> (#[trigger] order@[j]) < n,
                k <= n,
                expected.wf(),
                selected@.len() <= 1000,
                selected@.len() <= k,
                total_bytes <= max_size,
                total_gas <= max_gas,
                forall|sn: Seq<u8>| #[trigger] exp_fn(sn) == (if expected.spec_get(sn) > tracker0(
                    sn,
                ) {
                    expected.spec_get(sn)
                } else {
                    tracker0(sn)
                }),
                spec_selection(e, tracker0, max_size as int, max_gas as int) == sel_views(
                    selected@,
                ) + spec_greedy(
                    e,
                    orderv,
                    k as nat,
                    exp_fn,
                    total_bytes as int,
                    total_gas as int,
                    max_size as int,
                    max_gas as int,
                    selected@.len() as nat,
                ),
                forall|i2: int|
                    0 <= i2 < selected@.len() ==> tx_in_pool(
                        self.entries@,
                        (#[trigger] selected@[i2])@,
                    ),
            ensures
                k >= order@.len() || selected@.len() >= 1000,
                order@.len() == n,
                selected@.len() <= 1000,
                selected@.len() <= k,
                k <= n,
                spec_selection(e, tracker0, max_size as int, max_gas as int) == sel_views(
                    selected@,
                ) + spec_greedy(
                    e,
                    orderv,
                    k as nat,
                    exp_fn,
                    total_bytes as int,
                    total_gas as int,
                    max_size as int,
                    max_gas as int,
                    selected@.len() as nat,
                ),
                forall|i2: int|
                    0 <= i2 < selected@.len() ==> tx_in_pool(
                        self.entries@,
                        (#[trigger] selected@[i2])@,
                    ),
            decreases order@.len() - k,
        {
            if selected.len() >= 1000 {
                break ;
            }
            let idx = order[k];
            proof {
                assert(orderv[k as int] == idx as int);
            }
            let tx_size = estimate_transaction_size(&self.entries[idx].transaction);
            let tx_gas = self.estimate_gas_cost(&self.entries[idx].transaction);
            let fits = total_bytes <= usize::MAX - tx_size && total_bytes + tx_size <= max_size
                && total_gas <= u64::MAX - tx_gas && total_gas + tx_gas <= max_gas;
            proof {
                assert(fits == (total_bytes + tx_size <= max_size && total_gas + tx_gas
                    <= max_gas));
            }
            let sender = &self.entries[idx].transaction.data.sender;
            let emap_val = expected.get(sender);
            let committed = self.nonce_tracker.get_nonce(sender);
            let cur = if emap_val > committed {
                emap_val
            } else {
                committed
            };
            proof {
                assert(cur == exp_fn(sender@));
            }
            let ghost tv = self.entries@[idx as int].transaction@;
            if fits && cur < u64::MAX && self.entries[idx].transaction.data.nonce == cur + 1 {
                let picked = self.entries[idx].transaction.duplicate();
                let ghost sel_before = selected@;
                let ghost exp_before = exp_fn;
                proof {
                    assert(picked@ == tv);
                    assert(tx_in_pool(self.entries@, tv));
                }
                expected.set(sender, picked.data.nonce);
                selected.push(picked);
                total_bytes = total_bytes + tx_size;
                total_gas = total_gas + tx_gas;
                proof {
                    exp_fn = spec_step_expected(exp_before, tv);
                    assert forall|sn: Seq<u8>| #[trigger] exp_fn(sn) == (if expected.spec_get(sn)
                        > tracker0(sn) {
                        expected.spec_get(sn)
                    } else {
                        tracker0(sn)
                    }) by {
                        if sn == tv.data.sender {
                            assert(tv.data.nonce > tracker0(sn));
                        }
                    }
                    assert(sel_views(selected@) =~= sel_views(sel_before).push(tv));
                    assert(sel_views(selected@) + spec_greedy(
                        e,
                        orderv,
                        (k + 1) as nat,
                        exp_fn,
                        total_bytes as int,
                        total_gas as int,
                        max_size as int,
                        max_gas as int,
                        selected@.len() as nat,
                    ) =~= sel_views(sel_before) + (seq![tv] + spec_greedy(
                        e,
                        orderv,
                        (k + 1) as nat,
                        exp_fn,
                        total_bytes as int,
                        total_gas as int,
                        max_size as int,
                        max_gas as int,
                        selected@.len() as nat,
                    )));
                    assert forall|i2: int|
                        0 <= i2 < selected@.len() implies tx_in_pool(
                        self.entries@,
                        (#[trigger] selected@[i2])@,
                    ) by {
                        if i2 < sel_before.len() {
                            assert(selected@[i2] == sel_before[i2]);
                        } else {
                            assert(selected@[i2]@ == tv);
                        }
                    }
                }
            }
            k = k + 1;
        }
        proof {
            if k >= order@.len() || selected@.len() >= 1000 {
                assert(spec_greedy(
                    e,
                    orderv,
                    k as nat,
                    exp_fn,
                    total_bytes as int,
                    total_gas as int,
                    max_size as int,
                    max_gas as int,
                    selected@.len() as nat,
                ) =~= Seq::<TxV>::empty());
            }
            assert(sel_views(selected@) + Seq::<TxV>::empty() =~= sel_views(selected@));
        }
        selected
    }

    /// Fee-ordered selection under the default byte and gas budgets:
    /// exactly the selection at byte budget `max_transactions * 500`
    /// (saturated) and gas budget 1000000.
    pub fn get_transactions_4_block(&self, max_transactions: usize) -> (r: Vec<Transaction>)
        requires
            self.wf(),
        ensures
            sel_views(r@) == spec_selection(
                self.entries@,
                self.nonce_tracker.nonces_fn(),
                if max_transactions > usize::MAX / 500 {
                    usize::MAX as int
                } else {
                    max_transactions * 500
                },
                1_000_000,
            ),
            r@.len() <= self.entries@.len(),
            r@.len() <= 1000,
            forall|i: int| 0 <= i < r@.len() ==> tx_in_pool(self.entries@, (#[trigger] r@[i])@),
    {
        let budget = if max_transactions > usize::MAX / 500 {
            usize::MAX
        } else {
            max_transactions * 500
        };
        self.get_transactions_for_block(budget, 1_000_000)
    }

    /// Advance the nonce tracker by every committed transaction in order,
    /// remove the committed entries, and sweep out entries at or below
    /// the committed nonce: afterwards no committed hash is pending and
    /// every remaining entry's nonce strictly exceeds its sender's
    /// committed nonce.
    pub fn process_block(&mut self, transactions: &Vec<Transaction>)
        requires
            old(self).wf(),
        ensures
            final(self).wf(),
            forall|k: Seq<u8>|
                final(self).nonce_tracker.spec_nonce(k) == spec_advance_nonces(
                    old(self).nonce_tracker.nonces_fn(),
                    crate::block::txs_view(transactions@),
                )(k),
            forall|i: int|
                0 <= i < transactions@.len() ==> !pool_contains_hash(
                    final(self).entries@,
                    (#[trigger] transactions@[i])@.tx_hash,
                ),
            forall|i: int|
                0 <= i < final(self).entries@.len() ==> (#[trigger] final(self).entries@[i])
                    .transaction@.data.nonce > final(self).nonce_tracker.spec_nonce(
                    final(self).entries@[i].transaction@.data.sender,
                ),
    {
        let ghost txsv = crate::block::txs_view(transactions@);
        let ghost f0 = self.nonce_tracker.nonces_fn();
        let n = transactions.len();
        let mut i: usize = 0;
        proof {
            assert(txsv.subrange(0, 0) =~= Seq::<TxV>::empty());
            assert(self.nonce_tracker.nonces_fn() =~= spec_advance_nonces(
                f0,
                txsv.subrange(0, 0),
            ));
        }
        while i < n
            invariant
                n == transactions@.len(),
                txsv == crate::block::txs_view(transactions@),
                i <= n,
                self.wf(),
                forall|k: Seq<u8>|
                    self.nonce_tracker.spec_nonce(k) == spec_advance_nonces(
                        f0,
                        txsv.subrange(0, i as int),
                    )(k),
                forall|j: int|
                    0 <= j < i ==> !pool_contains_hash(
                        self.entries@,
                        (#[trigger] txsv[j]).tx_hash,
                    ),
            decreases n - i,
        {
            let tx = &transactions[i];
            let ghost pre_entries = self.entries@;
            let ghost pre_fn = |k: Seq<u8>| self.nonce_tracker.spec_nonce(k);
            self.nonce_tracker.advance_to(&tx.data.sender, tx.data.nonce);
            proof {
                assert(pre_fn =~= spec_advance_nonces(f0, txsv.subrange(0, i as int)));
                lemma_advance_nonces_push(f0, txsv.subrange(0, i as int), txsv[i as int]);
                assert(txsv.subrange(0, i + 1) =~= txsv.subrange(0, i as int).push(
                    txsv[i as int],
                ));
                assert(tx@ == txsv[i as int]);
                assert forall|k: Seq<u8>|
                    self.nonce_tracker.spec_nonce(k) == spec_advance_nonces(
                        f0,
                        txsv.subrange(0, i + 1),
                    )(k) by {
                    assert(spec_advance_nonces(f0, txsv.subrange(0, i + 1)) == spec_advance_one(
                        pre_fn,
                        txsv[i as int],
                    ));
                }
            }
            let ghost mid_entries = self.entries@;
            let removed = self.remove_transaction(&tx.tx_hash);
            proof {
                assert forall|j: int|
                    0 <= j <= i implies !pool_contains_hash(
                    self.entries@,
                    (#[trigger] txsv[j]).tx_hash,
                ) by {
                    if j < i {
                        if removed is Some {
                            let w = choose|w: int|
                                0 <= w < mid_entries.len() && removed.unwrap()@ == (
                                #[trigger] mid_entries[w]).transaction@ && self.entries@
                                    == mid_entries.remove(w);
                            lemma_remove_keeps_absent(mid_entries, w, txsv[j].tx_hash);
                        }
                    }
                }
            }
            i = i + 1;
        }
        proof {
            assert(txsv.subrange(0, n as int) =~= txsv);
        }
        let ghost before_cleanup = self.entries@;
        self.cleanup_invalid_nonces();
        proof {
            assert forall|j: int|
                0 <= j < transactions@.len() implies !pool_contains_hash(
                self.entries@,
                (#[trigger] transactions@[j])@.tx_hash,
            ) by {
                assert(transactions@[j]@ == txsv[j]);
                assert(!pool_contains_hash(before_cleanup, txsv[j].tx_hash));
                if pool_contains_hash(self.entries@, txsv[j].tx_hash) {
                    let a = choose|a: int|
                        0 <= a < self.entries@.len() && self.entries@[a].transaction@.tx_hash
                            == txsv[j].tx_hash;
                    assert(entry_among(before_cleanup, self.entries@[a]));
                    let b = choose|b: int|
                        0 <= b < before_cleanup.len() && (#[trigger] before_cleanup[b])
                            == self.entries@[a];
                    assert(before_cleanup[b].transaction@.tx_hash == txsv[j].tx_hash);
                    assert(pool_contains_hash(before_cleanup, txsv[j].tx_hash));
                    assert(false);
                }
            }
        }
    }

    /// Drop every entry whose nonce does not strictly exceed its sender's
    /// committed nonce; every kept entry was pending before.
    pub fn cleanup_invalid_nonces(&mut self)
        requires
            old(self).wf(),
        ensures
            final(self).wf(),
            final(self).nonce_tracker == old(self).nonce_tracker,
            forall|i: int|
                0 <= i < final(self).entries@.len() ==> (#[trigger] final(self).entries@[i])
                    .transaction@.data.nonce > final(self).nonce_tracker.spec_nonce(
                    final(self).entries@[i].transaction@.data.sender,
                ),
            forall|i: int|
                0 <= i < final(self).entries@.len() ==> entry_among(
                    old(self).entries@,
                    #[trigger] final(self).entries@[i],
                ),
    {
        let ghost orig = self.entries@;
        let mut i: usize = 0;
        proof {
            assert forall|a: int|
                0 <= a < self.entries@.len() implies entry_among(
                orig,
                #[trigger] self.entries@[a],
            ) by {
                assert(self.entries@[a] == orig[a]);
                assert(entry_among(orig, self.entries@[a]));
            }
        }
        while i < self.entries.len()
            invariant
                self.wf(),
                i <= self.entries@.len(),
                self.nonce_tracker == old(self).nonce_tracker,
                orig == old(self).entries@,
                forall|j: int|
                    0 <= j < i ==> (#[trigger] self.entries@[j]).transaction@.data.nonce
                        > self.nonce_tracker.spec_nonce(self.entries@[j].transaction@.data.sender),
                forall|a: int|
                    0 <= a < self.entries@.len() ==> entry_among(
                        orig,
                        #[trigger] self.entries@[a],
                    ),
            decreases self.entries@.len() - i,
        {
            let committed = self.nonce_tracker.get_nonce(&self.entries[i].transaction.data.sender);
            if self.entries[i].transaction.data.nonce > committed {
                i = i + 1;
            } else {
                let ghost before = self.entries@;
                self.remove_entry_at(i);
                proof {
                    assert forall|j: int|
                        0 <= j < i implies (#[trigger] self.entries@[j]).transaction@.data.nonce
                        > self.nonce_tracker.spec_nonce(
                        self.entries@[j].transaction@.data.sender,
                    ) by {
                        assert(self.entries@[j] == before[j]);
                    }
                    assert forall|a: int|
                        0 <= a < self.entries@.len() implies entry_among(
                        orig,
                        #[trigger] self.entries@[a],
                    ) by {
                        let a0 = if a < i {
                            a
                        } else {
                            a + 1
                        };
                        assert(self.entries@[a] == before[a0]);
                        assert(entry_among(orig, before[a0]));
                    }
                }
            }
        }
    }

    /// The pending transactions of one sender, every one of them, in
    /// strictly ascending nonce order.
    pub fn get_pending_by_sender(&self, sender: &PublicKey) -> (r: Vec<Transaction>)
        requires
            self.wf(),
        ensures
            r@.len() == spec_sender_count(self.entries@, sender@),
            forall|i: int| 0 <= i < r@.len() ==> (#[trigger] r@[i])@.data.sender == sender@,
            forall|i: int, j: int|
                0 <= i < j < r@.len() ==> (#[trigger] r@[i])@.data.nonce < (
                #[trigger] r@[j])@.data.nonce,
            forall|i: int| 0 <= i < r@.len() ==> tx_in_pool(self.entries@, (#[trigger] r@[i])@),
    {
        let mut out: Vec<Transaction> = Vec::new();
        let n = self.entries.len();
        let mut i: usize = 0;
        proof {
            assert(self.entries@.subrange(0, 0) =~= Seq::<PoolTransaction>::empty());
        }
        while i < n
            invariant
                self.wf(),
                n == self.entries@.len(),
                i <= n,
                out@.len() == spec_sender_count(self.entries@.subrange(0, i as int), sender@),
                forall|j: int|
                    0 <= j < out@.len() ==> (#[trigger] out@[j])@.data.sender == sender@,
                forall|a: int, b: int|
                    0 <= a < b < out@.len() ==> (#[trigger] out@[a])@.data.nonce < (
                    #[trigger] out@[b])@.data.nonce,
                forall|a: int|
                    0 <= a < out@.len() ==> tx_in_prefix(
                        self.entries@,
                        i as int,
                        (#[trigger] out@[a])@,
                    ),
            decreases n - i,
        {
            proof {
                let s1 = self.entries@.subrange(0, i + 1);
                assert(s1.drop_last() =~= self.entries@.subrange(0, i as int));
                assert(s1.last() == self.entries@[i as int]);
            }
            if bytes_eq(&self.entries[i].transaction.data.sender, sender) {
                let tx = self.entries[i].transaction.duplicate();
                let ghost txv = tx@;
                proof {
                    assert(txv == self.entries@[i as int].transaction@);
                    // the incoming nonce differs from every collected one
                    assert forall|a: int|
                        0 <= a < out@.len() implies (#[trigger] out@[a])@.data.nonce
                        != txv.data.nonce by {
                        let w = choose|w: int|
                            0 <= w < i && w < self.entries@.len() && (#[trigger] self.entries@[w])
                                .transaction@ == out@[a]@;
                        assert(self.entries@[w].transaction@.data.sender
                            == self.entries@[i as int].transaction@.data.sender);
                    }
                }
                let mut pos: usize = 0;
                while pos < out.len()
                    invariant
                        pos <= out@.len(),
                        txv == tx@,
                        forall|j: int| 0 <= j < pos ==> (#[trigger] out@[j])@.data.nonce
                            <= txv.data.nonce,
                        forall|a: int, b: int|
                            0 <= a < b < out@.len() ==> (#[trigger] out@[a])@.data.nonce < (
                            #[trigger] out@[b])@.data.nonce,
                    ensures
                        pos <= out@.len(),
                        forall|j: int| 0 <= j < pos ==> (#[trigger] out@[j])@.data.nonce
                            <= txv.data.nonce,
                        pos < out@.len() ==> out@[pos as int]@.data.nonce > txv.data.nonce,
                    decreases out@.len() - pos,
                {
                    if out[pos].data.nonce > tx.data.nonce {
                        break ;
                    }
                    pos = pos + 1;
                }
                let ghost before = out@;
                let ghost posg = pos as int;
                out.insert(pos, tx);
                proof {
                    assert forall|j: int|
                        0 <= j < out@.len() implies (#[trigger] out@[j])@.data.sender == sender@ by {
                        if j < posg {
                            assert(out@[j] == before[j]);
                        } else if j > posg {
                            assert(out@[j] == before[j - 1]);
                        }
                    }
                    assert forall|a: int, b: int|
                        0 <= a < b < out@.len() implies (#[trigger] out@[a])@.data.nonce < (
                    #[trigger] out@[b])@.data.nonce by {
                        if a == posg {
                            assert(out@[a]@ == txv);
                            assert(out@[b] == before[b - 1]);
                            assert(before[posg]@.data.nonce > txv.data.nonce);
                            if b - 1 > posg {
                                assert(before[posg]@.data.nonce < before[b - 1]@.data.nonce);
                            }
                        } else if b == posg {
                            assert(out@[a] == before[a]);
                            assert(out@[b]@ == txv);
                            assert(before[a]@.data.nonce <= txv.data.nonce);
                            assert(before[a]@.data.nonce != txv.data.nonce);
                        } else {
                            let av: int = if a < posg {
                                a
                            } else {
                                a - 1
                            };
                            let bv: int = if b < posg {
                                b
                            } else {
                                b - 1
                            };
                            assert(out@[a] == before[av]);
                            assert(out@[b] == before[bv]);
                        }
                    }
                    assert forall|a: int|
                        0 <= a < out@.len() implies tx_in_prefix(
                        self.entries@,
                        i + 1,
                        (#[trigger] out@[a])@,
                    ) by {
                        if a < posg {
                            assert(out@[a] == before[a]);
                            let w = choose|w: int|
                                0 <= w < i && w < self.entries@.len() && (
                                #[trigger] self.entries@[w]).transaction@ == before[a]@;
                            assert(tx_in_prefix(self.entries@, i + 1, out@[a]@));
                        } else if a == posg {
                            assert(out@[a]@ == self.entries@[i as int].transaction@);
                            assert(tx_in_prefix(self.entries@, i + 1, out@[a]@));
                        } else {
                            assert(out@[a] == before[a - 1]);
                            let w = choose|w: int|
                                0 <= w < i && w < self.entries@.len() && (
                                #[trigger] self.entries@[w]).transaction@ == before[a - 1]@;
                            assert(tx_in_prefix(self.entries@, i + 1, out@[a]@));
                        }
                    }
                }
            } else {
                proof {
                    assert forall|a: int|
                        0 <= a < out@.len() implies tx_in_prefix(
                        self.entries@,
                        i + 1,
                        (#[trigger] out@[a])@,
                    ) by {
                        let w = choose|w: int|
                            0 <= w < i && w < self.entries@.len() && (#[trigger] self.entries@[w])
                                .transaction@ == out@[a]@;
                        assert(tx_in_prefix(self.entries@, i + 1, out@[a]@));
                    }
                }
            }
            i = i + 1;
        }
        proof {
            assert(self.entries@.subrange(0, n as int) =~= self.entries@);
            assert forall|a: int|
                0 <= a < out@.len() implies tx_in_pool(self.entries@, (#[trigger] out@[a])@) by {
                let w = choose|w: int|
                    0 <= w < n && w < self.entries@.len() && (#[trigger] self.entries@[w])
                        .transaction@ == out@[a]@;
                assert(tx_in_pool(self.entries@, out@[a]@));
            }
        }
        out
    }
}

/// The gas estimate: a fixed cost, plus a linear payload term for data.
pub open spec fn spec_gas_cost(t: TxV) -> u64 {
    match t.data.tx_type {
        TransactionType::Transfer => 21000,
        TransactionType::Data => match t.data.data {
            Some(d) => if d.len() > (u64::MAX - 21000) / 68 {
                u64::MAX
            } else {
                (21000 + d.len() * 68) as u64
            },
            None => 21000,
        },
    }
}

} // verus!
