//! A peer-to-peer ledger node: a Kademlia-style overlay (routing table,
//! iterative lookups, proof-of-work admission) combined with a proof-of-work
//! blockchain (transaction pool, Merkle commitments, fork resolution).
use vstd::prelude::*;

pub mod block;
pub mod blockchain;
pub mod bytemap;
pub mod constants;
pub mod crypto;
pub mod hexcode;
pub mod kademlia;
pub mod lookup;
pub mod merkle;
pub mod pool;
pub mod sync;
pub mod transaction;

verus! {

/// Value of a byte sequence read as a big-endian unsigned integer.
pub open spec fn be_val(s: Seq<u8>) -> nat
    decreases s.len(),
{
    if s.len() == 0 {
        0
    } else {
        be_val(s.drop_last()) * 256 + s.last() as nat
    }
}

pub proof fn lemma_be_val_bound(s: Seq<u8>)
    ensures
        be_val(s) < pow256(s.len() as nat),
    decreases s.len(),
{
    if s.len() == 0 {
    } else {
        lemma_be_val_bound(s.drop_last());
    }
}

/// 256^n, the number of byte sequences of length n.
pub open spec fn pow256(n: nat) -> nat
    decreases n,
{
    if n == 0 {
        1
    } else {
        256 * pow256((n - 1) as nat)
    }
}

/// Current wall-clock time in milliseconds since the UNIX epoch.
///
/// Relies on std::time::SystemTime::now; the result depends on the clock,
/// so nothing is promised of it.
#[verifier::external_body]
pub fn now() -> u128 {
    std::time::SystemTime::now()
        .duration_since(std::time::UNIX_EPOCH)
        .map(|d| d.as_millis())
        .unwrap_or(0)
}

pub fn u32_to_bytes(n: &u32) -> (r: [u8; 4])
    ensures
        r@ == spec_u32_bytes(*n),
{
    [(*n >> 24) as u8, (*n >> 16) as u8, (*n >> 8) as u8, *n as u8]
}

pub open spec fn spec_u32_bytes(n: u32) -> Seq<u8> {
    seq![(n >> 24) as u8, (n >> 16) as u8, (n >> 8) as u8, n as u8]
}

pub fn u64_to_bytes(n: &u64) -> (r: [u8; 8])
    ensures
        r@ == spec_u64_bytes(*n),
{
    [
        (*n >> 56) as u8,
        (*n >> 48) as u8,
        (*n >> 40) as u8,
        (*n >> 32) as u8,
        (*n >> 24) as u8,
        (*n >> 16) as u8,
        (*n >> 8) as u8,
        *n as u8,
    ]
}

pub open spec fn spec_u64_bytes(n: u64) -> Seq<u8> {
    seq![
        (n >> 56) as u8,
        (n >> 48) as u8,
        (n >> 40) as u8,
        (n >> 32) as u8,
        (n >> 24) as u8,
        (n >> 16) as u8,
        (n >> 8) as u8,
        n as u8,
    ]
}

pub fn u128_to_bytes(n: &u128) -> (r: [u8; 16])
    ensures
        r@ == spec_u128_bytes(*n),
{
    [
        (*n >> 120) as u8,
        (*n >> 112) as u8,
        (*n >> 104) as u8,
        (*n >> 96) as u8,
        (*n >> 88) as u8,
        (*n >> 80) as u8,
        (*n >> 72) as u8,
        (*n >> 64) as u8,
        (*n >> 56) as u8,
        (*n >> 48) as u8,
        (*n >> 40) as u8,
        (*n >> 32) as u8,
        (*n >> 24) as u8,
        (*n >> 16) as u8,
        (*n >> 8) as u8,
        *n as u8,
    ]
}

pub open spec fn spec_u128_bytes(n: u128) -> Seq<u8> {
    seq![
        (n >> 120) as u8,
        (n >> 112) as u8,
        (n >> 104) as u8,
        (n >> 96) as u8,
        (n >> 88) as u8,
        (n >> 80) as u8,
        (n >> 72) as u8,
        (n >> 64) as u8,
        (n >> 56) as u8,
        (n >> 48) as u8,
        (n >> 40) as u8,
        (n >> 32) as u8,
        (n >> 24) as u8,
        (n >> 16) as u8,
        (n >> 8) as u8,
        n as u8,
    ]
}

/// Read the last 16 bytes of `v` as a big-endian unsigned integer.
pub fn bytes_to_u32(v: &[u8]) -> (r: u128)
    requires
        v@.len() >= 16,
    ensures
        r == be_val(v@.subrange(v@.len() - 16, v@.len() as int)),
{
    let len = v.len();
    let start = len - 16;
    let mut acc: u128 = 0;
    let mut j: usize = 0;
    proof {
        assert(v@.subrange(start as int, start as int) =~= Seq::<u8>::empty());
    }
    while j < 16
        invariant
            len == v@.len(),
            len >= 16,
            start == len - 16,
            j <= 16,
            acc == be_val(v@.subrange(start as int, start + j)),
            acc < pow256(j as nat),
        decreases 16 - j,
    {
        proof {
            let s1 = v@.subrange(start as int, start + j + 1);
            assert(s1.drop_last() =~= v@.subrange(start as int, start + j));
            assert(s1.last() == v@[start + j]);
            lemma_pow256_le((j + 1) as nat, 16);
            lemma_pow256_16();
        }
        acc = acc * 256 + (v[start + j] as u128);
        j = j + 1;
    }
    proof {
        assert(v@.subrange(start as int, start + 16) =~= v@.subrange(
            v@.len() - 16,
            v@.len() as int,
        ));
    }
    acc
}

pub proof fn lemma_pow256_16()
    ensures
        pow256(16) == 0x1_0000_0000_0000_0000_0000_0000_0000_0000,
{
    reveal_with_fuel(pow256, 17);
}

pub proof fn lemma_pow256_le(m: nat, n: nat)
    requires
        m <= n,
    ensures
        pow256(m) <= pow256(n),
    decreases n,
{
    if m < n && n > 0 {
        lemma_pow256_le(m, (n - 1) as nat);
    }
}

} // verus!
