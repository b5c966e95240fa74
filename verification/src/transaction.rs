//! Transactions: signed transfer or data records with per-sender nonces,
//! a deterministic byte encoding that signing and hashing commit to, and
//! the nonce tracker used by the pool and the chain.
use vstd::prelude::*;

use crate::bytemap::BalanceMap;
use crate::bytemap::bytes_eq;
use crate::bytemap::clone_bytes;
use crate::crypto::ed25519_public_of;
use crate::crypto::ed25519_signature_of;
use crate::crypto::ed25519_verifies;
use crate::crypto::derive_public_key;
use crate::crypto::random_bytes32;
use crate::crypto::sha256;
use crate::crypto::sha256_of;
use crate::crypto::sign_message;
use crate::crypto::verify_signature;
use crate::now;
use crate::spec_u128_bytes;
use crate::spec_u32_bytes;
use crate::spec_u64_bytes;
use crate::u128_to_bytes;
use crate::u32_to_bytes;
use crate::u64_to_bytes;

verus! {

pub type TxHash = Vec<u8>;

pub type PublicKey = Vec<u8>;

pub type Signature = Vec<u8>;

#[derive(Clone, Copy, PartialEq, Eq, Structural, Debug)]
pub enum TransactionType {
    Transfer,
    Data,
}

pub struct TransactionData {
    pub sender: PublicKey,
    pub receiver: Option<PublicKey>,
    pub timestamp: u128,
    pub tx_type: TransactionType,
    pub amount: Option<u64>,
    pub data: Option<Vec<u8>>,
    pub nonce: u64,
    pub fee: u64,
    pub valid_until: Option<u128>,
}

/// Mathematical shape of a transaction's payload fields.
pub struct TxDataV {
    pub sender: Seq<u8>,
    pub receiver: Option<Seq<u8>>,
    pub timestamp: u128,
    pub tx_type: TransactionType,
    pub amount: Option<u64>,
    pub data: Option<Seq<u8>>,
    pub nonce: u64,
    pub fee: u64,
    pub valid_until: Option<u128>,
}

impl View for TransactionData {
    type V = TxDataV;

    open spec fn view(&self) -> TxDataV {
        TxDataV {
            sender: self.sender@,
            receiver: match self.receiver {
                Some(ref r) => Some(r@),
                None => None,
            },
            timestamp: self.timestamp,
            tx_type: self.tx_type,
            amount: self.amount,
            data: match self.data {
                Some(ref d) => Some(d@),
                None => None,
            },
            nonce: self.nonce,
            fee: self.fee,
            valid_until: self.valid_until,
        }
    }
}

pub struct Transaction {
    pub data: TransactionData,
    pub signature: Signature,
    pub tx_hash: TxHash,
}

/// Mathematical shape of a signed transaction.
pub struct TxV {
    pub data: TxDataV,
    pub signature: Seq<u8>,
    pub tx_hash: Seq<u8>,
}

impl View for Transaction {
    type V = TxV;

    open spec fn view(&self) -> TxV {
        TxV { data: self.data@, signature: self.signature@, tx_hash: self.tx_hash@ }
    }
}

/// A length-prefixed byte field: four big-endian length bytes, then the bytes.
pub open spec fn enc_bytes(b: Seq<u8>) -> Seq<u8> {
    spec_u32_bytes(b.len() as u32) + b
}

/// An optional byte field: a presence byte, then the field if present.
pub open spec fn enc_opt_bytes(b: Option<Seq<u8>>) -> Seq<u8> {
    match b {
        Some(s) => seq![1u8] + enc_bytes(s),
        None => seq![0u8],
    }
}

pub open spec fn enc_opt_u64(v: Option<u64>) -> Seq<u8> {
    match v {
        Some(n) => seq![1u8] + spec_u64_bytes(n),
        None => seq![0u8],
    }
}

pub open spec fn enc_opt_u128(v: Option<u128>) -> Seq<u8> {
    match v {
        Some(n) => seq![1u8] + spec_u128_bytes(n),
        None => seq![0u8],
    }
}

pub open spec fn enc_tx_type(t: TransactionType) -> Seq<u8> {
    match t {
        TransactionType::Transfer => seq![0u8],
        TransactionType::Data => seq![1u8],
    }
}

/// The deterministic serialisation of a transaction's payload; signatures
/// and hashes commit to exactly these bytes.
pub open spec fn spec_tx_data_bytes(d: TxDataV) -> Seq<u8> {
    enc_bytes(d.sender) + enc_opt_bytes(d.receiver) + spec_u128_bytes(d.timestamp) + enc_tx_type(
        d.tx_type,
    ) + enc_opt_u64(d.amount) + enc_opt_bytes(d.data) + spec_u64_bytes(d.nonce) + spec_u64_bytes(
        d.fee,
    ) + enc_opt_u128(d.valid_until)
}

/// The serialised (payload, signature) pair a transaction hash is taken over.
pub open spec fn spec_tx_bytes(t: TxV) -> Seq<u8> {
    spec_tx_data_bytes(t.data) + t.signature
}

/// The transaction hash: a digest over the serialised (payload, signature).
pub open spec fn spec_tx_hash(t: TxV) -> Seq<u8> {
    sha256_of(spec_tx_bytes(t))
}

/// Field lengths fit their length prefixes.
pub open spec fn tx_data_bounded(d: TxDataV) -> bool {
    &&& d.sender.len() <= u32::MAX
    &&& (match d.receiver {
        Some(r) => r.len() <= u32::MAX,
        None => true,
    })
    &&& (match d.data {
        Some(p) => p.len() <= u32::MAX,
        None => true,
    })
}

fn push_bytes_field(out: &mut Vec<u8>, b: &Vec<u8>)
    requires
        b@.len() <= u32::MAX,
    ensures
        final(out)@ == old(out)@ + enc_bytes(b@),
{
    let len_bytes = u32_to_bytes(&(b.len() as u32));
    let mut i: usize = 0;
    while i < 4
        invariant
            i <= 4,
            len_bytes@ == spec_u32_bytes(b@.len() as u32),
            out@ == old(out)@ + len_bytes@.subrange(0, i as int),
        decreases 4 - i,
    {
        out.push(len_bytes[i]);
        proof {
            assert(len_bytes@.subrange(0, i + 1) =~= len_bytes@.subrange(0, i as int).push(
                len_bytes@[i as int],
            ));
        }
        i = i + 1;
    }
    proof {
        assert(len_bytes@.subrange(0, 4) =~= len_bytes@);
    }
    let mut j: usize = 0;
    while j < b.len()
        invariant
            j <= b@.len(),
            out@ == old(out)@ + spec_u32_bytes(b@.len() as u32) + b@.subrange(0, j as int),
        decreases b@.len() - j,
    {
        out.push(b[j]);
        proof {
            assert(b@.subrange(0, j + 1) =~= b@.subrange(0, j as int).push(b@[j as int]));
        }
        j = j + 1;
    }
    proof {
        assert(b@.subrange(0, b@.len() as int) =~= b@);
        assert(final(out)@ =~= old(out)@ + enc_bytes(b@));
    }
}

fn push_fixed(out: &mut Vec<u8>, b: &[u8])
    ensures
        final(out)@ == old(out)@ + b@,
{
    let mut i: usize = 0;
    while i < b.len()
        invariant
            i <= b@.len(),
            out@ == old(out)@ + b@.subrange(0, i as int),
        decreases b@.len() - i,
    {
        out.push(b[i]);
        proof {
            assert(b@.subrange(0, i + 1) =~= b@.subrange(0, i as int).push(b@[i as int]));
        }
        i = i + 1;
    }
    proof {
        assert(b@.subrange(0, b@.len() as int) =~= b@);
    }
}

/// The deterministic payload encoding that is signed and hashed.
#[verifier::rlimit(40)]
pub fn tx_data_bytes(d: &TransactionData) -> (r: Vec<u8>)
    requires
        tx_data_bounded(d@),
    ensures
        r@ == spec_tx_data_bytes(d@),
{
    let mut out: Vec<u8> = Vec::new();
    push_bytes_field(&mut out, &d.sender);
    match &d.receiver {
        Some(r) => {
            out.push(1u8);
            push_bytes_field(&mut out, r);
        },
        None => {
            out.push(0u8);
        },
    }
    push_fixed(&mut out, &u128_to_bytes(&d.timestamp));
    match d.tx_type {
        TransactionType::Transfer => out.push(0u8),
        TransactionType::Data => out.push(1u8),
    }
    match &d.amount {
        Some(n) => {
            out.push(1u8);
            push_fixed(&mut out, &u64_to_bytes(n));
        },
        None => {
            out.push(0u8);
        },
    }
    match &d.data {
        Some(p) => {
            out.push(1u8);
            push_bytes_field(&mut out, p);
        },
        None => {
            out.push(0u8);
        },
    }
    push_fixed(&mut out, &u64_to_bytes(&d.nonce));
    push_fixed(&mut out, &u64_to_bytes(&d.fee));
    match &d.valid_until {
        Some(n) => {
            out.push(1u8);
            push_fixed(&mut out, &u128_to_bytes(n));
        },
        None => {
            out.push(0u8);
        },
    }
    proof {
        assert(out@ =~= spec_tx_data_bytes(d@));
    }
    out
}

/// Whether a payload byte is acceptable: no control bytes other than
/// tab, line feed and carriage return.
pub open spec fn payload_byte_ok(b: u8) -> bool {
    (b >= 0x20 || b == 9 || b == 10 || b == 13) && b != 0x7f
}

/// A payload with its unacceptable bytes dropped, in order.
pub open spec fn sanitize_payload(s: Seq<u8>) -> Seq<u8>
    decreases s.len(),
{
    if s.len() == 0 {
        Seq::empty()
    } else if payload_byte_ok(s.last()) {
        sanitize_payload(s.drop_last()).push(s.last())
    } else {
        sanitize_payload(s.drop_last())
    }
}

/// Type-specific well-formedness: a transfer carries a positive, bounded
/// amount and a receiver; a data record carries a non-empty payload of at
/// most 4096 acceptable bytes; fees are capped.
pub open spec fn spec_tx_specifics_ok(d: TxDataV) -> bool {
    &&& (match d.tx_type {
        TransactionType::Transfer => {
            &&& d.amount is Some
            &&& d.amount.unwrap() > 0
            &&& d.amount.unwrap() <= 1_000_000_000_000
            &&& d.receiver is Some
        },
        TransactionType::Data => {
            &&& d.data is Some
            &&& d.data.unwrap().len() > 0
            &&& d.data.unwrap().len() <= 4096
            &&& (forall|i: int|
                0 <= i < d.data.unwrap().len() ==> payload_byte_ok(#[trigger] d.data.unwrap()[i]))
        },
    })
    &&& d.fee <= 1_000_000
}

/// Whole-transaction validity at wall-clock time `now_ms`: key and field
/// shapes, expiry, timestamp within an hour of the clock, type-specific
/// rules, and a signature that verifies over the payload encoding.
pub open spec fn spec_tx_valid_at(t: TxV, now_ms: u128) -> bool {
    &&& t.data.sender.len() == 32
    &&& (match t.data.receiver {
        Some(r) => r.len() == 32,
        None => true,
    })
    &&& (match t.data.data {
        Some(p) => p.len() <= 4096,
        None => true,
    })
    &&& (match t.data.valid_until {
        Some(v) => now_ms <= v,
        None => true,
    })
    &&& t.data.timestamp <= now_ms + 3_600_000
    &&& now_ms <= t.data.timestamp + 3_600_000
    &&& spec_tx_specifics_ok(t.data)
    &&& ed25519_verifies(t.data.sender, spec_tx_data_bytes(t.data), t.signature)
}


/// A sanitized payload is no longer than its source.
pub proof fn lemma_sanitize_len(s: Seq<u8>)
    ensures
        sanitize_payload(s).len() <= s.len(),
    decreases s.len(),
{
    if s.len() > 0 {
        lemma_sanitize_len(s.drop_last());
    }
}

/// Every byte of a sanitized payload is acceptable.
pub proof fn lemma_sanitize_ok(s: Seq<u8>)
    ensures
        forall|i: int| 0 <= i < sanitize_payload(s).len() ==> payload_byte_ok(
            #[trigger] sanitize_payload(s)[i],
        ),
    decreases s.len(),
{
    if s.len() > 0 {
        lemma_sanitize_ok(s.drop_last());
        if payload_byte_ok(s.last()) {
            assert forall|i: int|
                0 <= i < sanitize_payload(s).len() implies payload_byte_ok(
                #[trigger] sanitize_payload(s)[i],
            ) by {
                if i < sanitize_payload(s.drop_last()).len() {
                    assert(sanitize_payload(s)[i] == sanitize_payload(s.drop_last())[i]);
                }
            }
        }
    }
}

impl TransactionData {
    /// A copy whose view equals the original's.
    pub fn duplicate(&self) -> (r: Self)
        ensures
            r@ == self@,
    {
        TransactionData {
            sender: clone_bytes(&self.sender),
            receiver: match &self.receiver {
                Some(r) => Some(clone_bytes(r)),
                None => None,
            },
            timestamp: self.timestamp,
            tx_type: self.tx_type,
            amount: self.amount,
            data: match &self.data {
                Some(d) => Some(clone_bytes(d)),
                None => None,
            },
            nonce: self.nonce,
            fee: self.fee,
            valid_until: self.valid_until,
        }
    }
}

/// Saturating addition on u128.
pub fn sat_add_u128(a: u128, b: u128) -> (r: u128)
    ensures
        a + b > u128::MAX ==> r == u128::MAX,
        a + b <= u128::MAX ==> r == a + b,
{
    if a > u128::MAX - b {
        u128::MAX
    } else {
        a + b
    }
}

impl Transaction {
    /// A copy whose view equals the original's.
    pub fn duplicate(&self) -> (r: Self)
        ensures
            r@ == self@,
    {
        Transaction {
            data: self.data.duplicate(),
            signature: clone_bytes(&self.signature),
            tx_hash: clone_bytes(&self.tx_hash),
        }
    }

    /// The serialised (payload, signature) pair the hash is taken over.
    pub fn bytes(&self) -> (r: Vec<u8>)
        requires
            tx_data_bounded(self.data@),
        ensures
            r@ == spec_tx_bytes(self@),
    {
        let mut out = tx_data_bytes(&self.data);
        push_fixed(&mut out, self.signature.as_slice());
        out
    }

    /// The transaction's hash, recomputed from its current fields.
    pub fn hash(&self) -> (r: Vec<u8>)
        requires
            tx_data_bounded(self.data@),
        ensures
            r@ == spec_tx_hash(self@),
            r@.len() == 32,
    {
        let b = self.bytes();
        sha256(b.as_slice())
    }

    /// A fresh payload stamped with the current wall clock and an expiry
    /// one hour later.
    pub fn new_data(
        sender: PublicKey,
        receiver: Option<PublicKey>,
        tx_type: TransactionType,
        amount: Option<u64>,
        data: Option<Vec<u8>>,
        nonce: u64,
        fee: u64,
    ) -> (r: TransactionData)
        ensures
            r@.sender == sender@,
            r@.receiver == (match receiver {
                Some(x) => Some(x@),
                None => None::<Seq<u8>>,
            }),
            r@.tx_type == tx_type,
            r@.amount == amount,
            r@.data == (match data {
                Some(x) => Some(x@),
                None => None::<Seq<u8>>,
            }),
            r@.nonce == nonce,
            r@.fee == fee,
            r@.valid_until == Some(
                if r@.timestamp + 3_600_000 > u128::MAX {
                    u128::MAX
                } else {
                    (r@.timestamp + 3_600_000) as u128
                },
            ),
    {
        let timestamp = now();
        let valid_until = sat_add_u128(timestamp, 3_600_000);
        TransactionData {
            sender,
            receiver,
            timestamp,
            tx_type,
            amount,
            data,
            nonce,
            fee,
            valid_until: Some(valid_until),
        }
    }

    /// Sign a payload's encoding with an Ed25519 secret key.
    pub fn sign(tx_data: &TransactionData, secret: &Vec<u8>) -> (r: Signature)
        requires
            secret@.len() == 32,
            tx_data_bounded(tx_data@),
        ensures
            r@ == ed25519_signature_of(secret@, spec_tx_data_bytes(tx_data@)),
            ed25519_verifies(ed25519_public_of(secret@), spec_tx_data_bytes(tx_data@), r@),
            r@.len() == 64,
    {
        let bytes = tx_data_bytes(tx_data);
        sign_message(secret.as_slice(), bytes.as_slice())
    }

    /// Sign a payload and seal it with its hash.
    pub fn create_signed(tx_data: TransactionData, secret: &Vec<u8>) -> (r: Self)
        requires
            secret@.len() == 32,
            tx_data_bounded(tx_data@),
        ensures
            r@.data == tx_data@,
            r@.signature == ed25519_signature_of(secret@, spec_tx_data_bytes(tx_data@)),
            ed25519_verifies(
                ed25519_public_of(secret@),
                spec_tx_data_bytes(tx_data@),
                r@.signature,
            ),
            r@.tx_hash == spec_tx_hash(r@),
            r@.tx_hash.len() == 32,
    {
        let signature = Self::sign(&tx_data, secret);
        let mut transaction = Transaction { data: tx_data, signature, tx_hash: Vec::new() };
        let h = transaction.hash();
        proof {
            // the hash commits to payload and signature only
            assert(spec_tx_bytes(
                TxV { data: transaction@.data, signature: transaction@.signature, tx_hash: h@ },
            ) == spec_tx_bytes(transaction@));
        }
        transaction.tx_hash = h;
        transaction
    }

    /// A fresh Ed25519 keypair as (secret, public) bytes.
    pub fn generate_keypair() -> (r: (Vec<u8>, Vec<u8>))
        ensures
            r.0@.len() == 32,
            r.1@.len() == 32,
            r.1@ == ed25519_public_of(r.0@),
    {
        let secret = random_bytes32();
        let public = derive_public_key(secret.as_slice());
        (secret, public)
    }

    /// The public key belonging to a secret key.
    pub fn get_public_key(secret: &Vec<u8>) -> (r: Vec<u8>)
        requires
            secret@.len() == 32,
        ensures
            r@ == ed25519_public_of(secret@),
            r@.len() == 32,
    {
        derive_public_key(secret.as_slice())
    }

    /// Validity of this transaction at wall-clock time `now_ms`.
    pub fn verify_at(&self, now_ms: u128) -> (r: bool)
        ensures
            r == spec_tx_valid_at(self@, now_ms),
    {
        if self.data.sender.len() != 32 {
            return false;
        }
        match &self.data.receiver {
            Some(r) => {
                if r.len() != 32 {
                    return false;
                }
            },
            None => {},
        }
        match &self.data.data {
            Some(p) => {
                if p.len() > 4096 {
                    return false;
                }
            },
            None => {},
        }
        match self.data.valid_until {
            Some(v) => {
                if now_ms > v {
                    return false;
                }
            },
            None => {},
        }
        let ts = self.data.timestamp;
        if ts > now_ms && ts - now_ms > 3_600_000 {
            return false;
        }
        if now_ms > ts && now_ms - ts > 3_600_000 {
            return false;
        }
        if !self.validate_transaction_specifics() {
            return false;
        }
        let bytes = tx_data_bytes(&self.data);
        verify_signature(
            self.data.sender.as_slice(),
            bytes.as_slice(),
            self.signature.as_slice(),
        )
    }

    /// Validity against the wall clock; the time is read once and the
    /// result is that of `verify_at` at the time read.
    pub fn verify(&self) -> (r: bool)
        ensures
            exists|t: u128| r == spec_tx_valid_at(self@, t),
    {
        let t = now();
        self.verify_at(t)
    }

    /// The type-specific rules alone, without clock or signature.
    pub fn validate_transaction_specifics(&self) -> (r: bool)
        ensures
            r == spec_tx_specifics_ok(self@.data),
    {
        let type_ok = match self.data.tx_type {
            TransactionType::Transfer => {
                match self.data.amount {
                    Some(amount) => amount > 0 && amount <= 1_000_000_000_000
                        && self.data.receiver.is_some(),
                    None => false,
                }
            },
            TransactionType::Data => {
                match &self.data.data {
                    Some(payload) => {
                        if payload.len() == 0 || payload.len() > 4096 {
                            false
                        } else {
                            let mut ok = true;
                            let mut i: usize = 0;
                            while i < payload.len()
                                invariant
                                    i <= payload@.len(),
                                    ok == (forall|j: int|
                                        0 <= j < i ==> payload_byte_ok(#[trigger] payload@[j])),
                                decreases payload@.len() - i,
                            {
                                let b = payload[i];
                                if (b < 0x20 && b != 9 && b != 10 && b != 13) || b == 0x7f {
                                    ok = false;
                                }
                                i = i + 1;
                            }
                            ok
                        }
                    },
                    None => false,
                }
            },
        };
        type_ok && self.data.fee <= 1_000_000
    }

    /// Create, sign and seal a transfer.
    pub fn create_transfer(
        secret: &Vec<u8>,
        receiver: PublicKey,
        amount: u64,
        nonce: u64,
        fee: u64,
    ) -> (r: Result<Self, &'static str>)
        requires
            secret@.len() == 32,
        ensures
            r is Ok <==> (amount > 0 && receiver@.len() == 32),
            r matches Ok(tx) ==> {
                &&& tx@.data.sender == ed25519_public_of(secret@)
                &&& tx@.data.receiver == Some(receiver@)
                &&& tx@.data.tx_type == TransactionType::Transfer
                &&& tx@.data.amount == Some(amount)
                &&& tx@.data.data is None
                &&& tx@.data.nonce == nonce
                &&& tx@.data.fee == fee
                &&& tx@.signature == ed25519_signature_of(secret@, spec_tx_data_bytes(tx@.data))
                &&& ed25519_verifies(
                    tx@.data.sender,
                    spec_tx_data_bytes(tx@.data),
                    tx@.signature,
                )
                &&& tx@.tx_hash == spec_tx_hash(tx@)
                &&& tx@.data.valid_until == Some(
                    if tx@.data.timestamp + 3_600_000 > u128::MAX {
                        u128::MAX
                    } else {
                        (tx@.data.timestamp + 3_600_000) as u128
                    },
                )
                &&& (amount <= 1_000_000_000_000 && fee <= 1_000_000 ==> spec_tx_valid_at(
                    tx@,
                    tx@.data.timestamp,
                ))
            },
    {
        if amount == 0 {
            return Err("Transfer amount cannot be zero");
        }
        if receiver.len() != 32 {
            return Err("Invalid receiver public key length");
        }
        let sender = Self::get_public_key(secret);
        let tx_data = Self::new_data(
            sender,
            Some(receiver),
            TransactionType::Transfer,
            Some(amount),
            None,
            nonce,
            fee,
        );
        let tx = Self::create_signed(tx_data, secret);
        proof {
            if amount <= 1_000_000_000_000 && fee <= 1_000_000 {
                assert(spec_tx_specifics_ok(tx@.data));
                assert(spec_tx_valid_at(tx@, tx@.data.timestamp));
            }
        }
        Ok(tx)
    }

    /// Create, sign and seal a data record, dropping control bytes other
    /// than tab, line feed and carriage return from the payload.
    pub fn create_data_tx(secret: &Vec<u8>, data: Vec<u8>, nonce: u64, fee: u64) -> (r: Result<
        Self,
        &'static str,
    >)
        requires
            secret@.len() == 32,
        ensures
            r is Ok <==> (data@.len() > 0 && data@.len() <= 1024),
            r matches Ok(tx) ==> {
                &&& tx@.data.sender == ed25519_public_of(secret@)
                &&& tx@.data.receiver is None
                &&& tx@.data.tx_type == TransactionType::Data
                &&& tx@.data.amount is None
                &&& tx@.data.data == Some(sanitize_payload(data@))
                &&& tx@.data.nonce == nonce
                &&& tx@.data.fee == fee
                &&& tx@.signature == ed25519_signature_of(secret@, spec_tx_data_bytes(tx@.data))
                &&& ed25519_verifies(
                    tx@.data.sender,
                    spec_tx_data_bytes(tx@.data),
                    tx@.signature,
                )
                &&& tx@.tx_hash == spec_tx_hash(tx@)
                &&& tx@.data.valid_until == Some(
                    if tx@.data.timestamp + 3_600_000 > u128::MAX {
                        u128::MAX
                    } else {
                        (tx@.data.timestamp + 3_600_000) as u128
                    },
                )
                &&& (fee <= 1_000_000 && sanitize_payload(data@).len() > 0 ==> spec_tx_valid_at(
                    tx@,
                    tx@.data.timestamp,
                ))
            },
    {
        if data.len() == 0 {
            return Err("Data cannot be empty");
        }
        if data.len() > 1024 {
            return Err("Data too large (max 1KB)");
        }
        let mut sanitized: Vec<u8> = Vec::new();
        let mut i: usize = 0;
        proof {
            assert(data@.subrange(0, 0) =~= Seq::<u8>::empty());
        }
        while i < data.len()
            invariant
                i <= data@.len(),
                sanitized@ == sanitize_payload(data@.subrange(0, i as int)),
                sanitized@.len() <= i,
            decreases data@.len() - i,
        {
            let b = data[i];
            proof {
                let sub1 = data@.subrange(0, i + 1);
                assert(sub1.drop_last() =~= data@.subrange(0, i as int));
                assert(sub1.last() == data@[i as int]);
            }
            if (b >= 0x20 || b == 9 || b == 10 || b == 13) && b != 0x7f {
                sanitized.push(b);
            }
            i = i + 1;
        }
        proof {
            assert(data@.subrange(0, data@.len() as int) =~= data@);
        }
        let sender = Self::get_public_key(secret);
        let tx_data = Self::new_data(
            sender,
            None,
            TransactionType::Data,
            None,
            Some(sanitized),
            nonce,
            fee,
        );
        let tx = Self::create_signed(tx_data, secret);
        proof {
            lemma_sanitize_len(data@);
            lemma_sanitize_ok(data@);
            if fee <= 1_000_000 && sanitize_payload(data@).len() > 0 {
                assert(spec_tx_specifics_ok(tx@.data));
                assert(spec_tx_valid_at(tx@, tx@.data.timestamp));
            }
        }
        Ok(tx)
    }

    /// Whether the sender can fund this transaction under `balances`:
    /// amount plus fee for a transfer, the fee alone for a data record.
    pub fn can_be_applied(&self, balances: &BalanceMap) -> (r: bool)
        requires
            balances.wf(),
        ensures
            r == spec_can_be_applied(self@, balances.spec_get(self@.data.sender)),
    {
        let sender_balance = balances.get(&self.data.sender);
        match self.data.tx_type {
            TransactionType::Transfer => {
                match self.data.amount {
                    Some(amount) => {
                        (sender_balance as u128) >= (amount as u128) + (self.data.fee as u128)
                    },
                    None => false,
                }
            },
            TransactionType::Data => sender_balance >= self.data.fee,
        }
    }
}

/// Whether a sender with balance `sender_balance` can fund a transaction.
pub open spec fn spec_can_be_applied(t: TxV, sender_balance: u64) -> bool {
    match t.data.tx_type {
        TransactionType::Transfer => match t.data.amount {
            Some(amount) => sender_balance >= amount + t.data.fee,
            None => false,
        },
        TransactionType::Data => sender_balance >= t.data.fee,
    }
}

/// Highest nonce committed per sender; a sender's next transaction must
/// carry exactly the successor of its tracked nonce.
pub struct NonceTracker {
    nonces: BalanceMap,
}

impl NonceTracker {
    pub closed spec fn wf(&self) -> bool {
        self.nonces.wf()
    }

    /// The tracked nonce of a sender, 0 where none was committed.
    pub closed spec fn spec_nonce(&self, sender: Seq<u8>) -> u64 {
        self.nonces.spec_get(sender)
    }

    /// The tracked nonces as a total function.
    pub open spec fn nonces_fn(&self) -> spec_fn(Seq<u8>) -> u64 {
        |k: Seq<u8>| self.spec_nonce(k)
    }

    pub fn new() -> (r: Self)
        ensures
            r.wf(),
            forall|k: Seq<u8>| r.spec_nonce(k) == 0,
    {
        NonceTracker { nonces: BalanceMap::new() }
    }

    /// Accept `tx_nonce` only if it is exactly one above the tracked nonce,
    /// advancing the tracker on acceptance.
    pub fn validate_and_update(&mut self, sender: &PublicKey, tx_nonce: u64) -> (r: bool)
        requires
            old(self).wf(),
        ensures
            final(self).wf(),
            r == (old(self).spec_nonce(sender@) < u64::MAX && tx_nonce == old(self).spec_nonce(
                sender@,
            ) + 1),
            r ==> forall|k: Seq<u8>|
                final(self).spec_nonce(k) == if k == sender@ {
                    tx_nonce
                } else {
                    old(self).spec_nonce(k)
                },
            !r ==> *final(self) == *old(self),
    {
        let current_nonce = self.nonces.get(sender);
        if current_nonce == u64::MAX || tx_nonce != current_nonce + 1 {
            return false;
        }
        self.nonces.set(sender, tx_nonce);
        true
    }

    /// Advance the tracked nonce of a sender to `nonce`, never backwards.
    pub fn advance_to(&mut self, sender: &PublicKey, nonce: u64)
        requires
            old(self).wf(),
        ensures
            final(self).wf(),
            forall|k: Seq<u8>|
                final(self).spec_nonce(k) == if k == sender@ && nonce > old(self).spec_nonce(
                    sender@,
                ) {
                    nonce
                } else {
                    old(self).spec_nonce(k)
                },
    {
        let current = self.nonces.get(sender);
        if nonce > current {
            self.nonces.set(sender, nonce);
        }
    }

    /// The tracked nonce of a sender.
    pub fn get_nonce(&self, sender: &PublicKey) -> (r: u64)
        requires
            self.wf(),
        ensures
            r == self.spec_nonce(sender@),
    {
        self.nonces.get(sender)
    }
}

} // verus!
