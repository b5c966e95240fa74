//! Trusted boundary to the cryptographic primitives: SHA-256 digests and
//! Ed25519 signatures. Each wrapper's contract names what the outside call
//! returns; everything built on top of them is verified against these names.
use vstd::prelude::*;

use ed25519_dalek::Signer;
use ed25519_dalek::Verifier;
use sha2::Digest;

verus! {

/// What SHA-256 returns for a byte sequence.
pub uninterp spec fn sha256_of(data: Seq<u8>) -> Seq<u8>;

/// Relies on sha2::Sha256::digest: a 32-byte digest that depends on the
/// input bytes alone.
#[verifier::external_body]
pub fn sha256(data: &[u8]) -> (r: Vec<u8>)
    ensures
        r@ == sha256_of(data@),
        r@.len() == 32,
{
    sha2::Sha256::digest(data).to_vec()
}

/// The verifying key that Ed25519 derives from a 32-byte secret key.
pub uninterp spec fn ed25519_public_of(secret: Seq<u8>) -> Seq<u8>;

/// The signature Ed25519 produces for a secret key and a message; signing
/// is deterministic (RFC 8032), so it is a function of the two alone.
pub uninterp spec fn ed25519_signature_of(secret: Seq<u8>, message: Seq<u8>) -> Seq<u8>;

/// Whether Ed25519 verification accepts (public key, message, signature),
/// given each as plain bytes; false where a key or signature fails to parse.
pub uninterp spec fn ed25519_verifies(public: Seq<u8>, message: Seq<u8>, signature: Seq<u8>) -> bool;

/// Relies on ed25519_dalek::SigningKey::verifying_key: the public key is
/// derived from the secret key bytes alone.
#[verifier::external_body]
pub fn derive_public_key(secret: &[u8]) -> (r: Vec<u8>)
    requires
        secret@.len() == 32,
    ensures
        r@ == ed25519_public_of(secret@),
        r@.len() == 32,
{
    let bytes: &[u8; 32] = secret.try_into().unwrap();
    let sk = ed25519_dalek::SigningKey::from_bytes(bytes);
    sk.verifying_key().to_bytes().to_vec()
}

/// Relies on ed25519_dalek::SigningKey::sign: deterministic, 64 bytes, and
/// the produced signature verifies under the key's verifying key.
#[verifier::external_body]
pub fn sign_message(secret: &[u8], message: &[u8]) -> (r: Vec<u8>)
    requires
        secret@.len() == 32,
    ensures
        r@ == ed25519_signature_of(secret@, message@),
        r@.len() == 64,
        ed25519_verifies(ed25519_public_of(secret@), message@, r@),
{
    let bytes: &[u8; 32] = secret.try_into().unwrap();
    let sk = ed25519_dalek::SigningKey::from_bytes(bytes);
    sk.sign(message).to_bytes().to_vec()
}

/// Relies on ed25519_dalek::VerifyingKey::verify; a key or signature that
/// does not parse counts as a failed verification.
#[verifier::external_body]
pub fn verify_signature(public: &[u8], message: &[u8], signature: &[u8]) -> (r: bool)
    ensures
        r == ed25519_verifies(public@, message@, signature@),
{
    let Ok(key_bytes): Result<&[u8; 32], _> = public.try_into() else {
        return false;
    };
    let Ok(vk) = ed25519_dalek::VerifyingKey::from_bytes(key_bytes) else {
        return false;
    };
    let Ok(sig) = ed25519_dalek::Signature::from_slice(signature) else {
        return false;
    };
    vk.verify(message, &sig).is_ok()
}

/// Relies on rand::random: 32 bytes from the thread-local generator;
/// nothing is promised of their values.
#[verifier::external_body]
pub fn random_bytes32() -> (r: Vec<u8>)
    ensures
        r@.len() == 32,
{
    rand::random::<[u8; 32]>().to_vec()
}

} // verus!
