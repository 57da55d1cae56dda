//! The cryptographic primitives that the library calls: SHA-256 (`sha2`)
//! and Ed25519 (`ed25519-dalek`). Their results are named, not modelled.
use ed25519_dalek::{Signer, Verifier};
use sha2::Digest;
use vstd::prelude::*;

verus! {

/// The SHA-256 digest of a byte string.
pub uninterp spec fn sha256(data: Seq<u8>) -> Seq<u8>;

/// `sha2::Sha256` over the bytes (`new`, `update`, `finalize`): the
/// 32-byte digest.
#[verifier::external_body]
pub(crate) fn sha256_digest(data: &[u8]) -> (r: Vec<u8>)
    ensures
        r@ == sha256(data@),
        r@.len() == 32,
{
    let mut hasher = sha2::Sha256::new();
    hasher.update(data);
    hasher.finalize().to_vec()
}

/// The Ed25519 signature that the signing key with secret bytes `secret`
/// makes of `message`.
pub uninterp spec fn ed25519_signature(secret: Seq<u8>, message: Seq<u8>) -> Seq<u8>;

/// The encoded verifying key of the signing key with secret bytes `secret`.
pub uninterp spec fn ed25519_public_key(secret: Seq<u8>) -> Seq<u8>;

/// Whether `public_key` decodes to a verifying key that accepts
/// `signature` as a signature of `message`.
pub uninterp spec fn ed25519_accepts(public_key: Seq<u8>, message: Seq<u8>, signature: Seq<u8>) -> bool;

/// `SigningKey::from_bytes(secret).sign(message).to_bytes()`: the 64-byte
/// signature. As the crate documents, the signing key's own verifying key
/// accepts it.
#[verifier::external_body]
pub(crate) fn ed25519_sign(secret: &[u8; 32], message: &[u8]) -> (r: Vec<u8>)
    ensures
        r@ == ed25519_signature(secret@, message@),
        r@.len() == 64,
        ed25519_accepts(ed25519_public_key(secret@), message@, r@),
{
    ed25519_dalek::SigningKey::from_bytes(secret).sign(message).to_bytes().to_vec()
}

/// `SigningKey::from_bytes(secret).verifying_key().to_bytes()`: the 32-byte
/// encoded verifying key.
#[verifier::external_body]
pub(crate) fn ed25519_verifying_key(secret: &[u8; 32]) -> (r: Vec<u8>)
    ensures
        r@ == ed25519_public_key(secret@),
        r@.len() == 32,
{
    ed25519_dalek::SigningKey::from_bytes(secret).verifying_key().to_bytes().to_vec()
}

/// `VerifyingKey::from_bytes(public_key)` followed by `verify(message,
/// Signature::from_bytes(signature))`: `false` when the key does not decode
/// or the signature is rejected.
#[verifier::external_body]
pub(crate) fn ed25519_verify(public_key: &[u8; 32], message: &[u8], signature: &[u8; 64]) -> (r:
    bool)
    ensures
        r == ed25519_accepts(public_key@, message@, signature@),
{
    match ed25519_dalek::VerifyingKey::from_bytes(public_key) {
        Ok(key) => key.verify(message, &ed25519_dalek::Signature::from_bytes(signature)).is_ok(),
        Err(_) => false,
    }
}

} // verus!
