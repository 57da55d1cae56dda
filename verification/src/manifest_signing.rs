//! Ed25519 signatures over compatibility manifests, exchanged as lowercase
//! hex text.
//!
//! A fixed test signing key (secret bytes all `7`) is used by the
//! `*_for_tests` helpers and by `verify_manifest_signature`; real manifests
//! are checked with `verify_manifest_signature_with_public_key`.
use vstd::prelude::*;
use vstd::utf8::encode_utf8;

use crate::codec::{
    decode_hex_text, hex_decodable, hex_decode, hex_encode, hex_lower, lemma_hex_roundtrip,
};
use crate::crypto::{
    ed25519_accepts, ed25519_public_key, ed25519_sign, ed25519_signature, ed25519_verify,
    ed25519_verifying_key,
};

verus! {

/// The secret bytes of the test signing key.
pub open spec fn test_secret() -> Seq<u8> {
    Seq::new(32, |i: int| 7u8)
}

/// The verifying key of the test signing key, as bytes.
pub open spec fn test_public_key() -> Seq<u8> {
    ed25519_public_key(test_secret())
}

/// `signature_hex` is the hex text of a 64-byte signature that the
/// verifying key `public_key` accepts for the UTF-8 bytes of `manifest`.
pub open spec fn signature_accepted(
    public_key: Seq<u8>,
    manifest: Seq<char>,
    signature_hex: Seq<char>,
) -> bool {
    let sig = encode_utf8(signature_hex);
    &&& hex_decodable(sig)
    &&& hex_decode(sig).len() == 64
    &&& ed25519_accepts(public_key, encode_utf8(manifest), hex_decode(sig))
}

/// `public_key_hex` is the hex text of a 32-byte key that accepts
/// `signature_hex` for `manifest`.
pub open spec fn signature_accepted_with_key_hex(
    manifest: Seq<char>,
    signature_hex: Seq<char>,
    public_key_hex: Seq<char>,
) -> bool {
    let key = encode_utf8(public_key_hex);
    &&& hex_decodable(key)
    &&& hex_decode(key).len() == 32
    &&& signature_accepted(hex_decode(key), manifest, signature_hex)
}

/// The secret bytes of the test signing key.
fn test_signing_secret() -> (s: [u8; 32])
    ensures
        s@ == test_secret(),
{
    let s = [7u8; 32];
    assert(s@ =~= test_secret());
    s
}

/// The first `N` bytes of `v` as an array.
fn byte_array<const N: usize>(v: &Vec<u8>) -> (a: [u8; N])
    requires
        v@.len() == N,
    ensures
        a@ == v@,
{
    let mut a = [0u8; N];
    let mut i: usize = 0;
    while i < N
        invariant
            i <= N,
            v@.len() == N,
            a@.len() == N,
            forall|j: int| 0 <= j < i ==> a@[j] == v@[j],
        decreases N - i,
    {
        a[i] = v[i];
        i = i + 1;
    }
    assert(a@ =~= v@);
    a
}

/// Signs the manifest text with the test signing key and returns the
/// signature as lowercase hex. The signature it returns is one that
/// `verify_manifest_signature` accepts for the same manifest.
pub fn sign_manifest_for_tests(manifest: &str) -> (r: String)
    ensures
        r@ == hex_lower(ed25519_signature(test_secret(), encode_utf8(manifest@))),
        signature_accepted(test_public_key(), manifest@, r@),
{
    let secret = test_signing_secret();
    let sig = ed25519_sign(&secret, manifest.as_bytes());
    proof {
        lemma_hex_roundtrip(sig@);
    }
    hex_encode(sig.as_slice())
}

/// The test signing key's verifying key as lowercase hex; the text decodes
/// back to the 32 key bytes.
pub fn test_public_key_hex_for_tests() -> (r: String)
    ensures
        r@ == hex_lower(test_public_key()),
        test_public_key().len() == 32,
        hex_decodable(encode_utf8(r@)),
        hex_decode(encode_utf8(r@)) == test_public_key(),
{
    let secret = test_signing_secret();
    let key = ed25519_verifying_key(&secret);
    proof {
        lemma_hex_roundtrip(key@);
    }
    hex_encode(key.as_slice())
}

/// Checks `signature_hex` against `public_key` for the manifest bytes.
fn check_signature_hex(public_key: &[u8; 32], manifest: &str, signature_hex: &str) -> (r: bool)
    ensures
        r == signature_accepted(public_key@, manifest@, signature_hex@),
{
    let bytes = match decode_hex_text(signature_hex) {
        Some(v) => v,
        None => return false,
    };
    if bytes.len() != 64 {
        return false;
    }
    let sig: [u8; 64] = byte_array(&bytes);
    ed25519_verify(public_key, manifest.as_bytes(), &sig)
}

/// Whether `signature_hex` is a signature of the manifest by the test
/// signing key: `false` for text that is not hex or not 64 bytes long.
pub fn verify_manifest_signature(manifest: &str, signature_hex: &str) -> (r: bool)
    ensures
        r == signature_accepted(test_public_key(), manifest@, signature_hex@),
{
    let secret = test_signing_secret();
    let key = ed25519_verifying_key(&secret);
    let key: [u8; 32] = byte_array(&key);
    check_signature_hex(&key, manifest, signature_hex)
}

/// Whether `signature_hex` is a signature of the manifest by the key whose
/// hex text is `public_key_hex`: `false` when either text is not hex, the
/// key is not 32 bytes, the signature is not 64 bytes, the key does not
/// decode, or the signature is rejected.
pub fn verify_manifest_signature_with_public_key(
    manifest: &str,
    signature_hex: &str,
    public_key_hex: &str,
) -> (r: bool)
    ensures
        r == signature_accepted_with_key_hex(manifest@, signature_hex@, public_key_hex@),
{
    let key_bytes = match decode_hex_text(public_key_hex) {
        Some(v) => v,
        None => return false,
    };
    if key_bytes.len() != 32 {
        return false;
    }
    let key: [u8; 32] = byte_array(&key_bytes);
    check_signature_hex(&key, manifest, signature_hex)
}

/// Checking against the hex text of the test verifying key is checking
/// against the test verifying key.
pub proof fn lemma_test_key_hex_check(manifest: Seq<char>, signature_hex: Seq<char>)
    requires
        test_public_key().len() == 32,
    ensures
        signature_accepted_with_key_hex(manifest, signature_hex, hex_lower(test_public_key()))
            == signature_accepted(test_public_key(), manifest, signature_hex),
{
    lemma_hex_roundtrip(test_public_key());
}

} // verus!
