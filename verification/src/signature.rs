//! ECDSA over secp256k1: the signing and verifying the ledger asks of its
//! key collaborator, on plain bytes.

use k256::ecdsa::signature::{Signer, Verifier};
use k256::ecdsa::{Signature, SigningKey, VerifyingKey};
use vstd::prelude::*;

verus! {

/// The compressed SEC1 public key of a private key; `None` when the bytes are
/// not a private key.
pub uninterp spec fn ecdsa_public_key(private_key: Seq<u8>) -> Option<Seq<u8>>;

/// The deterministic signature of a message under a private key; `None` when
/// the bytes are not a private key or no signature could be made.
pub uninterp spec fn ecdsa_signature(private_key: Seq<u8>, message: Seq<u8>) -> Option<Seq<u8>>;

/// Whether a signature is valid for a message under a SEC1 public key.
/// Malformed keys and signatures verify nothing.
pub uninterp spec fn ecdsa_verifies(public_key: Seq<u8>, message: Seq<u8>, signature: Seq<u8>) -> bool;

/// Calls `SigningKey::random` with the operating system's generator and
/// serialises the key. Trusted: whatever key comes out, its 32 bytes are a
/// private key, so a public key belongs to it.
#[verifier::external_body]
pub(crate) fn random_private_key() -> (key: Vec<u8>)
    ensures
        key@.len() == 32,
        ecdsa_public_key(key@).is_some(),
{
    SigningKey::random(&mut k256::elliptic_curve::rand_core::OsRng).to_bytes().to_vec()
}

/// Calls `SigningKey::from_slice` and serialises the verifying key as a
/// compressed SEC1 point. Trusted: the result is a function of the bytes
/// alone.
#[verifier::external_body]
pub(crate) fn public_key_of(private_key: &[u8]) -> (key: Option<Vec<u8>>)
    ensures
        match key {
            Some(k) => ecdsa_public_key(private_key@) == Some(k@),
            None => ecdsa_public_key(private_key@).is_none(),
        },
{
    let signing_key = SigningKey::from_slice(private_key).ok()?;
    Some(signing_key.verifying_key().to_encoded_point(true).as_bytes().to_vec())
}

/// Calls `SigningKey::from_slice` and `try_sign`. Trusted: signing follows
/// RFC 6979, so the result is a function of key and message alone; a
/// signature has 64 bytes, comes only from bytes that are a private key, and
/// verifies under that key's public key.
#[verifier::external_body]
pub(crate) fn sign_message(private_key: &[u8], message: &[u8]) -> (signature: Option<Vec<u8>>)
    ensures
        match signature {
            Some(s) => {
                &&& ecdsa_signature(private_key@, message@) == Some(s@)
                &&& s@.len() == 64
                &&& ecdsa_public_key(private_key@) matches Some(public_key)
                &&& ecdsa_verifies(public_key, message@, s@)
            },
            None => ecdsa_signature(private_key@, message@).is_none(),
        },
{
    let signing_key = SigningKey::from_slice(private_key).ok()?;
    let signature: Signature = signing_key.try_sign(message).ok()?;
    Some(signature.to_vec())
}

/// Calls `VerifyingKey::from_sec1_bytes`, `Signature::from_slice` and
/// `verify`. Trusted: the answer is a function of the three byte strings
/// alone; a key or a signature that does not parse gives `false`.
#[verifier::external_body]
pub(crate) fn verify_message(public_key: &[u8], message: &[u8], signature: &[u8]) -> (valid: bool)
    ensures
        valid == ecdsa_verifies(public_key@, message@, signature@),
{
    let Ok(verifying_key) = VerifyingKey::from_sec1_bytes(public_key) else {
        return false;
    };
    let Ok(parsed) = Signature::from_slice(signature) else {
        return false;
    };
    verifying_key.verify(message, &parsed).is_ok()
}

} // verus!
