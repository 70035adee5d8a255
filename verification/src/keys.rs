//! Ed25519 over plain bytes.
//!
//! Keys and signatures are held as byte arrays, so that contracts can speak of
//! them. What Ed25519 computes is not restated here: three uninterpreted
//! functions name the results, and the trusted declarations below tie each
//! call to its name.

use ed25519_dalek::{Signature, Signer, SigningKey, Verifier, VerifyingKey};
use vstd::prelude::*;

verus! {

/// The signature that the secret key `secret` gives the bytes `message`
/// (`SigningKey::sign`, which is deterministic).
pub uninterp spec fn ed25519_signature(secret: Seq<u8>, message: Seq<u8>) -> Seq<u8>;

/// The public key that belongs to the secret key `secret`
/// (`SigningKey::verifying_key`).
pub uninterp spec fn ed25519_public_key(secret: Seq<u8>) -> Seq<u8>;

/// Whether `public` decodes to a key (`VerifyingKey::from_bytes`) under which
/// `signature` is a signature on `message` (`VerifyingKey::verify`).
pub uninterp spec fn ed25519_accepts(public: Seq<u8>, message: Seq<u8>, signature: Seq<u8>) -> bool;

/// Trusted: `SigningKey::from_bytes(secret).sign(message)`, as bytes.
///
/// Claimed of it: the result is a function of the two arguments alone, and it
/// verifies under the public half of the same key, as the crate documents of
/// a signature made by `sign`.
#[verifier::external_body]
pub(crate) fn sign_message(secret: &[u8; 32], message: &[u8]) -> (signature: [u8; 64])
    ensures
        signature@ == ed25519_signature(secret@, message@),
        ed25519_accepts(ed25519_public_key(secret@), message@, signature@),
{
    SigningKey::from_bytes(secret).sign(message).to_bytes()
}

/// Trusted: `VerifyingKey::from_bytes(public)` followed by
/// `verify(message, signature)`.
///
/// Claimed of it: only that the answer is a function of the three arguments.
/// Bytes that decode to no key are accepted for no message.
#[verifier::external_body]
pub(crate) fn verify_message(public: &[u8; 32], message: &[u8], signature: &[u8; 64]) -> (ok: bool)
    ensures
        ok == ed25519_accepts(public@, message@, signature@),
{
    match VerifyingKey::from_bytes(public) {
        Ok(key) => key.verify(message, &Signature::from_bytes(signature)).is_ok(),
        Err(_) => false,
    }
}

/// Trusted: `SigningKey::from_bytes(secret).verifying_key()`, as bytes.
///
/// Claimed of it: only that the result is a function of the argument.
#[verifier::external_body]
pub(crate) fn derive_public_key(secret: &[u8; 32]) -> (public: [u8; 32])
    ensures
        public@ == ed25519_public_key(secret@),
{
    SigningKey::from_bytes(secret).verifying_key().to_bytes()
}

/// The verifying key that matches a signing key.
pub fn verifying_key_for(signing_key: &[u8; 32]) -> (verifying_key: [u8; 32])
    ensures
        verifying_key@ == ed25519_public_key(signing_key@),
{
    derive_public_key(signing_key)
}

} // verus!
