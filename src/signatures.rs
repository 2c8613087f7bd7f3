//! Ed25519 keys and signatures over the SHA-256 digest of a message.

use vstd::prelude::*;
use crate::hash::{sha256, sha256_of};

verus! {

/// The Ed25519 verifying key of a 32-byte secret key.
pub uninterp spec fn ed25519_public_of(sk: Seq<u8>) -> Seq<u8>;

/// The Ed25519 signature of `msg` under the 32-byte secret key `sk`.
pub uninterp spec fn ed25519_signature_of(sk: Seq<u8>, msg: Seq<u8>) -> Seq<u8>;

/// Whether `sig` is a valid Ed25519 signature of `msg` under the encoded key `pk`.
pub uninterp spec fn ed25519_accepts(pk: Seq<u8>, msg: Seq<u8>, sig: Seq<u8>) -> bool;

/// Relies on ed25519_dalek::SigningKey::verifying_key: the 32-byte
/// compressed verifying key, a function of the secret key alone.
#[verifier::external_body]
fn ed25519_public_key(sk: &[u8; 32]) -> (r: [u8; 32])
    ensures
        r@ == ed25519_public_of(sk@),
{
    ed25519_dalek::SigningKey::from_bytes(sk).verifying_key().to_bytes()
}

/// Relies on ed25519_dalek's `Signer::sign` for `SigningKey`: the
/// deterministic 64-byte signature of RFC 8032.
#[verifier::external_body]
fn ed25519_sign(sk: &[u8; 32], msg: &[u8]) -> (r: [u8; 64])
    ensures
        r@ == ed25519_signature_of(sk@, msg@),
{
    let key = ed25519_dalek::SigningKey::from_bytes(sk);
    <ed25519_dalek::SigningKey as ed25519_dalek::Signer<ed25519_dalek::Signature>>::sign(
        &key,
        msg,
    ).to_bytes()
}

/// Relies on ed25519_dalek's `Verifier::verify` for `VerifyingKey`: a key
/// that is not 32 bytes or not a curve point, or a signature that is not 64
/// bytes, is rejected; a signature made by the matching secret key is accepted.
#[verifier::external_body]
fn ed25519_verify(pk: &[u8], msg: &[u8], sig: &[u8]) -> (r: bool)
    ensures
        r == ed25519_accepts(pk@, msg@, sig@),
        forall|sk: Seq<u8>|
            sk.len() == 32 && pk@ == ed25519_public_of(sk) && sig@ == #[trigger] ed25519_signature_of(
                sk,
                msg@,
            ) ==> r,
{
    let pk_arr: [u8; 32] = match pk.try_into() {
        Ok(a) => a,
        Err(_) => return false,
    };
    match (ed25519_dalek::VerifyingKey::from_bytes(&pk_arr), ed25519_dalek::Signature::from_slice(sig)) {
        (Ok(key), Ok(signature)) => <ed25519_dalek::VerifyingKey as ed25519_dalek::Verifier<
            ed25519_dalek::Signature,
        >>::verify(&key, msg, &signature).is_ok(),
        _ => false,
    }
}

/// The verifying key that belongs to a secret key.
pub fn public_key_of(sk: &[u8; 32]) -> (r: [u8; 32])
    ensures
        r@ == ed25519_public_of(sk@),
{
    ed25519_public_key(sk)
}

/// Signs the SHA-256 digest of `message`.
pub fn sign_hash(sk: &[u8; 32], message: &[u8]) -> (r: [u8; 64])
    ensures
        r@ == ed25519_signature_of(sk@, sha256_of(message@)),
{
    let digest = sha256(message);
    ed25519_sign(sk, &digest)
}

/// Checks a signature over the SHA-256 digest of `message`.
pub fn verify_signature(public_key: &[u8], message: &[u8], signature: &[u8]) -> (r: bool)
    ensures
        r == ed25519_accepts(public_key@, sha256_of(message@), signature@),
        forall|sk: Seq<u8>|
            sk.len() == 32 && public_key@ == ed25519_public_of(sk) && signature@
                == #[trigger] ed25519_signature_of(sk, sha256_of(message@)) ==> r,
{
    let digest = sha256(message);
    ed25519_verify(public_key, &digest, signature)
}

} // verus!
