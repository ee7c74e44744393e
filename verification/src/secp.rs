//! Verification hosts over secp256k1, from the `bitcoin` crate: compact ECDSA with public keys
//! written compressed or uncompressed, and BIP-340 Schnorr with x-only public keys. Keys are written as the hex of their
//! serialization. A signature commits to the operation sighash of the message it covers, and
//! `pk_h` matches a key by the HASH160 of its serialized bytes, in the form it is written in.
use vstd::prelude::*;

use crate::ast::{HashFn, HashV, HashValue};
use crate::bytes::bytes_equal;
use crate::encode::operation_sighash;
use crate::hashes::{hash160, ripemd160_of, sha256_of, tagged_hash_of};
use crate::witness::{Signature, Verifier};

verus! {

/// Whether secp256k1 accepts `sig` as a compact ECDSA signature by the public key
/// written `key` over the 32-byte `digest`.
pub uninterp spec fn ecdsa_accepts(key: Seq<char>, sig: Seq<u8>, digest: Seq<u8>) -> bool;

/// Whether secp256k1 accepts `sig` as a BIP-340 signature by the x-only public key written `key`
/// over the 32-byte `digest`.
pub uninterp spec fn schnorr_accepts(key: Seq<char>, sig: Seq<u8>, digest: Seq<u8>) -> bool;

/// The serialization of the public key written `key`, if it is one: 33 bytes for a key written
/// compressed, 65 for one written uncompressed.
pub uninterp spec fn public_key_bytes_of(key: Seq<char>) -> Option<Seq<u8>>;

/// The 32-byte serialization of the x-only public key written `key`, if it is one.
pub uninterp spec fn x_only_key_of(key: Seq<char>) -> Option<Seq<u8>>;

/// ECDSA verification: `secp256k1::PublicKey::from_str`, `ecdsa::Signature::from_compact`, and
/// `Secp256k1::verify_ecdsa` over the digest; a key or signature that does not parse is
/// rejected. Trusted to answer [`ecdsa_accepts`] of its arguments.
#[verifier::external_body]
fn ecdsa_verify(key: &str, sig: &[u8], digest: &[u8; 32]) -> (r: bool)
    ensures
        r == ecdsa_accepts(key@, sig@, digest@),
{
    let pk = match key.parse::<bitcoin::secp256k1::PublicKey>() {
        Ok(k) => k,
        Err(_) => return false,
    };
    let sig = match bitcoin::secp256k1::ecdsa::Signature::from_compact(sig) {
        Ok(s) => s,
        Err(_) => return false,
    };
    let msg = bitcoin::secp256k1::Message::from_digest(*digest);
    bitcoin::secp256k1::Secp256k1::verification_only().verify_ecdsa(&msg, &sig, &pk).is_ok()
}

/// BIP-340 verification: `secp256k1::XOnlyPublicKey::from_str`, `schnorr::Signature::from_slice`,
/// and `Secp256k1::verify_schnorr` over the digest; a key or signature that does not parse is
/// rejected. Trusted to answer [`schnorr_accepts`] of its arguments.
#[verifier::external_body]
fn schnorr_verify(key: &str, sig: &[u8], digest: &[u8; 32]) -> (r: bool)
    ensures
        r == schnorr_accepts(key@, sig@, digest@),
{
    let pk = match key.parse::<bitcoin::secp256k1::XOnlyPublicKey>() {
        Ok(k) => k,
        Err(_) => return false,
    };
    let sig = match bitcoin::secp256k1::schnorr::Signature::from_slice(sig) {
        Ok(s) => s,
        Err(_) => return false,
    };
    let msg = bitcoin::secp256k1::Message::from_digest(*digest);
    bitcoin::secp256k1::Secp256k1::verification_only().verify_schnorr(&sig, &msg, &pk).is_ok()
}

/// The serialization of a public key: `bitcoin::PublicKey::from_str`, which reads 66 or 130 hex
/// digits and keeps whether the key was compressed, and `to_bytes`, which writes it in that form
/// (33 or 65 bytes); `None` where the text is no public key. Trusted to give
/// [`public_key_bytes_of`] of the text.
#[verifier::external_body]
fn public_key_bytes(key: &str) -> (r: Option<Vec<u8>>)
    ensures
        match r {
            Some(b) => public_key_bytes_of(key@) == Some(b@) && (b@.len() == 33 || b@.len() == 65),
            None => public_key_bytes_of(key@) is None,
        },
{
    match key.parse::<bitcoin::PublicKey>() {
        Ok(k) => Some(k.to_bytes()),
        Err(_) => None,
    }
}

/// The serialization of an x-only public key: `secp256k1::XOnlyPublicKey::from_str` and
/// `serialize`, which gives 32 bytes; `None` where the text is no x-only key. Trusted to give
/// [`x_only_key_of`] of the text.
#[verifier::external_body]
fn x_only_key(key: &str) -> (r: Option<Vec<u8>>)
    ensures
        match r {
            Some(b) => x_only_key_of(key@) == Some(b@) && b@.len() == 32,
            None => x_only_key_of(key@) is None,
        },
{
    match key.parse::<bitcoin::secp256k1::XOnlyPublicKey>() {
        Ok(k) => Some(k.serialize().to_vec()),
        Err(_) => None,
    }
}

/// The compact ECDSA signature secp256k1 makes with the secret key `secret` over `digest`
/// (RFC 6979 nonces), or `None` where `secret` is no secret key.
pub uninterp spec fn ecdsa_signature_of(secret: Seq<u8>, digest: Seq<u8>) -> Option<Seq<u8>>;

/// The BIP-340 signature secp256k1 makes with the secret key `secret` over `digest`, without
/// auxiliary randomness, or `None` where `secret` is no secret key.
pub uninterp spec fn schnorr_signature_of(secret: Seq<u8>, digest: Seq<u8>) -> Option<Seq<u8>>;

/// ECDSA signing: `secp256k1::SecretKey::from_slice`, `Secp256k1::sign_ecdsa` over the digest,
/// and `serialize_compact`, which gives 64 bytes. Trusted to give [`ecdsa_signature_of`] of
/// its arguments.
#[verifier::external_body]
fn ecdsa_sign_digest(secret: &[u8; 32], digest: &[u8; 32]) -> (r: Option<Vec<u8>>)
    ensures
        match r {
            Some(b) => ecdsa_signature_of(secret@, digest@) == Some(b@) && b@.len() == 64,
            None => ecdsa_signature_of(secret@, digest@) is None,
        },
{
    let sk = match bitcoin::secp256k1::SecretKey::from_slice(secret) {
        Ok(k) => k,
        Err(_) => return None,
    };
    let msg = bitcoin::secp256k1::Message::from_digest(*digest);
    Some(bitcoin::secp256k1::Secp256k1::signing_only().sign_ecdsa(&msg, &sk).serialize_compact().to_vec())
}

/// BIP-340 signing: `secp256k1::Keypair::from_seckey_slice`, `Secp256k1::sign_schnorr_no_aux_rand`
/// over the digest, and the signature's 64 bytes. Trusted to give [`schnorr_signature_of`] of
/// its arguments.
#[verifier::external_body]
fn schnorr_sign_digest(secret: &[u8; 32], digest: &[u8; 32]) -> (r: Option<Vec<u8>>)
    ensures
        match r {
            Some(b) => schnorr_signature_of(secret@, digest@) == Some(b@) && b@.len() == 64,
            None => schnorr_signature_of(secret@, digest@) is None,
        },
{
    let secp = bitcoin::secp256k1::Secp256k1::new();
    let kp = match bitcoin::secp256k1::Keypair::from_seckey_slice(&secp, secret) {
        Ok(k) => k,
        Err(_) => return None,
    };
    let msg = bitcoin::secp256k1::Message::from_digest(*digest);
    Some(secp.sign_schnorr_no_aux_rand(&msg, &kp).as_ref().to_vec())
}

/// Whether `r` is the signature `sig` names, as a [`Signature`], and `None` where it names
/// none.
pub open spec fn signed_with(
    sig: Option<Seq<u8>>,
    r: Option<Signature>,
) -> bool {
    match r {
        Some(s) => sig == Some(s@),
        None => sig is None,
    }
}

/// Whether a key's serialization, if it has one, hashes to `keyhash` under HASH160.
pub open spec fn key_bytes_hash_to(bytes: Option<Seq<u8>>, keyhash: HashV) -> bool {
    match bytes {
        Some(b) => keyhash.func == HashFn::Hash160 && ripemd160_of(sha256_of(b)) == keyhash.digest,
        None => false,
    }
}

/// Whether serialized key bytes hash to `keyhash` under HASH160.
fn bytes_hash_to(bytes: Option<Vec<u8>>, keyhash: &HashValue) -> (r: bool)
    ensures
        r == key_bytes_hash_to(
            match bytes {
                Some(b) => Some(b@),
                None => None,
            },
            keyhash@,
        ),
{
    match (bytes, keyhash) {
        (Some(b), HashValue::Hash160(d)) => {
            let x = hash160(b.as_slice());
            bytes_equal(x.as_slice(), d.as_slice())
        },
        _ => false,
    }
}

/// The ECDSA verification host.
pub struct EcdsaVerifier;

impl EcdsaVerifier {
    /// A verifier.
    pub fn new() -> Self {
        EcdsaVerifier
    }

    /// A signature by the secret key `secret` over `message`, in the compact encoding this
    /// verifier expects: ECDSA over the operation sighash of `message`. `None` where `secret` is
    /// no secret key.
    pub fn sign(&self, secret: &[u8; 32], message: &[u8]) -> (r: Option<Signature>)
        ensures
            signed_with(ecdsa_signature_of(secret@, tagged_hash_of("dep17/operation"@, message@)), r),
    {
        let digest = operation_sighash(message);
        match ecdsa_sign_digest(secret, &digest) {
            Some(b) => Some(Signature(b)),
            None => None,
        }
    }
}

impl Verifier for EcdsaVerifier {
    open spec fn accepts(&self, key: Seq<char>, sig: Seq<u8>, message: Seq<u8>) -> bool {
        ecdsa_accepts(key, sig, tagged_hash_of("dep17/operation"@, message))
    }

    open spec fn hashes_to(&self, key: Seq<char>, keyhash: HashV) -> bool {
        key_bytes_hash_to(public_key_bytes_of(key), keyhash)
    }

    fn verify_signature(&self, key: &str, sig: &Signature, message: &[u8]) -> (r: bool) {
        let digest = operation_sighash(message);
        ecdsa_verify(key, sig.0.as_slice(), &digest)
    }

    fn key_hashes_to(&self, key: &str, keyhash: &HashValue) -> (r: bool) {
        bytes_hash_to(public_key_bytes(key), keyhash)
    }
}

/// The BIP-340 Schnorr verification host.
pub struct SchnorrVerifier;

impl SchnorrVerifier {
    /// A verifier.
    pub fn new() -> Self {
        SchnorrVerifier
    }

    /// A signature by the secret key `secret` over `message`, as this verifier expects: BIP-340
    /// over the operation sighash of `message`, without auxiliary randomness. `None` where
    /// `secret` is no secret key.
    pub fn sign(&self, secret: &[u8; 32], message: &[u8]) -> (r: Option<Signature>)
        ensures
            signed_with(schnorr_signature_of(secret@, tagged_hash_of("dep17/operation"@, message@)), r),
    {
        let digest = operation_sighash(message);
        match schnorr_sign_digest(secret, &digest) {
            Some(b) => Some(Signature(b)),
            None => None,
        }
    }
}

impl Verifier for SchnorrVerifier {
    open spec fn accepts(&self, key: Seq<char>, sig: Seq<u8>, message: Seq<u8>) -> bool {
        schnorr_accepts(key, sig, tagged_hash_of("dep17/operation"@, message))
    }

    open spec fn hashes_to(&self, key: Seq<char>, keyhash: HashV) -> bool {
        key_bytes_hash_to(x_only_key_of(key), keyhash)
    }

    fn verify_signature(&self, key: &str, sig: &Signature, message: &[u8]) -> (r: bool) {
        let digest = operation_sighash(message);
        schnorr_verify(key, sig.0.as_slice(), &digest)
    }

    fn key_hashes_to(&self, key: &str, keyhash: &HashValue) -> (r: bool) {
        bytes_hash_to(x_only_key(key), keyhash)
    }
}

} // verus!
