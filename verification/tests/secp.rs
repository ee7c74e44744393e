//! Real cryptography: secp256k1 keypairs with ECDSA and Schnorr signatures over the operation
//! signing hash. Keys are written as their hex serialization.

use std::str::FromStr;

use bitcoin::secp256k1::{Keypair, Message, PublicKey, Secp256k1, SecretKey};

use bitcoin::hashes::{hash160, Hash as _};

use dep16::ast::{BTerm, HashValue, Obligation, VTerm, Value};
use dep16::decode::decode_descriptor;
use dep16::descriptor::Descriptor;
use dep16::encode::{encode_descriptor, operation_preimage, operation_sighash};
use dep16::eval::evaluate;
use dep16::host::OperationData;
use dep16::maps::SortedMap;
use dep16::parse::parse;
use dep16::registry::Symbol;
use dep16::snapshot::Snapshot;
use dep16::secp::{EcdsaVerifier, SchnorrVerifier};
use dep16::witness::{Signature, Verifier, Witness};

/// Signing with a secret key, for building witnesses.
trait Sign {
    fn sign_with(&self, sk: &SecretKey, message: &[u8]) -> Signature;
}

impl Sign for EcdsaVerifier {
    fn sign_with(&self, sk: &SecretKey, message: &[u8]) -> Signature {
        self.sign(&sk.secret_bytes(), message).expect("valid secret key")
    }
}

impl Sign for SchnorrVerifier {
    fn sign_with(&self, sk: &SecretKey, message: &[u8]) -> Signature {
        self.sign(&sk.secret_bytes(), message).expect("valid secret key")
    }
}

fn keypair(seed: u8) -> (SecretKey, String) {
    let ctx = Secp256k1::new();
    let sk = SecretKey::from_slice(&[seed; 32]).expect("valid secret key");
    let pk = PublicKey::from_secret_key(&ctx, &sk);
    (sk, pk.to_string())
}

fn xkeypair(seed: u8) -> (SecretKey, String) {
    let ctx = Secp256k1::new();
    let sk = SecretKey::from_slice(&[seed; 32]).unwrap();
    let (xpk, _parity) = Keypair::from_secret_key(&ctx, &sk).x_only_public_key();
    (sk, xpk.to_string())
}

fn op(amount: i128) -> OperationData {
    let mut args = SortedMap::new();
    args.insert("amount".to_string(), Value::Int(amount));
    OperationData { op_type: Symbol::new("spend"), args, deposit_id: [0u8; 32], nonce: 0, expiry: u32::MAX }
}

fn no_ledger() -> Snapshot {
    Snapshot { balance: 0, ..Snapshot::default() }
}

#[test]
fn real_signature_authorizes_and_binds_to_the_operation() {
    let v = EcdsaVerifier::new();
    let (sk, pk) = keypair(0x11);
    let d = parse(&format!("prove(pk({}))", pk)).unwrap();
    let a = op(100);
    let other = op(200);
    let sig = v.sign_with(&sk, &operation_preimage(&a));
    let w = Witness::empty().with_signature(pk, sig);
    assert!(evaluate(&d, &a, &no_ledger(), &w, &v).unwrap());
    assert!(!evaluate(&d, &other, &no_ledger(), &w, &v).unwrap());
}

#[test]
fn real_pk_h_matches_hash160_of_the_key() {
    let v = EcdsaVerifier::new();
    let (sk, pk) = keypair(0x11);
    let (sk_other, pk_other) = keypair(0x22);

    // pk_h commits to the hash160 of the key; the witness reveals the key (here, via its signature
    // entry) and the verifier matches by hash.
    let key_bytes = PublicKey::from_str(&pk).unwrap().serialize();
    let keyhash = HashValue::Hash160(hash160::Hash::hash(&key_bytes).to_byte_array());
    let body = BTerm::Prove(Obligation::PkH(VTerm::Lit(Value::Hash(keyhash))));
    let d = Descriptor::wsh(SortedMap::new(), body);

    let a = op(100);
    let msg = operation_preimage(&a);

    // The matching key signs: authorized.
    let w = Witness::empty().with_signature(pk, v.sign_with(&sk, &msg));
    assert!(evaluate(&d, &a, &no_ledger(), &w, &v).unwrap());

    // A different key signs: its hash does not match, so rejected.
    let w_other = Witness::empty().with_signature(pk_other, v.sign_with(&sk_other, &msg));
    assert!(!evaluate(&d, &a, &no_ledger(), &w_other, &v).unwrap());
}

#[test]
fn signature_by_the_wrong_key_is_rejected() {
    let v = EcdsaVerifier::new();
    let (_sk_a, pk_a) = keypair(0x11);
    let (sk_b, _pk_b) = keypair(0x22);
    let d = parse(&format!("prove(pk({}))", pk_a)).unwrap();
    let a = op(100);
    let sig_b = v.sign_with(&sk_b, &operation_preimage(&a));
    let w = Witness::empty().with_signature(pk_a, sig_b);
    assert!(!evaluate(&d, &a, &no_ledger(), &w, &v).unwrap());
}

#[test]
fn garbage_signature_is_rejected() {
    let v = EcdsaVerifier::new();
    let (_sk, pk) = keypair(0x11);
    let d = parse(&format!("prove(pk({}))", pk)).unwrap();
    let a = op(100);
    let w = Witness::empty().with_signature(pk, Signature(vec![0u8; 64]));
    assert!(!evaluate(&d, &a, &no_ledger(), &w, &v).unwrap());
}

#[test]
fn real_threshold_signing() {
    let v = EcdsaVerifier::new();
    let (sk1, pk1) = keypair(0x01);
    let (sk2, pk2) = keypair(0x02);
    let (_sk3, pk3) = keypair(0x03);
    let d = parse(&format!("prove(pk_threshold(2, [{}, {}, {}]))", pk1, pk2, pk3)).unwrap();
    let a = op(100);
    let msg = operation_preimage(&a);
    let w2 = Witness::empty()
        .with_signature(pk1.clone(), v.sign_with(&sk1, &msg))
        .with_signature(pk2, v.sign_with(&sk2, &msg));
    assert!(evaluate(&d, &a, &no_ledger(), &w2, &v).unwrap());
    let w1 = Witness::empty().with_signature(pk1, v.sign_with(&sk1, &msg));
    assert!(!evaluate(&d, &a, &no_ledger(), &w1, &v).unwrap());
}

#[test]
fn descriptor_with_real_keys_round_trips_through_the_codec() {
    let (_sk, pk) = keypair(0x11);
    let d = parse(&format!("prove(pk({}))", pk)).unwrap();
    let bytes = encode_descriptor(&d);
    let back = decode_descriptor(&bytes).expect("decode");
    assert_eq!(d, back);
}

#[test]
fn real_schnorr_authorizes_and_rejects() {
    let v = SchnorrVerifier::new();
    let (sk, xpk) = xkeypair(0x33);
    let d = parse(&format!("prove(pk({}))", xpk)).unwrap();
    let a = op(100);
    let msg = operation_preimage(&a);
    let w = Witness::empty().with_signature(xpk.clone(), v.sign_with(&sk, &msg));
    assert!(evaluate(&d, &a, &no_ledger(), &w, &v).unwrap());
    let (sk_other, _) = xkeypair(0x44);
    let w_bad = Witness::empty().with_signature(xpk, v.sign_with(&sk_other, &msg));
    assert!(!evaluate(&d, &a, &no_ledger(), &w_bad, &v).unwrap());
}

#[test]
fn schnorr_descriptor_round_trips_through_the_codec() {
    let (_sk, xpk) = xkeypair(0x33);
    let d = parse(&format!("prove(pk({}))", xpk)).unwrap();
    let back = decode_descriptor(&encode_descriptor(&d)).unwrap();
    assert_eq!(d, back);
}

#[test]
fn high_s_ecdsa_signature_is_rejected() {
    let v = EcdsaVerifier::new();
    let (sk, pk) = keypair(0x11);
    let a = op(100);
    let msg = operation_preimage(&a);
    let low = v.sign_with(&sk, &msg);
    assert!(v.verify_signature(&pk, &low, &msg));
    let mut bytes = [0u8; 64];
    bytes.copy_from_slice(&low.0);
    let s = SecretKey::from_slice(&bytes[32..64]).unwrap();
    let s_high = s.negate();
    bytes[32..64].copy_from_slice(&s_high.secret_bytes());
    let high = Signature(bytes.to_vec());
    assert!(!v.verify_signature(&pk, &high, &msg), "high-s signature must be rejected");
}

#[test]
fn signing_refuses_a_secret_that_is_no_key() {
    let msg = operation_preimage(&op(1));
    assert!(EcdsaVerifier::new().sign(&[0u8; 32], &msg).is_none());
    assert!(SchnorrVerifier::new().sign(&[0u8; 32], &msg).is_none());
}

#[test]
fn pk_h_of_an_uncompressed_key_hashes_its_uncompressed_form() {
    let v = EcdsaVerifier::new();
    let ctx = Secp256k1::new();
    let sk = SecretKey::from_slice(&[0x11; 32]).unwrap();
    let full = PublicKey::from_secret_key(&ctx, &sk).serialize_uncompressed();
    let pk: String = full.iter().map(|b| format!("{:02x}", b)).collect();
    let keyhash = HashValue::Hash160(hash160::Hash::hash(&full).to_byte_array());
    let body = BTerm::Prove(Obligation::PkH(VTerm::Lit(Value::Hash(keyhash))));
    let d = Descriptor::wsh(SortedMap::new(), body);
    let a = op(100);
    let msg = operation_preimage(&a);
    let w = Witness::empty().with_signature(pk, v.sign_with(&sk, &msg));
    assert!(evaluate(&d, &a, &no_ledger(), &w, &v).unwrap());
}
