//! The mock signature scheme, for tests and tooling: a valid signature by `key` over `message`
//! is the bytes of `key`, then `|`, then `message`, so that a signature binds to both the key and
//! the exact message. `pk_h` matches a key against the HASH160 of its bytes.
use vstd::prelude::*;
use vstd::utf8::encode_utf8;

use crate::ast::{HashFn, HashV, HashValue};
use crate::bytes::{bytes_equal, slice_to_vec};
use crate::hashes::{hash160, ripemd160_of, sha256_of};
use crate::witness::{Signature, Verifier};

verus! {

/// The signature the mock scheme expects by `key` over `message`.
pub open spec fn mock_signature(key: Seq<char>, message: Seq<u8>) -> Seq<u8> {
    encode_utf8(key) + seq![124u8] + message
}

/// A verifier for the mock scheme.
pub struct MockVerifier;

impl Verifier for MockVerifier {
    open spec fn accepts(&self, key: Seq<char>, sig: Seq<u8>, message: Seq<u8>) -> bool {
        sig == mock_signature(key, message)
    }

    open spec fn hashes_to(&self, key: Seq<char>, keyhash: HashV) -> bool {
        keyhash.func == HashFn::Hash160 && ripemd160_of(sha256_of(encode_utf8(key))) == keyhash.digest
    }

    fn verify_signature(&self, key: &str, sig: &Signature, message: &[u8]) -> (r: bool) {
        let mut expected = slice_to_vec(key.as_bytes());
        expected.push(124u8);
        let mut i: usize = 0;
        while i < message.len()
            invariant
                i <= message@.len(),
                expected@ == encode_utf8(key@) + seq![124u8] + message@.take(i as int),
            decreases message@.len() - i,
        {
            expected.push(message[i]);
            assert(message@.take(i + 1) =~= message@.take(i as int).push(message@[i as int]));
            i = i + 1;
        }
        assert(message@.take(i as int) =~= message@);
        bytes_equal(sig.0.as_slice(), expected.as_slice())
    }

    fn key_hashes_to(&self, key: &str, keyhash: &HashValue) -> (r: bool) {
        match keyhash {
            HashValue::Hash160(d) => {
                let x = hash160(key.as_bytes());
                bytes_equal(x.as_slice(), d.as_slice())
            },
            _ => false,
        }
    }
}

} // verus!
