//! Hash functions, from the `bitcoin` crate's hash implementations.
use vstd::prelude::*;
use vstd::utf8::encode_utf8;

use bitcoin::hashes::Hash as _;

use crate::ast::{HashFn, HashValue};
use crate::bytes::slice_to_vec;

verus! {

/// What SHA-256 computes on a byte string.
pub uninterp spec fn sha256_of(data: Seq<u8>) -> Seq<u8>;

/// What RIPEMD-160 computes on a byte string.
pub uninterp spec fn ripemd160_of(data: Seq<u8>) -> Seq<u8>;

/// The SHA-256 digest of `data`: `bitcoin::hashes::sha256::Hash::hash`. Trusted to equal
/// [`sha256_of`] on `data`.
#[verifier::external_body]
pub(crate) fn sha256(data: &[u8]) -> (r: [u8; 32])
    ensures
        r@ == sha256_of(data@),
{
    bitcoin::hashes::sha256::Hash::hash(data).to_byte_array()
}

/// The RIPEMD-160 digest of `data`: `bitcoin::hashes::ripemd160::Hash::hash`. Trusted to
/// equal [`ripemd160_of`] on `data`.
#[verifier::external_body]
pub(crate) fn ripemd160(data: &[u8]) -> (r: [u8; 20])
    ensures
        r@ == ripemd160_of(data@),
{
    bitcoin::hashes::ripemd160::Hash::hash(data).to_byte_array()
}

/// Double SHA-256: `bitcoin::hashes::sha256d::Hash::hash`, which the crate computes as SHA-256
/// of the SHA-256 digest. Trusted to equal that composition.
#[verifier::external_body]
pub(crate) fn sha256d(data: &[u8]) -> (r: [u8; 32])
    ensures
        r@ == sha256_of(sha256_of(data@)),
{
    bitcoin::hashes::sha256d::Hash::hash(data).to_byte_array()
}

/// HASH160: `bitcoin::hashes::hash160::Hash::hash`, which the crate computes as RIPEMD-160 of
/// the SHA-256 digest. Trusted to equal that composition.
#[verifier::external_body]
pub(crate) fn hash160(data: &[u8]) -> (r: [u8; 20])
    ensures
        r@ == ripemd160_of(sha256_of(data@)),
{
    bitcoin::hashes::hash160::Hash::hash(data).to_byte_array()
}

/// The digest a tagged hash function computes.
pub open spec fn digest_of(f: HashFn, data: Seq<u8>) -> Seq<u8> {
    match f {
        HashFn::Sha256 => sha256_of(data),
        HashFn::Hash256 => sha256_of(sha256_of(data)),
        HashFn::Ripemd160 => ripemd160_of(data),
        HashFn::Hash160 => ripemd160_of(sha256_of(data)),
    }
}

/// Whether `preimage` hashes to `h` under the function `h` is tagged with.
pub fn hash_matches(h: &HashValue, preimage: &[u8]) -> (r: bool)
    ensures
        r == (digest_of(h@.func, preimage@) == h@.digest),
{
    match h {
        HashValue::Sha256(d) => {
            let x = sha256(preimage);
            crate::bytes::bytes_equal(x.as_slice(), d.as_slice())
        },
        HashValue::Hash256(d) => {
            let x = sha256d(preimage);
            crate::bytes::bytes_equal(x.as_slice(), d.as_slice())
        },
        HashValue::Ripemd160(d) => {
            let x = ripemd160(preimage);
            crate::bytes::bytes_equal(x.as_slice(), d.as_slice())
        },
        HashValue::Hash160(d) => {
            let x = hash160(preimage);
            crate::bytes::bytes_equal(x.as_slice(), d.as_slice())
        },
    }
}

/// The BIP-340 tagged hash `SHA256(SHA256(tag) || SHA256(tag) || msg)`.
pub open spec fn tagged_hash_of(tag: Seq<char>, msg: Seq<u8>) -> Seq<u8> {
    let t = sha256_of(encode_utf8(tag));
    sha256_of(t + t + msg)
}

/// The BIP-340 tagged hash `SHA256(SHA256(tag) || SHA256(tag) || msg)`.
pub fn tagged_hash(tag: &str, msg: &[u8]) -> (r: [u8; 32])
    ensures
        r@ == tagged_hash_of(tag@, msg@),
{
    let t = sha256(tag.as_bytes());
    let mut data = slice_to_vec(t.as_slice());
    let mut i: usize = 0;
    while i < 32
        invariant
            i <= 32,
            t@.len() == 32,
            data@ == t@ + t@.take(i as int),
        decreases 32 - i,
    {
        data.push(t[i]);
        i = i + 1;
        assert(data@ =~= t@ + t@.take(i as int));
    }
    assert(t@.take(32) =~= t@);
    let mut j: usize = 0;
    while j < msg.len()
        invariant
            j <= msg.len(),
            data@ == t@ + t@ + msg@.take(j as int),
        decreases msg.len() - j,
    {
        data.push(msg[j]);
        j = j + 1;
        assert(data@ =~= t@ + t@ + msg@.take(j as int));
    }
    assert(msg@.take(msg.len() as int) =~= msg@);
    sha256(data.as_slice())
}

} // verus!
