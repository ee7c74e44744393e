//! Signatures, the verification host, and the witness: a keyed bundle of the data supplied to
//! authorize an operation.
//!
//! Proof obligations are discharged by lookup, not by positional consumption, and the bundle
//! carries no branch-selector data.
use vstd::prelude::*;

use crate::ast::{HashFn, HashV, HashValue};
use crate::maps::{NameMap, SortKey, SortedMap, lookup};

verus! {

/// An opaque signature, as supplied in the witness.
#[derive(Clone, PartialEq, Eq, Debug)]
pub struct Signature(pub Vec<u8>);

impl View for Signature {
    type V = Seq<u8>;

    open spec fn view(&self) -> Seq<u8> {
        self.0@
    }
}

/// The verification host: answers whether a signature is valid and whether a key matches a
/// hash.
///
/// A real deployment plugs in secp256k1 over the operation's signing message; tests may use a
/// mock scheme. A signature binds to the signing message, so a signature for one operation does
/// not authorize another. `key_hashes_to` supports `pk_h`, which commits to a key by its hash
/// and requires the witness to reveal the key.
///
/// An implementation states in `accepts` and `hashes_to` what it answers, as functions of the
/// arguments, and its methods answer by them.
pub trait Verifier {
    /// Whether the host accepts `sig` as a signature by `key` over `message`.
    spec fn accepts(&self, key: Seq<char>, sig: Seq<u8>, message: Seq<u8>) -> bool;

    /// Whether `key` hashes to `keyhash`, as the host defines it.
    spec fn hashes_to(&self, key: Seq<char>, keyhash: HashV) -> bool;

    /// Whether `sig` is a valid signature by `key` over `message`.
    fn verify_signature(&self, key: &str, sig: &Signature, message: &[u8]) -> (r: bool)
        ensures
            r == self.accepts(key@, sig@, message@),
    ;

    /// Whether `key` hashes to `keyhash` (used by `pk_h`).
    fn key_hashes_to(&self, key: &str, keyhash: &HashValue) -> (r: bool)
        ensures
            r == self.hashes_to(key@, keyhash@),
    ;
}

/// The tag byte of a hash function, as used in the canonical encodings.
pub open spec fn hash_tag(f: HashFn) -> u8 {
    match f {
        HashFn::Sha256 => 0,
        HashFn::Hash256 => 1,
        HashFn::Ripemd160 => 2,
        HashFn::Hash160 => 3,
    }
}

/// A hash value's tag byte followed by its digest.
pub open spec fn hash_bytes(h: HashV) -> Seq<u8> {
    seq![hash_tag(h.func)] + h.digest
}

impl SortKey for HashValue {
    open spec fn sort_bytes(k: HashV) -> Seq<u8> {
        hash_bytes(k)
    }

    proof fn lemma_sort_bytes_injective(a: HashV, b: HashV) {
        assert(hash_bytes(a)[0] == hash_bytes(b)[0]);
        assert(a.digest =~= hash_bytes(a).skip(1));
        assert(b.digest =~= hash_bytes(b).skip(1));
    }

    fn sort_bytes_of(&self) -> (r: Vec<u8>) {
        let (tag, d): (u8, &[u8]) = match self {
            HashValue::Sha256(d) => (0, d.as_slice()),
            HashValue::Hash256(d) => (1, d.as_slice()),
            HashValue::Ripemd160(d) => (2, d.as_slice()),
            HashValue::Hash160(d) => (3, d.as_slice()),
        };
        let mut out = vec![tag];
        let mut i: usize = 0;
        while i < d.len()
            invariant
                i <= d.len(),
                out@ == seq![tag] + d@.take(i as int),
            decreases d.len() - i,
        {
            out.push(d[i]);
            i = i + 1;
            assert(out@ =~= seq![tag] + d@.take(i as int));
        }
        assert(d@.take(d.len() as int) =~= d@);
        out
    }
}

/// The authorizing witness for an operation.
#[derive(Debug, PartialEq, Eq)]
pub struct Witness {
    /// Signatures, keyed by the signing key.
    pub signatures: NameMap<Signature>,
    /// Hash preimages, keyed by the hash they open.
    pub preimages: SortedMap<HashValue, Vec<u8>>,
    /// Oracle keys that supplied an attestation.
    pub attestations: NameMap<()>,
}

/// The view of a [`Witness`].
pub struct WitnessV {
    pub signatures: Seq<(Seq<char>, Seq<u8>)>,
    pub preimages: Seq<(HashV, Seq<u8>)>,
    pub attestations: Seq<(Seq<char>, ())>,
}

impl View for Witness {
    type V = WitnessV;

    open spec fn view(&self) -> WitnessV {
        WitnessV {
            signatures: self.signatures@,
            preimages: self.preimages@,
            attestations: self.attestations@,
        }
    }
}

impl Witness {
    /// An empty witness.
    pub fn empty() -> (r: Self)
        ensures
            r@.signatures.len() == 0,
            r@.preimages.len() == 0,
            r@.attestations.len() == 0,
    {
        Witness { signatures: SortedMap::new(), preimages: SortedMap::new(), attestations: SortedMap::new() }
    }

    /// This witness with a signature by `key` added (replacing an earlier one by `key`).
    pub fn with_signature(self, key: String, sig: Signature) -> (r: Self)
        ensures
            forall|k: Seq<char>| #[trigger] lookup(r@.signatures, k) == if k == key@ {
                Some(sig@)
            } else {
                lookup(self@.signatures, k)
            },
            r@.preimages == self@.preimages,
            r@.attestations == self@.attestations,
    {
        let mut w = self;
        w.signatures.insert(key, sig);
        w
    }

    /// This witness with a hash preimage added (replacing an earlier one for `hash`).
    pub fn with_preimage(self, hash: HashValue, preimage: Vec<u8>) -> (r: Self)
        ensures
            forall|h: HashV| #[trigger] lookup(r@.preimages, h) == if h == hash@ {
                Some(preimage@)
            } else {
                lookup(self@.preimages, h)
            },
            r@.signatures == self@.signatures,
            r@.attestations == self@.attestations,
    {
        let mut w = self;
        w.preimages.insert(hash, preimage);
        w
    }

    /// This witness with an attestation by the oracle `key` added.
    pub fn with_attestation(self, key: String) -> (r: Self)
        ensures
            forall|k: Seq<char>| #[trigger] lookup(r@.attestations, k) == if k == key@ {
                Some(())
            } else {
                lookup(self@.attestations, k)
            },
            r@.signatures == self@.signatures,
            r@.preimages == self@.preimages,
    {
        let mut w = self;
        w.attestations.insert(key, ());
        w
    }

    /// Whether `key` has supplied a signature.
    pub fn has_signature(&self, key: &str) -> (r: bool)
        ensures
            r == lookup(self@.signatures, key@) is Some,
    {
        self.signatures.contains_key(key)
    }
}

} // verus!
