//! The canonical byte encoding of a witness.
//!
//! A witness encodes as its version, then its signatures as (key, signature) byte strings in key
//! order, its preimages as (hash, preimage) in hash order, and its attestation keys in key order.
//! Keys are written as their UTF-8 bytes, so the key order is the byte order of the keys.
use vstd::prelude::*;
use vstd::utf8::{decode_utf8, decode_utf8_encode_utf8, encode_utf8, valid_utf8};

use crate::ast::{HashV, HashValue};
use crate::bytes::{bytes_less, bytes_lt, lemma_bytes_lt_concat, lemma_bytes_lt_single, lemma_bytes_lt_transitive};
use crate::decode::{
    DecodeError, DecodeErrorV, Read, rd_bytes, rd_count, rd_end, rd_hash, rd_version, read_bytes,
    read_count, read_hash, read_u8, string_from_utf8,
};
use crate::encode::{bytes_field, count_be, put_bytes, put_count, put_hash, put_text, text_field};
use crate::maps::{SortKey, SortedMap, keys_sorted, lemma_keys_sorted_at};
use crate::witness::{Signature, Witness, WitnessV, hash_bytes, hash_tag};

verus! {

/// Signature entries: the key's bytes, then the signature's bytes.
pub open spec fn enc_signatures(e: Seq<(Seq<char>, Seq<u8>)>) -> Seq<u8>
    decreases e.len(),
{
    if e.len() == 0 {
        Seq::empty()
    } else {
        enc_signatures(e.drop_last()) + text_field(e.last().0) + bytes_field(e.last().1)
    }
}

/// Preimage entries: the hash, then the preimage's bytes.
pub open spec fn enc_preimages(e: Seq<(HashV, Seq<u8>)>) -> Seq<u8>
    decreases e.len(),
{
    if e.len() == 0 {
        Seq::empty()
    } else {
        enc_preimages(e.drop_last()) + hash_bytes(e.last().0) + bytes_field(e.last().1)
    }
}

/// Attestation entries: the oracle key's bytes.
pub open spec fn enc_attestations(e: Seq<(Seq<char>, ())>) -> Seq<u8>
    decreases e.len(),
{
    if e.len() == 0 {
        Seq::empty()
    } else {
        enc_attestations(e.drop_last()) + text_field(e.last().0)
    }
}

/// The canonical encoding of a witness.
pub open spec fn enc_witness(w: WitnessV) -> Seq<u8> {
    seq![1u8] + count_be(w.signatures.len()) + enc_signatures(w.signatures) + count_be(
        w.preimages.len(),
    ) + enc_preimages(w.preimages) + count_be(w.attestations.len()) + enc_attestations(
        w.attestations,
    )
}

/// The canonical byte encoding of a witness.
pub fn encode_witness(w: &Witness) -> (r: Vec<u8>)
    ensures
        r@ == enc_witness(w@),
{
    let mut out: Vec<u8> = vec![1u8];

    let sigs = w.signatures.entries();
    proof {
        w.signatures.lemma_view_entries();
    }
    put_count(&mut out, sigs.len());
    let ghost a = out@;
    let mut i: usize = 0;
    while i < sigs.len()
        invariant
            i <= sigs.len(),
            sigs@ == w.signatures.entries_spec(),
            w.signatures@.len() == sigs@.len(),
            forall|j: int|
                0 <= j < w.signatures@.len() ==> #[trigger] w.signatures@[j] == (
                    sigs@[j].0@,
                    sigs@[j].1@,
                ),
            out@ == a + enc_signatures(w.signatures@.take(i as int)),
        decreases sigs.len() - i,
    {
        put_text(&mut out, sigs[i].0.as_str());
        put_bytes(&mut out, sigs[i].1.0.as_slice());
        proof {
            assert(w.signatures@.take(i + 1).drop_last() =~= w.signatures@.take(i as int));
        }
        i = i + 1;
        assert(out@ =~= a + enc_signatures(w.signatures@.take(i as int)));
    }
    assert(w.signatures@.take(sigs.len() as int) =~= w.signatures@);

    let pre = w.preimages.entries();
    proof {
        w.preimages.lemma_view_entries();
    }
    put_count(&mut out, pre.len());
    let ghost b = out@;
    let mut k: usize = 0;
    while k < pre.len()
        invariant
            k <= pre.len(),
            pre@ == w.preimages.entries_spec(),
            w.preimages@.len() == pre@.len(),
            forall|j: int|
                0 <= j < w.preimages@.len() ==> #[trigger] w.preimages@[j] == (
                    pre@[j].0@,
                    pre@[j].1@,
                ),
            out@ == b + enc_preimages(w.preimages@.take(k as int)),
        decreases pre.len() - k,
    {
        put_hash(&mut out, &pre[k].0);
        put_bytes(&mut out, pre[k].1.as_slice());
        proof {
            assert(w.preimages@.take(k + 1).drop_last() =~= w.preimages@.take(k as int));
        }
        k = k + 1;
        assert(out@ =~= b + enc_preimages(w.preimages@.take(k as int)));
    }
    assert(w.preimages@.take(pre.len() as int) =~= w.preimages@);

    let att = w.attestations.entries();
    proof {
        w.attestations.lemma_view_entries();
    }
    put_count(&mut out, att.len());
    let ghost c = out@;
    let mut m: usize = 0;
    while m < att.len()
        invariant
            m <= att.len(),
            att@ == w.attestations.entries_spec(),
            w.attestations@.len() == att@.len(),
            forall|j: int|
                0 <= j < w.attestations@.len() ==> #[trigger] w.attestations@[j] == (
                    att@[j].0@,
                    att@[j].1@,
                ),
            out@ == c + enc_attestations(w.attestations@.take(m as int)),
        decreases att.len() - m,
    {
        put_text(&mut out, att[m].0.as_str());
        proof {
            assert(w.attestations@.take(m + 1).drop_last() =~= w.attestations@.take(m as int));
        }
        m = m + 1;
        assert(out@ =~= c + enc_attestations(w.attestations@.take(m as int)));
    }
    assert(w.attestations@.take(att.len() as int) =~= w.attestations@);
    assert(out@ =~= enc_witness(w@));
    out
}


// ---------------------------------------------------------------------------------------------
// Decoding
// ---------------------------------------------------------------------------------------------

/// The order of hash values: by hash function, then by digest.
pub open spec fn hash_lt(a: HashV, b: HashV) -> bool {
    hash_tag(a.func) < hash_tag(b.func) || (a.func == b.func && bytes_lt(a.digest, b.digest))
}

/// `n` signature entries, keys strictly increasing and valid UTF-8; `prev` is the key read
/// before them, if any.
pub open spec fn rd_signatures(s: Seq<u8>, p: int, n: nat, prev: Option<Seq<u8>>) -> Read<
    Seq<(Seq<char>, Seq<u8>)>,
>
    decreases n,
{
    if n == 0 {
        Ok((Seq::empty(), p))
    } else {
        match rd_bytes(s, p) {
            Err(e) => Err(e),
            Ok((kb, p1)) => match rd_bytes(s, p1) {
                Err(e) => Err(e),
                Ok((sig, p2)) => if prev matches Some(pb) && !bytes_lt(pb, kb) {
                    Err(DecodeErrorV::NonCanonicalOrder)
                } else if !valid_utf8(kb) {
                    Err(DecodeErrorV::BadKey)
                } else {
                    match rd_signatures(s, p2, (n - 1) as nat, Some(kb)) {
                        Err(e) => Err(e),
                        Ok((rest, q)) => Ok((seq![(decode_utf8(kb), sig)] + rest, q)),
                    }
                },
            },
        }
    }
}

/// `n` preimage entries, hashes strictly increasing; `prev` is the hash read before them, if
/// any.
pub open spec fn rd_preimages(s: Seq<u8>, p: int, n: nat, prev: Option<HashV>) -> Read<
    Seq<(HashV, Seq<u8>)>,
>
    decreases n,
{
    if n == 0 {
        Ok((Seq::empty(), p))
    } else {
        match rd_hash(s, p) {
            Err(e) => Err(e),
            Ok((h, p1)) => match rd_bytes(s, p1) {
                Err(e) => Err(e),
                Ok((pre, p2)) => if prev matches Some(ph) && !hash_lt(ph, h) {
                    Err(DecodeErrorV::NonCanonicalOrder)
                } else {
                    match rd_preimages(s, p2, (n - 1) as nat, Some(h)) {
                        Err(e) => Err(e),
                        Ok((rest, q)) => Ok((seq![(h, pre)] + rest, q)),
                    }
                },
            },
        }
    }
}

/// `n` attestation keys, strictly increasing and valid UTF-8; `prev` is the key read before
/// them, if any.
pub open spec fn rd_attestations(s: Seq<u8>, p: int, n: nat, prev: Option<Seq<u8>>) -> Read<
    Seq<(Seq<char>, ())>,
>
    decreases n,
{
    if n == 0 {
        Ok((Seq::empty(), p))
    } else {
        match rd_bytes(s, p) {
            Err(e) => Err(e),
            Ok((kb, p1)) => if prev matches Some(pb) && !bytes_lt(pb, kb) {
                Err(DecodeErrorV::NonCanonicalOrder)
            } else if !valid_utf8(kb) {
                Err(DecodeErrorV::BadKey)
            } else {
                match rd_attestations(s, p1, (n - 1) as nat, Some(kb)) {
                    Err(e) => Err(e),
                    Ok((rest, q)) => Ok((seq![(decode_utf8(kb), ())] + rest, q)),
                }
            },
        }
    }
}

/// The witness a byte string encodes.
pub open spec fn rd_witness(s: Seq<u8>) -> Result<WitnessV, DecodeErrorV> {
    match rd_version(s) {
        Err(e) => Err(e),
        Ok((_, p)) => match rd_count(s, p) {
            Err(e) => Err(e),
            Ok((n, p1)) => match rd_signatures(s, p1, n, None) {
                Err(e) => Err(e),
                Ok((signatures, p2)) => match rd_count(s, p2) {
                    Err(e) => Err(e),
                    Ok((m, p3)) => match rd_preimages(s, p3, m, None) {
                        Err(e) => Err(e),
                        Ok((preimages, p4)) => match rd_count(s, p4) {
                            Err(e) => Err(e),
                            Ok((a, p5)) => match rd_attestations(s, p5, a, None) {
                                Err(e) => Err(e),
                                Ok((attestations, p6)) => match rd_end(s, p6) {
                                    Err(e) => Err(e),
                                    Ok(()) => Ok(WitnessV { signatures, preimages, attestations }),
                                },
                            },
                        },
                    },
                },
            },
        },
    }
}

/// The hash order is the byte order of the hash values' encodings.
pub proof fn lemma_hash_bytes_order(a: HashV, b: HashV)
    ensures
        hash_lt(a, b) == bytes_lt(hash_bytes(a), hash_bytes(b)),
{
    let ta = hash_tag(a.func);
    let tb = hash_tag(b.func);
    lemma_bytes_lt_concat(seq![ta], seq![tb], a.digest, b.digest);
    lemma_bytes_lt_single(ta, tb);
    if seq![ta] == seq![tb] {
        assert(seq![ta][0] == seq![tb][0]);
    }
}

/// A sorted string-keyed map orders its keys by their UTF-8 bytes.
pub proof fn lemma_text_keys_sorted<A>(e: Seq<(Seq<char>, A)>)
    requires
        keys_sorted::<String, A>(e),
    ensures
        forall|i: int, j: int|
            0 <= i < j < e.len() ==> bytes_lt(
                #[trigger] encode_utf8(e[i].0),
                #[trigger] encode_utf8(e[j].0),
            ),
{
    assert forall|i: int, j: int| 0 <= i < j < e.len() implies bytes_lt(
        #[trigger] encode_utf8(e[i].0),
        #[trigger] encode_utf8(e[j].0),
    ) by {
        lemma_keys_sorted_at::<String, A>(e, i, j);
    }
}

/// A sorted hash-keyed map orders its keys by [`hash_lt`].
pub proof fn lemma_hash_keys_sorted(e: Seq<(HashV, Seq<u8>)>)
    requires
        keys_sorted::<HashValue, Seq<u8>>(e),
    ensures
        forall|i: int, j: int| 0 <= i < j < e.len() ==> hash_lt(#[trigger] e[i].0, #[trigger] e[j].0),
{
    assert forall|i: int, j: int| 0 <= i < j < e.len() implies hash_lt(#[trigger] e[i].0, #[trigger] e[j].0) by {
        lemma_keys_sorted_at::<HashValue, Seq<u8>>(e, i, j);
        lemma_hash_bytes_order(e[i].0, e[j].0);
    }
}

/// `n` signature entries.
fn dec_signatures(buf: &[u8], pos: usize, n: usize) -> (r: Result<
    (SortedMap<String, Signature>, usize),
    DecodeError,
>)
    ensures
        match r {
            Ok((m, q)) => rd_signatures(buf@, pos as int, n as nat, None) == Ok::<
                (Seq<(Seq<char>, Seq<u8>)>, int),
                DecodeErrorV,
            >((m@, q as int)),
            Err(e) => rd_signatures(buf@, pos as int, n as nat, None) == Err::<
                (Seq<(Seq<char>, Seq<u8>)>, int),
                DecodeErrorV,
            >(e@),
        },
{
    let ghost s = buf@;
    let mut out: SortedMap<String, Signature> = SortedMap::new();
    let mut prev: Option<Vec<u8>> = None;
    let mut p: usize = pos;
    let mut i: usize = 0;
    assert(out@ + Seq::<(Seq<char>, Seq<u8>)>::empty() =~= Seq::<(Seq<char>, Seq<u8>)>::empty());
    while i < n
        invariant
            i <= n,
            s == buf@,
            out@.len() == i,
            i == 0 <==> prev is None,
            prev matches Some(pb) ==> pb@ == encode_utf8(out@.last().0),
            keys_sorted::<String, Seq<u8>>(out@),
            rd_signatures(s, pos as int, n as nat, None) == match rd_signatures(
                s,
                p as int,
                (n - i) as nat,
                match &prev {
                    Some(pb) => Some(pb@),
                    None => None,
                },
            ) {
                Ok((rest, q)) => Ok((out@ + rest, q)),
                Err(e) => Err(e),
            },
        decreases n - i,
    {
        let (kb, p1) = match read_bytes(buf, p) {
            Err(e) => return Err(e),
            Ok(x) => x,
        };
        let (sig, p2) = match read_bytes(buf, p1) {
            Err(e) => return Err(e),
            Ok(x) => x,
        };
        match &prev {
            Some(pb) => {
                if !bytes_less(pb.as_slice(), kb.as_slice()) {
                    return Err(DecodeError::NonCanonicalOrder);
                }
            },
            None => {},
        }
        let ghost kbv = kb@;
        let new_prev = crate::bytes::slice_to_vec(kb.as_slice());
        let key = match string_from_utf8(kb) {
            None => return Err(DecodeError::BadKey),
            Some(k) => k,
        };
        let ghost xv = (key@, sig@);
        let ghost before = out@;
        proof {
            decode_utf8_encode_utf8(kbv);
            assert forall|j: int| 0 <= j < before.len() implies bytes_lt(
                #[trigger] <String as SortKey>::sort_bytes(before[j].0),
                <String as SortKey>::sort_bytes(key@),
            ) by {
                let last = before.len() - 1;
                if j < last {
                    assert(bytes_lt(
                        <String as SortKey>::sort_bytes(before[j].0),
                        <String as SortKey>::sort_bytes(before[last].0),
                    ));
                    lemma_bytes_lt_transitive(
                        encode_utf8(before[j].0),
                        encode_utf8(before[last].0),
                        kbv,
                    );
                }
            }
        }
        out.push_last(key, Signature(sig));
        proof {
            assert forall|a: int, b: int| 0 <= a < b < out@.len() implies bytes_lt(
                #[trigger] <String as SortKey>::sort_bytes(out@[a].0),
                #[trigger] <String as SortKey>::sort_bytes(out@[b].0),
            ) by {
                if b < out@.len() - 1 {
                    assert(out@[a] == before[a]);
                    assert(out@[b] == before[b]);
                    lemma_keys_sorted_at::<String, _>(before, a, b);
                }
            }
            assert forall|rest: Seq<(Seq<char>, Seq<u8>)>| #![auto]
                before + (seq![xv] + rest) == out@ + rest by {
                assert(before + (seq![xv] + rest) =~= out@ + rest);
            }
        }
        prev = Some(new_prev);
        p = p2;
        i = i + 1;
    }
    assert(out@ + Seq::<(Seq<char>, Seq<u8>)>::empty() =~= out@);
    Ok((out, p))
}

/// `n` preimage entries.
fn dec_preimages(buf: &[u8], pos: usize, n: usize) -> (r: Result<
    (SortedMap<HashValue, Vec<u8>>, usize),
    DecodeError,
>)
    ensures
        match r {
            Ok((m, q)) => rd_preimages(buf@, pos as int, n as nat, None) == Ok::<
                (Seq<(HashV, Seq<u8>)>, int),
                DecodeErrorV,
            >((m@, q as int)),
            Err(e) => rd_preimages(buf@, pos as int, n as nat, None) == Err::<
                (Seq<(HashV, Seq<u8>)>, int),
                DecodeErrorV,
            >(e@),
        },
{
    let ghost s = buf@;
    let mut out: SortedMap<HashValue, Vec<u8>> = SortedMap::new();
    let mut prev: Option<Vec<u8>> = None;
    let mut p: usize = pos;
    let mut i: usize = 0;
    assert(out@ + Seq::<(HashV, Seq<u8>)>::empty() =~= Seq::<(HashV, Seq<u8>)>::empty());
    while i < n
        invariant
            i <= n,
            s == buf@,
            out@.len() == i,
            i == 0 <==> prev is None,
            prev matches Some(pb) ==> pb@ == hash_bytes(out@.last().0),
            keys_sorted::<HashValue, Seq<u8>>(out@),
            rd_preimages(s, pos as int, n as nat, None) == match rd_preimages(
                s,
                p as int,
                (n - i) as nat,
                if i == 0 {
                    None
                } else {
                    Some(out@.last().0)
                },
            ) {
                Ok((rest, q)) => Ok((out@ + rest, q)),
                Err(e) => Err(e),
            },
        decreases n - i,
    {
        let ghost prev_spec = if i == 0 {
            None
        } else {
            Some(out@.last().0)
        };
        let (h, p1) = match read_hash(buf, p) {
            Err(e) => return Err(e),
            Ok(x) => x,
        };
        let (pre, p2) = match read_bytes(buf, p1) {
            Err(e) => return Err(e),
            Ok(x) => x,
        };
        let hb = h.sort_bytes_of();
        match &prev {
            Some(pb) => {
                proof {
                    lemma_hash_bytes_order(out@.last().0, h@);
                }
                if !bytes_less(pb.as_slice(), hb.as_slice()) {
                    return Err(DecodeError::NonCanonicalOrder);
                }
            },
            None => {},
        }
        let ghost xv = (h@, pre@);
        let ghost before = out@;
        proof {
            if i > 0 {
                lemma_hash_bytes_order(out@.last().0, h@);
            }
            assert forall|j: int| 0 <= j < before.len() implies bytes_lt(
                #[trigger] <HashValue as SortKey>::sort_bytes(before[j].0),
                <HashValue as SortKey>::sort_bytes(h@),
            ) by {
                let last = before.len() - 1;
                if j < last {
                    assert(bytes_lt(
                        <HashValue as SortKey>::sort_bytes(before[j].0),
                        <HashValue as SortKey>::sort_bytes(before[last].0),
                    ));
                    lemma_bytes_lt_transitive(
                        hash_bytes(before[j].0),
                        hash_bytes(before[last].0),
                        hash_bytes(h@),
                    );
                }
            }
            assert(rd_preimages(s, p as int, (n - i) as nat, prev_spec) == match rd_preimages(
                s,
                p2 as int,
                (n - i - 1) as nat,
                Some(h@),
            ) {
                Ok((rest, q)) => Ok((seq![xv] + rest, q)),
                Err(e) => Err(e),
            });
        }
        out.push_last(h, pre);
        proof {
            assert forall|a: int, b: int| 0 <= a < b < out@.len() implies bytes_lt(
                #[trigger] <HashValue as SortKey>::sort_bytes(out@[a].0),
                #[trigger] <HashValue as SortKey>::sort_bytes(out@[b].0),
            ) by {
                if b < out@.len() - 1 {
                    assert(out@[a] == before[a]);
                    assert(out@[b] == before[b]);
                    lemma_keys_sorted_at::<HashValue, _>(before, a, b);
                }
            }
            assert forall|rest: Seq<(HashV, Seq<u8>)>| #![auto]
                before + (seq![xv] + rest) == out@ + rest by {
                assert(before + (seq![xv] + rest) =~= out@ + rest);
            }
        }
        prev = Some(hb);
        p = p2;
        i = i + 1;
    }
    assert(out@ + Seq::<(HashV, Seq<u8>)>::empty() =~= out@);
    Ok((out, p))
}

/// `n` attestation keys.
fn dec_attestations(buf: &[u8], pos: usize, n: usize) -> (r: Result<
    (SortedMap<String, ()>, usize),
    DecodeError,
>)
    ensures
        match r {
            Ok((m, q)) => rd_attestations(buf@, pos as int, n as nat, None) == Ok::<
                (Seq<(Seq<char>, ())>, int),
                DecodeErrorV,
            >((m@, q as int)),
            Err(e) => rd_attestations(buf@, pos as int, n as nat, None) == Err::<
                (Seq<(Seq<char>, ())>, int),
                DecodeErrorV,
            >(e@),
        },
{
    let ghost s = buf@;
    let mut out: SortedMap<String, ()> = SortedMap::new();
    let mut prev: Option<Vec<u8>> = None;
    let mut p: usize = pos;
    let mut i: usize = 0;
    assert(out@ + Seq::<(Seq<char>, ())>::empty() =~= Seq::<(Seq<char>, ())>::empty());
    while i < n
        invariant
            i <= n,
            s == buf@,
            out@.len() == i,
            i == 0 <==> prev is None,
            prev matches Some(pb) ==> pb@ == encode_utf8(out@.last().0),
            keys_sorted::<String, ()>(out@),
            rd_attestations(s, pos as int, n as nat, None) == match rd_attestations(
                s,
                p as int,
                (n - i) as nat,
                match &prev {
                    Some(pb) => Some(pb@),
                    None => None,
                },
            ) {
                Ok((rest, q)) => Ok((out@ + rest, q)),
                Err(e) => Err(e),
            },
        decreases n - i,
    {
        let (kb, p1) = match read_bytes(buf, p) {
            Err(e) => return Err(e),
            Ok(x) => x,
        };
        match &prev {
            Some(pb) => {
                if !bytes_less(pb.as_slice(), kb.as_slice()) {
                    return Err(DecodeError::NonCanonicalOrder);
                }
            },
            None => {},
        }
        let ghost kbv = kb@;
        let new_prev = crate::bytes::slice_to_vec(kb.as_slice());
        let key = match string_from_utf8(kb) {
            None => return Err(DecodeError::BadKey),
            Some(k) => k,
        };
        let ghost xv = (key@, ());
        let ghost before = out@;
        proof {
            decode_utf8_encode_utf8(kbv);
            assert forall|j: int| 0 <= j < before.len() implies bytes_lt(
                #[trigger] <String as SortKey>::sort_bytes(before[j].0),
                <String as SortKey>::sort_bytes(key@),
            ) by {
                let last = before.len() - 1;
                if j < last {
                    assert(bytes_lt(
                        <String as SortKey>::sort_bytes(before[j].0),
                        <String as SortKey>::sort_bytes(before[last].0),
                    ));
                    lemma_bytes_lt_transitive(
                        encode_utf8(before[j].0),
                        encode_utf8(before[last].0),
                        kbv,
                    );
                }
            }
        }
        out.push_last(key, ());
        proof {
            assert forall|a: int, b: int| 0 <= a < b < out@.len() implies bytes_lt(
                #[trigger] <String as SortKey>::sort_bytes(out@[a].0),
                #[trigger] <String as SortKey>::sort_bytes(out@[b].0),
            ) by {
                assert(out@ == before.push(xv));
                assert(out@[a] == before[a]);
                if b < out@.len() - 1 {
                    assert(out@[b] == before[b]);
                    assert(bytes_lt(
                        <String as SortKey>::sort_bytes(before[a].0),
                        <String as SortKey>::sort_bytes(before[b].0),
                    ));
                } else {
                    assert(out@[b].0 == key@);
                    assert(bytes_lt(
                        <String as SortKey>::sort_bytes(before[a].0),
                        <String as SortKey>::sort_bytes(key@),
                    ));
                }
            }
            assert forall|rest: Seq<(Seq<char>, ())>| #![auto]
                before + (seq![xv] + rest) == out@ + rest by {
                assert(before + (seq![xv] + rest) =~= out@ + rest);
            }
        }
        prev = Some(new_prev);
        p = p1;
        i = i + 1;
    }
    assert(out@ + Seq::<(Seq<char>, ())>::empty() =~= out@);
    Ok((out, p))
}

/// Decode a witness from its canonical encoding, rejecting unsorted or repeated entries and
/// keys that are not valid UTF-8.
pub fn decode_witness(buf: &[u8]) -> (r: Result<Witness, DecodeError>)
    ensures
        match r {
            Ok(w) => rd_witness(buf@) == Ok::<WitnessV, DecodeErrorV>(w@),
            Err(e) => rd_witness(buf@) == Err::<WitnessV, DecodeErrorV>(e@),
        },
{
    let (v, p) = match read_u8(buf, 0) {
        Err(e) => return Err(e),
        Ok(x) => x,
    };
    if v != 1 {
        return Err(DecodeError::BadVersion(v));
    }
    let (n, p1) = match read_count(buf, p) {
        Err(e) => return Err(e),
        Ok(x) => x,
    };
    let (signatures, p2) = match dec_signatures(buf, p1, n) {
        Err(e) => return Err(e),
        Ok(x) => x,
    };
    let (m, p3) = match read_count(buf, p2) {
        Err(e) => return Err(e),
        Ok(x) => x,
    };
    let (preimages, p4) = match dec_preimages(buf, p3, m) {
        Err(e) => return Err(e),
        Ok(x) => x,
    };
    let (a, p5) = match read_count(buf, p4) {
        Err(e) => return Err(e),
        Ok(x) => x,
    };
    let (attestations, p6) = match dec_attestations(buf, p5, a) {
        Err(e) => return Err(e),
        Ok(x) => x,
    };
    if p6 != buf.len() {
        return Err(DecodeError::TrailingBytes);
    }
    Ok(Witness { signatures, preimages, attestations })
}

} // verus!
