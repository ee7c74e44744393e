//! Canonical rejection: every byte string a decoder accepts is the canonical encoding of what
//! it decodes to. A decoder that also took a redundant prefix, an unsorted map or trailing bytes
//! to the same value would break these laws.
use vstd::prelude::*;
use vstd::utf8::{decode_utf8, decode_utf8_encode_utf8, encode_utf8, valid_utf8};

use crate::ast::{BTermV, HashFn, HashV, ObligationV, Schema, ValueV, VTermV};
use crate::codec_laws::{
    lemma_enc_arms_cons, lemma_enc_named_cons, lemma_enc_terms_cons, lemma_enc_values_cons,
    lemma_enc_vterms_cons,
};
use crate::decode::{
    canonical_name, comparison_of_id, rd_arms, rd_bool, rd_descriptor, rd_named, rd_n, rd_obligation,
    rd_operation, rd_schema, rd_term, rd_terms, rd_text, rd_u16, rd_u64, rd_value, rd_values,
    rd_vterm, rd_vterms, room, state_pred_of_id, value_fn_of_id,
};
use crate::encode::{
    comparison_id, enc_arms, enc_descriptor, enc_named, enc_obligation, enc_schema, enc_term,
    enc_terms, enc_value, enc_values, enc_vterm, enc_vterms, op_preimage, state_pred_id, u16_be,
    u64_be, value_fn_id,
};
use crate::fraud::{enc_fraud_proof, rd_fraud_proof};
use crate::limits::MAX_DEPTH;
use crate::bytes::{be_bytes, be_value, lemma_be_bytes_of_value};
use crate::decode::{
    DecodeErrorV, rd_bytes, rd_count, rd_end, rd_hash, rd_indices, rd_int, rd_u32, rd_u8, rd_version,
};
use crate::encode::{bytes_field, count_be, enc_indices, int_be, text_field, u32_be};
use crate::snapshot::{SnapshotV, rw_field_id};
use crate::snapshot_codec::{
    enc_cumulative, enc_rolling, enc_snapshot, lemma_rw_field_name, rd_cumulative, rd_rolling,
    rd_snapshot, registered_rolling, rw_field_name,
};
use crate::witness::{WitnessV, hash_bytes, hash_tag};
use crate::witness_codec::{
    enc_attestations, enc_preimages, enc_signatures, enc_witness, rd_attestations, rd_preimages,
    rd_signatures, rd_witness,
};

verus! {

proof fn lemma_pow4()
    ensures
        vstd::arithmetic::power::pow(256, 4) == 0x1_0000_0000,
{
    reveal_with_fuel(vstd::arithmetic::power::pow, 5);
}

/// A `u32` that reads is the big-endian bytes it was read from.
pub proof fn lemma_u32_read_back(s: Seq<u8>, p: int)
    requires
        rd_u32(s, p) is Ok,
    ensures
        0 <= p,
        rd_u32(s, p)->Ok_0.1 == p + 4 <= s.len(),
        s.subrange(p, p + 4) == u32_be(rd_u32(s, p)->Ok_0.0),
{
    lemma_pow4();
    let b = s.subrange(p, p + 4);
    lemma_be_bytes_of_value(b);
}

/// A count that reads is the bytes it was read from.
pub proof fn lemma_count_read_back(s: Seq<u8>, p: int)
    requires
        rd_count(s, p) is Ok,
    ensures
        0 <= p,
        rd_count(s, p)->Ok_0.1 == p + 4 <= s.len(),
        s.subrange(p, p + 4) == count_be(rd_count(s, p)->Ok_0.0),
{
    lemma_u32_read_back(s, p);
}

/// A length-prefixed byte string that reads is the bytes it was read from.
pub proof fn lemma_bytes_read_back(s: Seq<u8>, p: int)
    requires
        rd_bytes(s, p) is Ok,
    ensures
        0 <= p,
        rd_bytes(s, p)->Ok_0.1 == p + 4 + rd_bytes(s, p)->Ok_0.0.len() <= s.len(),
        s.subrange(p, rd_bytes(s, p)->Ok_0.1) == bytes_field(rd_bytes(s, p)->Ok_0.0),
{
    lemma_u32_read_back(s, p);
    let (b, q) = rd_bytes(s, p)->Ok_0;
    assert(s.subrange(p, q) =~= s.subrange(p, p + 4) + b);
}

/// Valid UTF-8 bytes are the encoding of the text they decode to.
proof fn lemma_text_of_bytes(b: Seq<u8>)
    requires
        valid_utf8(b),
    ensures
        text_field(decode_utf8(b)) == bytes_field(b),
{
    decode_utf8_encode_utf8(b);
}

/// A hash that reads is the tag and digest it was read from.
pub proof fn lemma_hash_read_back(s: Seq<u8>, p: int)
    requires
        rd_hash(s, p) is Ok,
    ensures
        0 <= p,
        rd_hash(s, p)->Ok_0.1 == p + hash_bytes(rd_hash(s, p)->Ok_0.0).len() <= s.len(),
        s.subrange(p, rd_hash(s, p)->Ok_0.1) == hash_bytes(rd_hash(s, p)->Ok_0.0),
{
    let (h, q) = rd_hash(s, p)->Ok_0;
    assert(s.subrange(p, q) =~= seq![s[p]] + s.subrange(p + 1, q));
}

proof fn lemma_enc_signatures_cons(e: Seq<(Seq<char>, Seq<u8>)>)
    requires
        e.len() > 0,
    ensures
        enc_signatures(e) == text_field(e[0].0) + bytes_field(e[0].1) + enc_signatures(e.drop_first()),
    decreases e.len(),
{
    if e.len() == 1 {
        assert(e.drop_last() =~= Seq::<(Seq<char>, Seq<u8>)>::empty());
        assert(e.drop_first() =~= Seq::<(Seq<char>, Seq<u8>)>::empty());
        assert(enc_signatures(e) =~= text_field(e[0].0) + bytes_field(e[0].1) + enc_signatures(e.drop_first()));
    } else {
        lemma_enc_signatures_cons(e.drop_last());
        assert(e.drop_last().drop_first() =~= e.drop_first().drop_last());
        assert(e.drop_first().last() == e.last());
        assert(enc_signatures(e) =~= text_field(e[0].0) + bytes_field(e[0].1) + enc_signatures(e.drop_first()));
    }
}

proof fn lemma_enc_preimages_cons(e: Seq<(HashV, Seq<u8>)>)
    requires
        e.len() > 0,
    ensures
        enc_preimages(e) == hash_bytes(e[0].0) + bytes_field(e[0].1) + enc_preimages(e.drop_first()),
    decreases e.len(),
{
    if e.len() == 1 {
        assert(e.drop_last() =~= Seq::<(HashV, Seq<u8>)>::empty());
        assert(e.drop_first() =~= Seq::<(HashV, Seq<u8>)>::empty());
        assert(enc_preimages(e) =~= hash_bytes(e[0].0) + bytes_field(e[0].1) + enc_preimages(e.drop_first()));
    } else {
        lemma_enc_preimages_cons(e.drop_last());
        assert(e.drop_last().drop_first() =~= e.drop_first().drop_last());
        assert(e.drop_first().last() == e.last());
        assert(enc_preimages(e) =~= hash_bytes(e[0].0) + bytes_field(e[0].1) + enc_preimages(e.drop_first()));
    }
}

proof fn lemma_enc_attestations_cons(e: Seq<(Seq<char>, ())>)
    requires
        e.len() > 0,
    ensures
        enc_attestations(e) == text_field(e[0].0) + enc_attestations(e.drop_first()),
    decreases e.len(),
{
    if e.len() == 1 {
        assert(e.drop_last() =~= Seq::<(Seq<char>, ())>::empty());
        assert(e.drop_first() =~= Seq::<(Seq<char>, ())>::empty());
        assert(enc_attestations(e) =~= text_field(e[0].0) + enc_attestations(e.drop_first()));
    } else {
        lemma_enc_attestations_cons(e.drop_last());
        assert(e.drop_last().drop_first() =~= e.drop_first().drop_last());
        assert(e.drop_first().last() == e.last());
        assert(enc_attestations(e) =~= text_field(e[0].0) + enc_attestations(e.drop_first()));
    }
}

proof fn lemma_signatures_read_back(s: Seq<u8>, p: int, n: nat, prev: Option<Seq<u8>>)
    requires
        0 <= p <= s.len(),
        rd_signatures(s, p, n, prev) is Ok,
    ensures
        rd_signatures(s, p, n, prev)->Ok_0.0.len() == n,
        p <= rd_signatures(s, p, n, prev)->Ok_0.1 <= s.len(),
        s.subrange(p, rd_signatures(s, p, n, prev)->Ok_0.1) == enc_signatures(
            rd_signatures(s, p, n, prev)->Ok_0.0,
        ),
    decreases n,
{
    let (e, q) = rd_signatures(s, p, n, prev)->Ok_0;
    if n == 0 {
        assert(s.subrange(p, q) =~= enc_signatures(e));
    } else {
        lemma_bytes_read_back(s, p);
        let (kb, p1) = rd_bytes(s, p)->Ok_0;
        lemma_bytes_read_back(s, p1);
        let (sig, p2) = rd_bytes(s, p1)->Ok_0;
        lemma_signatures_read_back(s, p2, (n - 1) as nat, Some(kb));
        let (rest, q2) = rd_signatures(s, p2, (n - 1) as nat, Some(kb))->Ok_0;
        lemma_text_of_bytes(kb);
        lemma_enc_signatures_cons(e);
        assert(e.drop_first() =~= rest);
        assert(s.subrange(p, q) =~= s.subrange(p, p1) + s.subrange(p1, p2) + s.subrange(p2, q));
    }
}

proof fn lemma_preimages_read_back(s: Seq<u8>, p: int, n: nat, prev: Option<HashV>)
    requires
        0 <= p <= s.len(),
        rd_preimages(s, p, n, prev) is Ok,
    ensures
        rd_preimages(s, p, n, prev)->Ok_0.0.len() == n,
        p <= rd_preimages(s, p, n, prev)->Ok_0.1 <= s.len(),
        s.subrange(p, rd_preimages(s, p, n, prev)->Ok_0.1) == enc_preimages(
            rd_preimages(s, p, n, prev)->Ok_0.0,
        ),
    decreases n,
{
    let (e, q) = rd_preimages(s, p, n, prev)->Ok_0;
    if n == 0 {
        assert(s.subrange(p, q) =~= enc_preimages(e));
    } else {
        lemma_hash_read_back(s, p);
        let (h, p1) = rd_hash(s, p)->Ok_0;
        lemma_bytes_read_back(s, p1);
        let (pre, p2) = rd_bytes(s, p1)->Ok_0;
        lemma_preimages_read_back(s, p2, (n - 1) as nat, Some(h));
        let (rest, q2) = rd_preimages(s, p2, (n - 1) as nat, Some(h))->Ok_0;
        lemma_enc_preimages_cons(e);
        assert(e.drop_first() =~= rest);
        assert(s.subrange(p, q) =~= s.subrange(p, p1) + s.subrange(p1, p2) + s.subrange(p2, q));
    }
}

proof fn lemma_attestations_read_back(s: Seq<u8>, p: int, n: nat, prev: Option<Seq<u8>>)
    requires
        0 <= p <= s.len(),
        rd_attestations(s, p, n, prev) is Ok,
    ensures
        rd_attestations(s, p, n, prev)->Ok_0.0.len() == n,
        p <= rd_attestations(s, p, n, prev)->Ok_0.1 <= s.len(),
        s.subrange(p, rd_attestations(s, p, n, prev)->Ok_0.1) == enc_attestations(
            rd_attestations(s, p, n, prev)->Ok_0.0,
        ),
    decreases n,
{
    let (e, q) = rd_attestations(s, p, n, prev)->Ok_0;
    if n == 0 {
        assert(s.subrange(p, q) =~= enc_attestations(e));
    } else {
        lemma_bytes_read_back(s, p);
        let (kb, p1) = rd_bytes(s, p)->Ok_0;
        lemma_attestations_read_back(s, p1, (n - 1) as nat, Some(kb));
        let (rest, q2) = rd_attestations(s, p1, (n - 1) as nat, Some(kb))->Ok_0;
        lemma_text_of_bytes(kb);
        lemma_enc_attestations_cons(e);
        assert(e.drop_first() =~= rest);
        assert(s.subrange(p, q) =~= s.subrange(p, p1) + s.subrange(p1, q));
    }
}

/// Canonical rejection of witnesses: a byte string the witness decoder accepts is the canonical
/// encoding of the witness it decodes to.
#[verifier::spinoff_prover]
pub proof fn lemma_witness_canonical(s: Seq<u8>)
    requires
        rd_witness(s) is Ok,
    ensures
        enc_witness(rd_witness(s)->Ok_0) == s,
{
    let w = rd_witness(s)->Ok_0;
    let p = 1int;
    lemma_count_read_back(s, p);
    let (n, p1) = rd_count(s, p)->Ok_0;
    lemma_signatures_read_back(s, p1, n, None);
    let (sigs, p2) = rd_signatures(s, p1, n, None)->Ok_0;
    lemma_count_read_back(s, p2);
    let (m, p3) = rd_count(s, p2)->Ok_0;
    lemma_preimages_read_back(s, p3, m, None);
    let (pres, p4) = rd_preimages(s, p3, m, None)->Ok_0;
    lemma_count_read_back(s, p4);
    let (a, p5) = rd_count(s, p4)->Ok_0;
    lemma_attestations_read_back(s, p5, a, None);
    let (atts, p6) = rd_attestations(s, p5, a, None)->Ok_0;
    assert(s[0] == 1u8);
    assert(s =~= seq![s[0]] + s.subrange(1, p1) + s.subrange(p1, p2) + s.subrange(p2, p3) + s.subrange(
        p3,
        p4,
    ) + s.subrange(p4, p5) + s.subrange(p5, p6));
}

proof fn lemma_pow16()
    ensures
        vstd::arithmetic::power::pow(256, 16) == 0x1_0000_0000_0000_0000_0000_0000_0000_0000,
{
    reveal_with_fuel(vstd::arithmetic::power::pow, 17);
}

/// A 128-bit integer that reads is the big-endian bytes it was read from.
pub proof fn lemma_int_read_back(s: Seq<u8>, p: int)
    requires
        rd_int(s, p) is Ok,
    ensures
        0 <= p,
        rd_int(s, p)->Ok_0.1 == p + 16 <= s.len(),
        s.subrange(p, p + 16) == int_be(rd_int(s, p)->Ok_0.0),
{
    lemma_pow16();
    let b = s.subrange(p, p + 16);
    lemma_be_bytes_of_value(b);
    let u = be_value(b) as u128;
    assert(((u as i128) as u128) == u) by (bit_vector);
}

/// The indices of a path that read are the bytes they were read from.
proof fn lemma_indices_read_back(s: Seq<u8>, p: int, n: nat)
    requires
        0 <= p <= s.len(),
        rd_indices(s, p, n) is Ok,
    ensures
        rd_indices(s, p, n)->Ok_0.0.len() == n,
        p <= rd_indices(s, p, n)->Ok_0.1 <= s.len(),
        s.subrange(p, rd_indices(s, p, n)->Ok_0.1) == enc_indices(rd_indices(s, p, n)->Ok_0.0),
    decreases n,
{
    let (ix, q) = rd_indices(s, p, n)->Ok_0;
    if n == 0 {
        assert(s.subrange(p, q) =~= enc_indices(ix));
    } else {
        lemma_u32_read_back(s, p);
        let (x, p1) = rd_u32(s, p)->Ok_0;
        lemma_indices_read_back(s, p1, (n - 1) as nat);
        let (rest, q2) = rd_indices(s, p1, (n - 1) as nat)->Ok_0;
        lemma_enc_indices_cons(ix);
        assert(ix.drop_first() =~= rest);
        assert(((x as usize) as u32) == x);
        assert(s.subrange(p, q) =~= s.subrange(p, p1) + s.subrange(p1, q));
    }
}

proof fn lemma_enc_indices_cons(ix: Seq<usize>)
    requires
        ix.len() > 0,
    ensures
        enc_indices(ix) == u32_be(ix[0] as u32) + enc_indices(ix.drop_first()),
    decreases ix.len(),
{
    if ix.len() == 1 {
        assert(ix.drop_last() =~= Seq::<usize>::empty());
        assert(ix.drop_first() =~= Seq::<usize>::empty());
        assert(enc_indices(ix) =~= u32_be(ix[0] as u32) + enc_indices(ix.drop_first()));
    } else {
        lemma_enc_indices_cons(ix.drop_last());
        assert(ix.drop_last().drop_first() =~= ix.drop_first().drop_last());
        assert(ix.drop_first().last() == ix.last());
        assert(enc_indices(ix) =~= u32_be(ix[0] as u32) + enc_indices(ix.drop_first()));
    }
}

proof fn lemma_enc_cumulative_cons(e: Seq<(Seq<usize>, i128)>)
    requires
        e.len() > 0,
    ensures
        enc_cumulative(e) == count_be(e[0].0.len()) + enc_indices(e[0].0) + int_be(e[0].1)
            + enc_cumulative(e.drop_first()),
    decreases e.len(),
{
    if e.len() == 1 {
        assert(e.drop_last() =~= Seq::<(Seq<usize>, i128)>::empty());
        assert(e.drop_first() =~= Seq::<(Seq<usize>, i128)>::empty());
        assert(enc_cumulative(e) =~= count_be(e[0].0.len()) + enc_indices(e[0].0) + int_be(e[0].1)
            + enc_cumulative(e.drop_first()));
    } else {
        lemma_enc_cumulative_cons(e.drop_last());
        assert(e.drop_last().drop_first() =~= e.drop_first().drop_last());
        assert(e.drop_first().last() == e.last());
        assert(enc_cumulative(e) =~= count_be(e[0].0.len()) + enc_indices(e[0].0) + int_be(e[0].1)
            + enc_cumulative(e.drop_first()));
    }
}

proof fn lemma_enc_rolling_cons(e: Seq<(u8, u32, i128)>)
    requires
        e.len() > 0,
    ensures
        enc_rolling(e) == seq![e[0].0] + u32_be(e[0].1) + int_be(e[0].2) + enc_rolling(e.drop_first()),
    decreases e.len(),
{
    if e.len() == 1 {
        assert(e.drop_last() =~= Seq::<(u8, u32, i128)>::empty());
        assert(e.drop_first() =~= Seq::<(u8, u32, i128)>::empty());
        assert(enc_rolling(e) =~= seq![e[0].0] + u32_be(e[0].1) + int_be(e[0].2) + enc_rolling(e.drop_first()));
    } else {
        lemma_enc_rolling_cons(e.drop_last());
        assert(e.drop_last().drop_first() =~= e.drop_first().drop_last());
        assert(e.drop_first().last() == e.last());
        assert(enc_rolling(e) =~= seq![e[0].0] + u32_be(e[0].1) + int_be(e[0].2) + enc_rolling(e.drop_first()));
    }
}

proof fn lemma_registered_rolling_cons(x: ((Seq<char>, u32), i128), rest: Seq<((Seq<char>, u32), i128)>, id: u8)
    requires
        rw_field_id(x.0.0) == Some(id),
    ensures
        registered_rolling(seq![x] + rest) == seq![(id, x.0.1, x.1)] + registered_rolling(rest),
    decreases rest.len(),
{
    let e = seq![x] + rest;
    if rest.len() == 0 {
        assert(e.drop_last() =~= Seq::<((Seq<char>, u32), i128)>::empty());
        assert(e.last() == x);
        assert(e.len() == 1);
        assert(registered_rolling(e.drop_last()) == Seq::<(u8, u32, i128)>::empty());
        assert(rw_field_id(e.last().0.0) == Some(id));
        assert(registered_rolling(rest) == Seq::<(u8, u32, i128)>::empty());
        assert(registered_rolling(e) == Seq::<(u8, u32, i128)>::empty().push((id, x.0.1, x.1)));
        assert(registered_rolling(e) =~= seq![(id, x.0.1, x.1)] + registered_rolling(rest));
    } else {
        lemma_registered_rolling_cons(x, rest.drop_last(), id);
        assert(e.drop_last() =~= seq![x] + rest.drop_last());
        assert(e.last() == rest.last());
        let r0 = registered_rolling(rest.drop_last());
        let m = seq![(id, x.0.1, x.1)];
        match rw_field_id(rest.last().0.0) {
            Some(i2) => {
                let y = (i2, rest.last().0.1, rest.last().1);
                assert(registered_rolling(rest) == r0.push(y));
                assert(registered_rolling(e) == (m + r0).push(y));
                assert((m + r0).push(y) =~= m + r0.push(y));
            },
            None => {
                assert(registered_rolling(rest) == r0);
                assert(registered_rolling(e) == m + r0);
            },
        }
    }
}

proof fn lemma_rolling_read_back(s: Seq<u8>, p: int, n: nat, prev: Option<(u8, u32)>)
    requires
        0 <= p <= s.len(),
        rd_rolling(s, p, n, prev) is Ok,
    ensures
        registered_rolling(rd_rolling(s, p, n, prev)->Ok_0.0).len() == n,
        p <= rd_rolling(s, p, n, prev)->Ok_0.1 <= s.len(),
        s.subrange(p, rd_rolling(s, p, n, prev)->Ok_0.1) == enc_rolling(
            registered_rolling(rd_rolling(s, p, n, prev)->Ok_0.0),
        ),
    decreases n,
{
    let (e, q) = rd_rolling(s, p, n, prev)->Ok_0;
    if n == 0 {
        assert(s.subrange(p, q) =~= enc_rolling(registered_rolling(e)));
    } else {
        let (id, p1) = rd_u8(s, p)->Ok_0;
        lemma_u32_read_back(s, p1);
        let (period, p2) = rd_u32(s, p1)->Ok_0;
        lemma_int_read_back(s, p2);
        let (amount, p3) = rd_int(s, p2)->Ok_0;
        let name = rw_field_name(id)->Some_0;
        lemma_rw_field_name(id);
        lemma_rolling_read_back(s, p3, (n - 1) as nat, Some((id, period)));
        let (rest, q2) = rd_rolling(s, p3, (n - 1) as nat, Some((id, period)))->Ok_0;
        lemma_registered_rolling_cons(((name, period), amount), rest, id);
        let reg = registered_rolling(e);
        lemma_enc_rolling_cons(reg);
        assert(reg.drop_first() =~= registered_rolling(rest));
        assert(s.subrange(p, p1) =~= seq![id]);
        assert(s.subrange(p, q) =~= s.subrange(p, p1) + s.subrange(p1, p2) + s.subrange(p2, p3) + s.subrange(p3, q));
    }
}

proof fn lemma_cumulative_read_back(s: Seq<u8>, p: int, n: nat, prev: Option<Seq<usize>>)
    requires
        0 <= p <= s.len(),
        rd_cumulative(s, p, n, prev) is Ok,
    ensures
        rd_cumulative(s, p, n, prev)->Ok_0.0.len() == n,
        p <= rd_cumulative(s, p, n, prev)->Ok_0.1 <= s.len(),
        s.subrange(p, rd_cumulative(s, p, n, prev)->Ok_0.1) == enc_cumulative(
            rd_cumulative(s, p, n, prev)->Ok_0.0,
        ),
    decreases n,
{
    let (e, q) = rd_cumulative(s, p, n, prev)->Ok_0;
    if n == 0 {
        assert(s.subrange(p, q) =~= enc_cumulative(e));
    } else {
        lemma_count_read_back(s, p);
        let (len, p1) = rd_count(s, p)->Ok_0;
        lemma_indices_read_back(s, p1, len);
        let (path, p2) = rd_indices(s, p1, len)->Ok_0;
        lemma_int_read_back(s, p2);
        let (amount, p3) = rd_int(s, p2)->Ok_0;
        lemma_cumulative_read_back(s, p3, (n - 1) as nat, Some(path));
        let (rest, q2) = rd_cumulative(s, p3, (n - 1) as nat, Some(path))->Ok_0;
        lemma_enc_cumulative_cons(e);
        assert(e.drop_first() =~= rest);
        assert(s.subrange(p, q) =~= s.subrange(p, p1) + s.subrange(p1, p2) + s.subrange(p2, p3) + s.subrange(p3, q));
    }
}

/// Canonical rejection of snapshots: a byte string the snapshot decoder accepts is the
/// canonical encoding of the snapshot it decodes to.
#[verifier::spinoff_prover]
#[verifier::rlimit(50)]
pub proof fn lemma_snapshot_canonical(s: Seq<u8>)
    requires
        rd_snapshot(s) is Ok,
    ensures
        enc_snapshot(rd_snapshot(s)->Ok_0) == s,
{
    let sv = rd_snapshot(s)->Ok_0;
    lemma_int_read_back(s, 1);
    lemma_u32_read_back(s, 17);
    lemma_u32_read_back(s, 21);
    lemma_u32_read_back(s, 25);
    lemma_u32_read_back(s, 29);
    lemma_count_read_back(s, 33);
    let (n, p6) = rd_count(s, 33)->Ok_0;
    lemma_rolling_read_back(s, 37, n, None);
    let (rolling, p7) = rd_rolling(s, 37, n, None)->Ok_0;
    lemma_count_read_back(s, p7);
    let (m, p8) = rd_count(s, p7)->Ok_0;
    lemma_cumulative_read_back(s, p8, m, None);
    let (cum, p9) = rd_cumulative(s, p8, m, None)->Ok_0;
    assert(s[0] == 1u8);
    assert(s =~= seq![s[0]] + s.subrange(1, 17) + s.subrange(17, 21) + s.subrange(21, 25) + s.subrange(25, 29)
        + s.subrange(29, 33) + s.subrange(33, 37) + s.subrange(37, p7) + s.subrange(p7, p8) + s.subrange(p8, p9));
}

proof fn lemma_pow2_8()
    ensures
        vstd::arithmetic::power::pow(256, 2) == 0x1_0000,
        vstd::arithmetic::power::pow(256, 8) == 0x1_0000_0000_0000_0000,
{
    reveal_with_fuel(vstd::arithmetic::power::pow, 9);
}

/// A `u16` that reads is the big-endian bytes it was read from.
pub proof fn lemma_u16_read_back(s: Seq<u8>, p: int)
    requires
        rd_u16(s, p) is Ok,
    ensures
        0 <= p,
        rd_u16(s, p)->Ok_0.1 == p + 2 <= s.len(),
        s.subrange(p, p + 2) == u16_be(rd_u16(s, p)->Ok_0.0),
{
    lemma_pow2_8();
    lemma_be_bytes_of_value(s.subrange(p, p + 2));
}

/// A `u64` that reads is the big-endian bytes it was read from.
pub proof fn lemma_u64_read_back(s: Seq<u8>, p: int)
    requires
        rd_u64(s, p) is Ok,
    ensures
        0 <= p,
        rd_u64(s, p)->Ok_0.1 == p + 8 <= s.len(),
        s.subrange(p, p + 8) == u64_be(rd_u64(s, p)->Ok_0.0),
{
    lemma_pow2_8();
    lemma_be_bytes_of_value(s.subrange(p, p + 8));
}

/// A text that reads is the length-prefixed UTF-8 it was read from.
pub proof fn lemma_text_read_back(s: Seq<u8>, p: int, bad: DecodeErrorV)
    requires
        rd_text(s, p, bad) is Ok,
    ensures
        0 <= p <= rd_text(s, p, bad)->Ok_0.1 <= s.len(),
        s.subrange(p, rd_text(s, p, bad)->Ok_0.1) == text_field(rd_text(s, p, bad)->Ok_0.0),
{
    lemma_bytes_read_back(s, p);
    let (b, q) = rd_bytes(s, p)->Ok_0;
    lemma_text_of_bytes(b);
}

/// Whether bytes `p..q` of `s` are `e`.
pub open spec fn reads_back(s: Seq<u8>, p: int, q: int, e: Seq<u8>) -> bool {
    0 <= p <= q <= s.len() && s.subrange(p, q) == e
}

proof fn lemma_cat(s: Seq<u8>, p: int, m: int, q: int, a: Seq<u8>, b: Seq<u8>)
    requires
        reads_back(s, p, m, a),
        reads_back(s, m, q, b),
    ensures
        reads_back(s, p, q, a + b),
{
    assert(s.subrange(p, q) =~= s.subrange(p, m) + s.subrange(m, q));
}

proof fn lemma_byte(s: Seq<u8>, p: int)
    requires
        rd_u8(s, p) is Ok,
    ensures
        reads_back(s, p, p + 1, seq![rd_u8(s, p)->Ok_0.0]),
{
    assert(s.subrange(p, p + 1) =~= seq![s[p]]);
}

/// A value that reads is the encoding it was read from.
#[verifier::spinoff_prover]
#[verifier::rlimit(60)]
pub proof fn lemma_value_read_back(s: Seq<u8>, p: int, d: nat)
    requires
        rd_value(s, p, d) is Ok,
    ensures
        reads_back(s, p, rd_value(s, p, d)->Ok_0.1, enc_value(rd_value(s, p, d)->Ok_0.0)),
    decreases room(d), 1nat,
{
    let (v, q) = rd_value(s, p, d)->Ok_0;
    lemma_byte(s, p);
    let (t, p1) = rd_u8(s, p)->Ok_0;
    if t == 0 {
        lemma_int_read_back(s, p1);
        lemma_cat(s, p, p1, q, seq![t], int_be(rd_int(s, p1)->Ok_0.0));
    } else if t == 1 || t == 6 {
        let bad = if t == 1 { DecodeErrorV::BadKey } else { DecodeErrorV::BadUtf8 };
        lemma_text_read_back(s, p1, bad);
        lemma_cat(s, p, p1, q, seq![t], text_field(rd_text(s, p1, bad)->Ok_0.0));
    } else if t == 2 {
        lemma_hash_read_back(s, p1);
        lemma_cat(s, p, p1, q, seq![t], hash_bytes(rd_hash(s, p1)->Ok_0.0));
    } else if t == 3 {
        lemma_bytes_read_back(s, p1);
        lemma_cat(s, p, p1, q, seq![t], bytes_field(rd_bytes(s, p1)->Ok_0.0));
    } else if t == 4 {
        lemma_count_read_back(s, p1);
        let (n, p2) = rd_count(s, p1)->Ok_0;
        lemma_indices_read_back(s, p2, n);
        let ix = rd_indices(s, p2, n)->Ok_0.0;
        lemma_cat(s, p, p1, p2, seq![t], count_be(n));
        lemma_cat(s, p, p2, q, seq![t] + count_be(n), enc_indices(ix));
    } else if t == 5 {
        lemma_count_read_back(s, p1);
        let (n, p2) = rd_count(s, p1)->Ok_0;
        lemma_values_read_back(s, p2, n, d + 1);
        let items = rd_values(s, p2, n, d + 1)->Ok_0.0;
        lemma_cat(s, p, p1, p2, seq![t], count_be(n));
        lemma_cat(s, p, p2, q, seq![t] + count_be(n), enc_values(items));
    } else {
        lemma_term_read_back(s, p1, d + 1);
        lemma_cat(s, p, p1, q, seq![t], enc_term(rd_term(s, p1, d + 1)->Ok_0.0));
    }
}

pub proof fn lemma_values_read_back(s: Seq<u8>, p: int, n: nat, d: nat)
    requires
        0 <= p <= s.len(),
        rd_values(s, p, n, d) is Ok,
    ensures
        rd_values(s, p, n, d)->Ok_0.0.len() == n,
        reads_back(s, p, rd_values(s, p, n, d)->Ok_0.1, enc_values(rd_values(s, p, n, d)->Ok_0.0)),
    decreases room(d), n + 2,
{
    let (e, q) = rd_values(s, p, n, d)->Ok_0;
    if n == 0 {
        assert(s.subrange(p, q) =~= enc_values(e));
    } else {
        lemma_value_read_back(s, p, d);
        let (v, p1) = rd_value(s, p, d)->Ok_0;
        lemma_values_read_back(s, p1, (n - 1) as nat, d);
        let rest = rd_values(s, p1, (n - 1) as nat, d)->Ok_0.0;
        lemma_enc_values_cons(e);
        assert(e.drop_first() =~= rest);
        lemma_cat(s, p, p1, q, enc_value(v), enc_values(rest));
    }
}

pub proof fn lemma_terms_read_back(s: Seq<u8>, p: int, n: nat, d: nat)
    requires
        0 <= p <= s.len(),
        rd_terms(s, p, n, d) is Ok,
    ensures
        rd_terms(s, p, n, d)->Ok_0.0.len() == n,
        reads_back(s, p, rd_terms(s, p, n, d)->Ok_0.1, enc_terms(rd_terms(s, p, n, d)->Ok_0.0)),
    decreases room(d), n + 2,
{
    let (e, q) = rd_terms(s, p, n, d)->Ok_0;
    if n == 0 {
        assert(s.subrange(p, q) =~= enc_terms(e));
    } else {
        lemma_term_read_back(s, p, d);
        let (v, p1) = rd_term(s, p, d)->Ok_0;
        lemma_terms_read_back(s, p1, (n - 1) as nat, d);
        let rest = rd_terms(s, p1, (n - 1) as nat, d)->Ok_0.0;
        lemma_enc_terms_cons(e);
        assert(e.drop_first() =~= rest);
        lemma_cat(s, p, p1, q, enc_term(v), enc_terms(rest));
    }
}

pub proof fn lemma_vterms_read_back(s: Seq<u8>, p: int, n: nat, d: nat)
    requires
        0 <= p <= s.len(),
        rd_vterms(s, p, n, d) is Ok,
    ensures
        rd_vterms(s, p, n, d)->Ok_0.0.len() == n,
        reads_back(s, p, rd_vterms(s, p, n, d)->Ok_0.1, enc_vterms(rd_vterms(s, p, n, d)->Ok_0.0)),
    decreases room(d), n + 2,
{
    let (e, q) = rd_vterms(s, p, n, d)->Ok_0;
    if n == 0 {
        assert(s.subrange(p, q) =~= enc_vterms(e));
    } else {
        lemma_vterm_read_back(s, p, d);
        let (v, p1) = rd_vterm(s, p, d)->Ok_0;
        lemma_vterms_read_back(s, p1, (n - 1) as nat, d);
        let rest = rd_vterms(s, p1, (n - 1) as nat, d)->Ok_0.0;
        lemma_enc_vterms_cons(e);
        assert(e.drop_first() =~= rest);
        lemma_cat(s, p, p1, q, enc_vterm(v), enc_vterms(rest));
    }
}

pub proof fn lemma_arms_read_back(s: Seq<u8>, p: int, n: nat, d: nat)
    requires
        0 <= p <= s.len(),
        rd_arms(s, p, n, d) is Ok,
    ensures
        rd_arms(s, p, n, d)->Ok_0.0.len() == n,
        reads_back(s, p, rd_arms(s, p, n, d)->Ok_0.1, enc_arms(rd_arms(s, p, n, d)->Ok_0.0)),
    decreases room(d), n + 2,
{
    let (e, q) = rd_arms(s, p, n, d)->Ok_0;
    if n == 0 {
        assert(s.subrange(p, q) =~= enc_arms(e));
    } else {
        lemma_text_read_back(s, p, DecodeErrorV::BadUtf8);
        let (tag, p1) = rd_text(s, p, DecodeErrorV::BadUtf8)->Ok_0;
        lemma_term_read_back(s, p1, d);
        let (t, p2) = rd_term(s, p1, d)->Ok_0;
        lemma_arms_read_back(s, p2, (n - 1) as nat, d);
        let rest = rd_arms(s, p2, (n - 1) as nat, d)->Ok_0.0;
        lemma_enc_arms_cons(e);
        assert(e.drop_first() =~= rest);
        lemma_cat(s, p, p1, p2, text_field(tag), enc_term(t));
        lemma_cat(s, p, p2, q, text_field(tag) + enc_term(t), enc_arms(rest));
    }
}

/// A value term that reads is the encoding it was read from.
#[verifier::spinoff_prover]
#[verifier::rlimit(60)]
pub proof fn lemma_vterm_read_back(s: Seq<u8>, p: int, d: nat)
    requires
        rd_vterm(s, p, d) is Ok,
    ensures
        reads_back(s, p, rd_vterm(s, p, d)->Ok_0.1, enc_vterm(rd_vterm(s, p, d)->Ok_0.0)),
    decreases room(d), 1nat,
{
    let (v, q) = rd_vterm(s, p, d)->Ok_0;
    lemma_byte(s, p);
    let (t, p1) = rd_u8(s, p)->Ok_0;
    if t == 0 {
        lemma_value_read_back(s, p1, d + 1);
        lemma_cat(s, p, p1, q, seq![t], enc_value(rd_value(s, p1, d + 1)->Ok_0.0));
    } else if t == 1 {
        lemma_text_read_back(s, p1, DecodeErrorV::BadUtf8);
        lemma_cat(s, p, p1, q, seq![t], text_field(rd_text(s, p1, DecodeErrorV::BadUtf8)->Ok_0.0));
    } else {
        lemma_u16_read_back(s, p1);
        let (id, p2) = rd_u16(s, p1)->Ok_0;
        let f = value_fn_of_id(id)->Some_0;
        assert(value_fn_id(f) == id);
        lemma_count_read_back(s, p2);
        let (n, p3) = rd_count(s, p2)->Ok_0;
        lemma_vterms_read_back(s, p3, n, d + 1);
        let args = rd_vterms(s, p3, n, d + 1)->Ok_0.0;
        lemma_cat(s, p, p1, p2, seq![t], u16_be(id));
        lemma_cat(s, p, p2, p3, seq![t] + u16_be(id), count_be(n));
        lemma_cat(s, p, p3, q, seq![t] + u16_be(id) + count_be(n), enc_vterms(args));
    }
}

/// An obligation that reads is the encoding it was read from.
#[verifier::spinoff_prover]
#[verifier::rlimit(60)]
pub proof fn lemma_obligation_read_back(s: Seq<u8>, p: int, d: nat)
    requires
        rd_obligation(s, p, d) is Ok,
    ensures
        reads_back(s, p, rd_obligation(s, p, d)->Ok_0.1, enc_obligation(rd_obligation(s, p, d)->Ok_0.0)),
    decreases room(d), 0nat,
{
    let (o, q) = rd_obligation(s, p, d)->Ok_0;
    lemma_u16_read_back(s, p);
    let (t, p1) = rd_u16(s, p)->Ok_0;
    if t == 3 {
        lemma_u32_read_back(s, p1);
        let (k, p2) = rd_u32(s, p1)->Ok_0;
        assert(((k as usize) as u32) == k);
        lemma_vterm_read_back(s, p2, d + 1);
        let v = rd_vterm(s, p2, d + 1)->Ok_0.0;
        lemma_cat(s, p, p1, p2, u16_be(t), u32_be(k));
        lemma_cat(s, p, p2, q, u16_be(t) + u32_be(k), enc_vterm(v));
    } else if t == 5 {
        lemma_vterm_read_back(s, p1, d + 1);
        let (v, p2) = rd_vterm(s, p1, d + 1)->Ok_0;
        lemma_u16_read_back(s, p2);
        let (st, p3) = rd_u16(s, p2)->Ok_0;
        lemma_u32_read_back(s, p3);
        let (bps, p4) = rd_u32(s, p3)->Ok_0;
        lemma_cat(s, p, p1, p2, u16_be(t), enc_vterm(v));
        lemma_cat(s, p2, p3, q, u16_be(st), u32_be(bps));
        lemma_cat(s, p, p2, q, u16_be(t) + enc_vterm(v), u16_be(st) + u32_be(bps));
        assert(u16_be(t) + enc_vterm(v) + (u16_be(st) + u32_be(bps)) =~= enc_obligation(o));
    } else {
        lemma_vterm_read_back(s, p1, d + 1);
        let v = rd_vterm(s, p1, d + 1)->Ok_0.0;
        lemma_cat(s, p, p1, q, u16_be(t), enc_vterm(v));
    }
}

/// A term that reads is the encoding it was read from.
#[verifier::spinoff_prover]
#[verifier::rlimit(100)]
pub proof fn lemma_term_read_back(s: Seq<u8>, p: int, d: nat)
    requires
        rd_term(s, p, d) is Ok,
    ensures
        reads_back(s, p, rd_term(s, p, d)->Ok_0.1, enc_term(rd_term(s, p, d)->Ok_0.0)),
    decreases room(d), 1nat,
{
    let (b, q) = rd_term(s, p, d)->Ok_0;
    lemma_byte(s, p);
    let (t, p1) = rd_u8(s, p)->Ok_0;
    if t == 0 {
        let (x, p2) = rd_bool(s, p1)->Ok_0;
        lemma_byte(s, p1);
        lemma_cat(s, p, p1, q, seq![t], seq![s[p1]]);
        assert(seq![t] + seq![s[p1]] =~= enc_term(b));
    } else if t == 1 || t == 2 {
        lemma_count_read_back(s, p1);
        let (n, p2) = rd_count(s, p1)->Ok_0;
        lemma_terms_read_back(s, p2, n, d + 1);
        let bs = rd_terms(s, p2, n, d + 1)->Ok_0.0;
        lemma_cat(s, p, p1, p2, seq![t], count_be(n));
        lemma_cat(s, p, p2, q, seq![t] + count_be(n), enc_terms(bs));
    } else if t == 3 {
        lemma_u32_read_back(s, p1);
        let (k, p2) = rd_u32(s, p1)->Ok_0;
        assert(((k as usize) as u32) == k);
        lemma_count_read_back(s, p2);
        let (n, p3) = rd_count(s, p2)->Ok_0;
        lemma_terms_read_back(s, p3, n, d + 1);
        let bs = rd_terms(s, p3, n, d + 1)->Ok_0.0;
        lemma_cat(s, p, p1, p2, seq![t], u32_be(k));
        lemma_cat(s, p, p2, p3, seq![t] + u32_be(k), count_be(n));
        lemma_cat(s, p, p3, q, seq![t] + u32_be(k) + count_be(n), enc_terms(bs));
    } else if t == 4 {
        lemma_term_read_back(s, p1, d + 1);
        lemma_cat(s, p, p1, q, seq![t], enc_term(rd_term(s, p1, d + 1)->Ok_0.0));
    } else if t == 9 {
        lemma_obligation_read_back(s, p1, d);
        lemma_cat(s, p, p1, q, seq![t], enc_obligation(rd_obligation(s, p1, d)->Ok_0.0));
    } else {
        lemma_term_read_back_nested(s, p, d);
    }
}

/// [`lemma_term_read_back`] for `if`, `match`, comparisons and state predicates.
#[verifier::spinoff_prover]
#[verifier::rlimit(100)]
proof fn lemma_term_read_back_nested(s: Seq<u8>, p: int, d: nat)
    requires
        rd_term(s, p, d) is Ok,
        rd_u8(s, p) is Ok,
        5 <= rd_u8(s, p)->Ok_0.0 <= 8,
    ensures
        reads_back(s, p, rd_term(s, p, d)->Ok_0.1, enc_term(rd_term(s, p, d)->Ok_0.0)),
    decreases room(d), 0nat,
{
    let (b, q) = rd_term(s, p, d)->Ok_0;
    lemma_byte(s, p);
    let (t, p1) = rd_u8(s, p)->Ok_0;
    if t == 5 {
        lemma_term_read_back(s, p1, d + 1);
        let (c, p2) = rd_term(s, p1, d + 1)->Ok_0;
        lemma_term_read_back(s, p2, d + 1);
        let (x, p3) = rd_term(s, p2, d + 1)->Ok_0;
        lemma_term_read_back(s, p3, d + 1);
        let y = rd_term(s, p3, d + 1)->Ok_0.0;
        lemma_cat(s, p, p1, p2, seq![t], enc_term(c));
        lemma_cat(s, p, p2, p3, seq![t] + enc_term(c), enc_term(x));
        lemma_cat(s, p, p3, q, seq![t] + enc_term(c) + enc_term(x), enc_term(y));
    } else if t == 6 {
        lemma_vterm_read_back(s, p1, d + 1);
        let (sc, p2) = rd_vterm(s, p1, d + 1)->Ok_0;
        lemma_count_read_back(s, p2);
        let (n, p3) = rd_count(s, p2)->Ok_0;
        lemma_arms_read_back(s, p3, n, d + 1);
        let (arms, p4) = rd_arms(s, p3, n, d + 1)->Ok_0;
        lemma_term_read_back(s, p4, d + 1);
        let df = rd_term(s, p4, d + 1)->Ok_0.0;
        lemma_cat(s, p, p1, p2, seq![t], enc_vterm(sc));
        lemma_cat(s, p, p2, p3, seq![t] + enc_vterm(sc), count_be(n));
        lemma_cat(s, p, p3, p4, seq![t] + enc_vterm(sc) + count_be(n), enc_arms(arms));
        lemma_cat(s, p, p4, q, seq![t] + enc_vterm(sc) + count_be(n) + enc_arms(arms), enc_term(df));
    } else if t == 7 {
        lemma_byte(s, p1);
        let (id, p2) = rd_u8(s, p1)->Ok_0;
        let o = comparison_of_id(id)->Some_0;
        assert(comparison_id(o) == id);
        lemma_vterm_read_back(s, p2, d + 1);
        let (a, p3) = rd_vterm(s, p2, d + 1)->Ok_0;
        lemma_vterm_read_back(s, p3, d + 1);
        let c = rd_vterm(s, p3, d + 1)->Ok_0.0;
        lemma_cat(s, p, p1, p2, seq![t], seq![id]);
        lemma_cat(s, p, p2, p3, seq![t] + seq![id], enc_vterm(a));
        lemma_cat(s, p, p3, q, seq![t] + seq![id] + enc_vterm(a), enc_vterm(c));
        assert(seq![t] + seq![id] =~= seq![t, id]);
    } else {
        lemma_u16_read_back(s, p1);
        let (id, p2) = rd_u16(s, p1)->Ok_0;
        let pr = state_pred_of_id(id)->Some_0;
        assert(state_pred_id(pr) == id);
        lemma_count_read_back(s, p2);
        let (n, p3) = rd_count(s, p2)->Ok_0;
        lemma_vterms_read_back(s, p3, n, d + 1);
        let args = rd_vterms(s, p3, n, d + 1)->Ok_0.0;
        lemma_cat(s, p, p1, p2, seq![t], u16_be(id));
        lemma_cat(s, p, p2, p3, seq![t] + u16_be(id), count_be(n));
        lemma_cat(s, p, p3, q, seq![t] + u16_be(id) + count_be(n), enc_vterms(args));
    }
}

/// Named entries that read are the encoding they were read from.
proof fn lemma_named_read_back(s: Seq<u8>, p: int, n: nat, prev: Option<Seq<u8>>)
    requires
        0 <= p <= s.len(),
        rd_named(s, p, n, prev) is Ok,
    ensures
        rd_named(s, p, n, prev)->Ok_0.0.len() == n,
        reads_back(s, p, rd_named(s, p, n, prev)->Ok_0.1, enc_named(rd_named(s, p, n, prev)->Ok_0.0)),
    decreases n,
{
    let (e, q) = rd_named(s, p, n, prev)->Ok_0;
    if n == 0 {
        assert(s.subrange(p, q) =~= enc_named(e));
    } else {
        lemma_text_read_back(s, p, DecodeErrorV::BadUtf8);
        let (name, p1) = rd_text(s, p, DecodeErrorV::BadUtf8)->Ok_0;
        lemma_value_read_back(s, p1, 0);
        let (v, p2) = rd_value(s, p1, 0)->Ok_0;
        lemma_named_read_back(s, p2, (n - 1) as nat, Some(encode_utf8(name)));
        let rest = rd_named(s, p2, (n - 1) as nat, Some(encode_utf8(name)))->Ok_0.0;
        lemma_enc_named_cons(e);
        assert(e.drop_first() =~= rest);
        lemma_cat(s, p, p1, p2, text_field(name), enc_value(v));
        lemma_cat(s, p, p2, q, text_field(name) + enc_value(v), enc_named(rest));
    }
}

/// Canonical rejection of descriptors: a byte string the descriptor decoder accepts is the
/// canonical encoding of the descriptor it decodes to.
#[verifier::spinoff_prover]
pub proof fn lemma_descriptor_canonical(s: Seq<u8>)
    requires
        rd_descriptor(s) is Ok,
    ensures
        enc_descriptor(rd_descriptor(s)->Ok_0.0, rd_descriptor(s)->Ok_0.1) == s,
{
    lemma_byte(s, 0);
    lemma_count_read_back(s, 1);
    let (n, p1) = rd_count(s, 1)->Ok_0;
    lemma_named_read_back(s, p1, n, None);
    let (c, p2) = rd_named(s, p1, n, None)->Ok_0;
    lemma_term_read_back(s, p2, 0);
    let (body, p3) = rd_term(s, p2, 0)->Ok_0;
    lemma_cat(s, 0, 1, p1, seq![1u8], count_be(n));
    lemma_cat(s, 0, p1, p2, seq![1u8] + count_be(n), enc_named(c));
    lemma_cat(s, 0, p2, p3, seq![1u8] + count_be(n) + enc_named(c), enc_term(body));
    assert(s.subrange(0, s.len() as int) =~= s);
}

/// Canonical rejection of operations: a byte string the operation decoder accepts is the
/// signing preimage of the operation it decodes to.
#[verifier::spinoff_prover]
pub proof fn lemma_operation_canonical(s: Seq<u8>)
    requires
        rd_operation(s) is Ok,
    ensures
        op_preimage(rd_operation(s)->Ok_0) == s,
{
    let o = rd_operation(s)->Ok_0;
    lemma_byte(s, 0);
    let (id, p1) = rd_n(s, 1, 32)->Ok_0;
    lemma_text_read_back(s, p1, DecodeErrorV::BadUtf8);
    let (ty, p2) = rd_text(s, p1, DecodeErrorV::BadUtf8)->Ok_0;
    lemma_count_read_back(s, p2);
    let (n, p3) = rd_count(s, p2)->Ok_0;
    lemma_named_read_back(s, p3, n, None);
    let (args, p4) = rd_named(s, p3, n, None)->Ok_0;
    lemma_u64_read_back(s, p4);
    let (nonce, p5) = rd_u64(s, p4)->Ok_0;
    lemma_u32_read_back(s, p5);
    let (expiry, p6) = rd_u32(s, p5)->Ok_0;
    lemma_cat(s, 0, 1, p1, seq![1u8], id);
    lemma_cat(s, 0, p1, p2, seq![1u8] + id, text_field(ty));
    lemma_cat(s, 0, p2, p3, seq![1u8] + id + text_field(ty), count_be(n));
    lemma_cat(s, 0, p3, p4, seq![1u8] + id + text_field(ty) + count_be(n), enc_named(args));
    lemma_cat(s, 0, p4, p5, seq![1u8] + id + text_field(ty) + count_be(n) + enc_named(args), u64_be(nonce));
    lemma_cat(s, 0, p5, p6, seq![1u8] + id + text_field(ty) + count_be(n) + enc_named(args) + u64_be(nonce), u32_be(expiry));
    assert(s.subrange(0, s.len() as int) =~= s);
}

/// Canonical rejection of fraud proofs: a byte string the fraud-proof decoder accepts is the
/// canonical encoding of the fraud proof it decodes to.
#[verifier::spinoff_prover]
#[verifier::rlimit(60)]
pub proof fn lemma_fraud_proof_canonical(s: Seq<u8>)
    requires
        rd_fraud_proof(s) is Ok,
    ensures
        enc_fraud_proof(rd_fraud_proof(s)->Ok_0) == s,
{
    let f = rd_fraud_proof(s)->Ok_0;
    lemma_byte(s, 0);
    lemma_bytes_read_back(s, 1);
    let (db, p1) = rd_bytes(s, 1)->Ok_0;
    lemma_descriptor_canonical(db);
    lemma_bytes_read_back(s, p1);
    let (ob, p2) = rd_bytes(s, p1)->Ok_0;
    lemma_operation_canonical(ob);
    lemma_bytes_read_back(s, p2);
    let (sb, p3) = rd_bytes(s, p2)->Ok_0;
    lemma_snapshot_canonical(sb);
    lemma_bytes_read_back(s, p3);
    let (wb, p4) = rd_bytes(s, p3)->Ok_0;
    lemma_witness_canonical(wb);
    lemma_byte(s, p4);
    let c = seq![s[p4]];
    assert(c =~= seq![if f.claimed { 1u8 } else { 0u8 }]);
    lemma_cat(s, 0, 1, p1, seq![1u8], bytes_field(db));
    lemma_cat(s, 0, p1, p2, seq![1u8] + bytes_field(db), bytes_field(ob));
    lemma_cat(s, 0, p2, p3, seq![1u8] + bytes_field(db) + bytes_field(ob), bytes_field(sb));
    lemma_cat(s, 0, p3, p4, seq![1u8] + bytes_field(db) + bytes_field(ob) + bytes_field(sb), bytes_field(wb));
    lemma_cat(s, 0, p4, p4 + 1, seq![1u8] + bytes_field(db) + bytes_field(ob) + bytes_field(sb) + bytes_field(wb), c);
    assert(s.subrange(0, s.len() as int) =~= s);
}

} // verus!
