//! The codec laws: decoding an encoding gives the encoded value back.
use vstd::prelude::*;
use vstd::utf8::{decode_utf8, encode_utf8, encode_utf8_decode_utf8, encode_utf8_valid_utf8};

use crate::ast::{BTermV, HashFn, HashV, HashValue, ObligationV, Schema, ValueV, VTermV, digest_len};
use crate::bytes::{be_bytes, be_value, lemma_be_bytes_len, lemma_be_value_of_bytes};
use crate::decode::{
    DecodeErrorV, Read, comparison_of_id, rd_arms, rd_bool, rd_bytes, rd_count, rd_hash,
    rd_indices, rd_int, rd_obligation, rd_schema, rd_term, rd_terms, rd_text, rd_u16, rd_u32,
    rd_u64, rd_u8, rd_value, rd_values, rd_vterm, rd_vterms, state_pred_of_id, value_fn_of_id,
    canonical_name, rd_named, rd_descriptor, rd_version, rd_end, rd_operation, rd_n,
};
use crate::encode::{
    bytes_field, comparison_id, count_be, enc_arms, enc_indices, enc_obligation, enc_schema,
    enc_term, enc_terms, enc_value, enc_values, enc_vterm, enc_vterms, int_be, state_pred_id,
    text_field, u16_be, u32_be, u64_be, value_fn_id, enc_named, enc_descriptor, op_preimage,
};
use crate::bytes::bytes_lt;
use crate::eval::obligation_arg;
use crate::host::OperationV;
use crate::limits::MAX_DEPTH;
use crate::witness::{WitnessV, hash_bytes, hash_tag};
use crate::fraud::{FraudProofV, enc_fraud_proof, rd_fraud_proof};
use crate::descriptor::DescriptorV;
use crate::witness_codec::{
    enc_attestations, enc_preimages, enc_signatures, enc_witness, hash_lt, lemma_hash_keys_sorted,
    lemma_text_keys_sorted, rd_attestations, rd_preimages, rd_signatures, rd_witness,
};
use crate::maps::keys_sorted;
use crate::snapshot::{SnapshotV, path_sort_bytes, rolling_sort_bytes, rw_field_id};
use crate::snapshot_codec::{
    enc_cumulative, enc_rolling, enc_snapshot, key_lt, lemma_key_bytes, lemma_path_bytes,
    lemma_paths_sorted, lemma_rolling_sorted,
    path_lt, rd_cumulative, rd_rolling, rd_snapshot, registered_rolling, rw_field_name,
};

verus! {

/// `e` stands in `s` at position `p`.
pub open spec fn occurs(s: Seq<u8>, p: int, e: Seq<u8>) -> bool {
    0 <= p && p + e.len() <= s.len() && s.subrange(p, p + e.len()) == e
}

proof fn lemma_occurs_split(s: Seq<u8>, p: int, a: Seq<u8>, b: Seq<u8>)
    requires
        occurs(s, p, a + b),
    ensures
        occurs(s, p, a),
        occurs(s, p + a.len(), b),
{
    let w = s.subrange(p, p + (a + b).len());
    assert(w == a + b);
    assert(s.subrange(p, p + a.len()) =~= w.subrange(0, a.len() as int));
    assert(w.subrange(0, a.len() as int) =~= a);
    assert(s.subrange(p + a.len(), p + a.len() + b.len()) =~= w.subrange(
        a.len() as int,
        w.len() as int,
    ));
    assert(w.subrange(a.len() as int, w.len() as int) =~= b);
}

// ---------------------------------------------------------------------------------------------
// Fields
// ---------------------------------------------------------------------------------------------

proof fn lemma_pow_values()
    ensures
        vstd::arithmetic::power::pow(256, 2) == 0x1_0000,
        vstd::arithmetic::power::pow(256, 4) == 0x1_0000_0000,
        vstd::arithmetic::power::pow(256, 8) == 0x1_0000_0000_0000_0000,
        vstd::arithmetic::power::pow(256, 16) == 0x1_0000_0000_0000_0000_0000_0000_0000_0000,
{
    reveal_with_fuel(vstd::arithmetic::power::pow, 17);
}

proof fn lemma_rd_u8(s: Seq<u8>, p: int, x: u8)
    requires
        occurs(s, p, seq![x]),
    ensures
        rd_u8(s, p) == Ok::<(u8, int), DecodeErrorV>((x, p + 1)),
{
    assert(s.subrange(p, p + 1)[0] == s[p]);
}

proof fn lemma_rd_u16(s: Seq<u8>, p: int, x: u16)
    requires
        occurs(s, p, u16_be(x)),
    ensures
        rd_u16(s, p) == Ok::<(u16, int), DecodeErrorV>((x, p + 2)),
{
    lemma_pow_values();
    lemma_be_bytes_len(x as int, 2);
    lemma_be_value_of_bytes(x as int, 2);
}

proof fn lemma_rd_u32(s: Seq<u8>, p: int, x: u32)
    requires
        occurs(s, p, u32_be(x)),
    ensures
        rd_u32(s, p) == Ok::<(u32, int), DecodeErrorV>((x, p + 4)),
{
    lemma_pow_values();
    lemma_be_bytes_len(x as int, 4);
    lemma_be_value_of_bytes(x as int, 4);
}

proof fn lemma_rd_u64(s: Seq<u8>, p: int, x: u64)
    requires
        occurs(s, p, u64_be(x)),
    ensures
        rd_u64(s, p) == Ok::<(u64, int), DecodeErrorV>((x, p + 8)),
{
    lemma_pow_values();
    lemma_be_bytes_len(x as int, 8);
    lemma_be_value_of_bytes(x as int, 8);
}

proof fn lemma_i128_u128_round(n: i128)
    ensures
        ((n as u128) as i128) == n,
{
    assert(((n as u128) as i128) == n) by (bit_vector);
}

proof fn lemma_rd_int(s: Seq<u8>, p: int, n: i128)
    requires
        occurs(s, p, int_be(n)),
    ensures
        rd_int(s, p) == Ok::<(i128, int), DecodeErrorV>((n, p + 16)),
{
    lemma_pow_values();
    let x = n as u128;
    lemma_be_bytes_len(x as int, 16);
    lemma_be_value_of_bytes(x as int, 16);
    lemma_i128_u128_round(n);
}

proof fn lemma_rd_count(s: Seq<u8>, p: int, n: nat)
    requires
        n <= u32::MAX,
        occurs(s, p, count_be(n)),
        s.len() - (p + 4) >= n,
    ensures
        rd_count(s, p) == Ok::<(nat, int), DecodeErrorV>((n, p + 4)),
{
    lemma_rd_u32(s, p, n as u32);
}

proof fn lemma_rd_bytes(s: Seq<u8>, p: int, b: Seq<u8>)
    requires
        b.len() <= u32::MAX,
        occurs(s, p, bytes_field(b)),
    ensures
        rd_bytes(s, p) == Ok::<(Seq<u8>, int), DecodeErrorV>((b, p + 4 + b.len())),
{
    lemma_pow_values();
    lemma_be_bytes_len(b.len() as int, 4);
    lemma_occurs_split(s, p, count_be(b.len()), b);
    lemma_rd_u32(s, p, b.len() as u32);
}

proof fn lemma_rd_text(s: Seq<u8>, p: int, t: Seq<char>, bad: DecodeErrorV)
    requires
        encode_utf8(t).len() <= u32::MAX,
        occurs(s, p, text_field(t)),
    ensures
        rd_text(s, p, bad) == Ok::<(Seq<char>, int), DecodeErrorV>(
            (t, p + 4 + encode_utf8(t).len()),
        ),
{
    lemma_rd_bytes(s, p, encode_utf8(t));
    encode_utf8_valid_utf8(t);
    encode_utf8_decode_utf8(t);
}

proof fn lemma_rd_hash(s: Seq<u8>, p: int, h: HashV)
    requires
        h.digest.len() == digest_len(h.func),
        occurs(s, p, hash_bytes(h)),
    ensures
        rd_hash(s, p) == Ok::<(HashV, int), DecodeErrorV>((h, p + 1 + h.digest.len())),
{
    lemma_occurs_split(s, p, seq![hash_tag(h.func)], h.digest);
    lemma_rd_u8(s, p, hash_tag(h.func));
}


// ---------------------------------------------------------------------------------------------
// Well-formedness
// ---------------------------------------------------------------------------------------------

/// A text whose UTF-8 encoding fits a `u32` length.
pub open spec fn text_fits(t: Seq<char>) -> bool {
    encode_utf8(t).len() <= u32::MAX
}

/// A value the encoding can carry nested `d` deep: lengths and indices fit their fields,
/// digests have their function's length, and nesting stays within [`MAX_DEPTH`].
pub open spec fn wf_value(v: ValueV, d: nat) -> bool
    decreases v,
{
    d <= MAX_DEPTH && match v {
        ValueV::Int(_) => true,
        ValueV::Key(k) => text_fits(k),
        ValueV::Hash(h) => h.digest.len() == digest_len(h.func),
        ValueV::Bytes(b) => b.len() <= u32::MAX,
        ValueV::Path(ix) => ix.len() <= u32::MAX && forall|i: int|
            0 <= i < ix.len() ==> #[trigger] ix[i] <= u32::MAX,
        ValueV::List(items) => items.len() <= u32::MAX && wf_values(items, d + 1),
        ValueV::Symbol(t) => text_fits(t),
        ValueV::Subtree(t) => wf_term(*t, d + 1),
    }
}

/// [`wf_value`] for each value of a list.
pub open spec fn wf_values(s: Seq<ValueV>, d: nat) -> bool
    decreases s,
{
    if s.len() == 0 {
        true
    } else {
        wf_value(s[0], d) && wf_values(s.drop_first(), d)
    }
}

/// A term the encoding can carry nested `d` deep.
pub open spec fn wf_term(t: BTermV, d: nat) -> bool
    decreases t,
{
    d <= MAX_DEPTH && match t {
        BTermV::Const(_) => true,
        BTermV::And(bs) => bs.len() <= u32::MAX && wf_terms(bs, d + 1),
        BTermV::Or(bs) => bs.len() <= u32::MAX && wf_terms(bs, d + 1),
        BTermV::Thresh(k, bs) => k <= u32::MAX && bs.len() <= u32::MAX && wf_terms(bs, d + 1),
        BTermV::Not(b) => wf_term(*b, d + 1),
        BTermV::If(c, t1, e) => wf_term(*c, d + 1) && wf_term(*t1, d + 1) && wf_term(*e, d + 1),
        BTermV::Match(sc, arms, df) => wf_vterm(sc, d + 1) && arms.len() <= u32::MAX && wf_arms(
            arms,
            d + 1,
        ) && wf_term(*df, d + 1),
        BTermV::Cmp(_, a, b) => wf_vterm(a, d + 1) && wf_vterm(b, d + 1),
        BTermV::State(_, args) => args.len() <= u32::MAX && wf_vterms(args, d + 1),
        BTermV::Prove(o) => wf_obligation(o, d),
    }
}

/// [`wf_term`] for each term of a list.
pub open spec fn wf_terms(s: Seq<BTermV>, d: nat) -> bool
    decreases s,
{
    if s.len() == 0 {
        true
    } else {
        wf_term(s[0], d) && wf_terms(s.drop_first(), d)
    }
}

/// [`wf_term`] for each arm body of a list, whose tags fit too.
pub open spec fn wf_arms(s: Seq<(Seq<char>, BTermV)>, d: nat) -> bool
    decreases s,
{
    if s.len() == 0 {
        true
    } else {
        text_fits(s[0].0) && wf_term(s[0].1, d) && wf_arms(s.drop_first(), d)
    }
}

/// A value term the encoding can carry nested `d` deep.
pub open spec fn wf_vterm(t: VTermV, d: nat) -> bool
    decreases t,
{
    d <= MAX_DEPTH && match t {
        VTermV::Lit(v) => wf_value(v, d + 1),
        VTermV::Var(n) => text_fits(n),
        VTermV::Op(_, args) => args.len() <= u32::MAX && wf_vterms(args, d + 1),
    }
}

/// [`wf_vterm`] for each value term of a list.
pub open spec fn wf_vterms(s: Seq<VTermV>, d: nat) -> bool
    decreases s,
{
    if s.len() == 0 {
        true
    } else {
        wf_vterm(s[0], d) && wf_vterms(s.drop_first(), d)
    }
}

/// An obligation the encoding can carry, in a term nested `d` deep.
pub open spec fn wf_obligation(o: ObligationV, d: nat) -> bool
    decreases o,
{
    d <= MAX_DEPTH && match o {
        ObligationV::Multi(k, v) => k <= u32::MAX && wf_vterm(v, d + 1),
        ObligationV::Pk(v) => wf_vterm(v, d + 1),
        ObligationV::PkH(v) => wf_vterm(v, d + 1),
        ObligationV::PkAny(v) => wf_vterm(v, d + 1),
        ObligationV::Hashlock(v) => wf_vterm(v, d + 1),
        ObligationV::Attest(v, _) => wf_vterm(v, d + 1),
    }
}

// ---------------------------------------------------------------------------------------------
// Lists, front first
// ---------------------------------------------------------------------------------------------

proof fn lemma_enc_nonempty(v: ValueV, t: BTermV, u: VTermV)
    ensures
        enc_value(v).len() >= 1,
        enc_term(t).len() >= 1,
        enc_vterm(u).len() >= 1,
{
    match v {
        ValueV::Int(n) => assert(enc_value(v) == seq![0u8] + int_be(n)),
        ValueV::Key(k) => assert(enc_value(v) == seq![1u8] + text_field(k)),
        ValueV::Hash(h) => assert(enc_value(v) == seq![2u8] + hash_bytes(h)),
        ValueV::Bytes(b) => assert(enc_value(v) == seq![3u8] + bytes_field(b)),
        ValueV::Path(ix) => assert(enc_value(v) == seq![4u8] + count_be(ix.len()) + enc_indices(ix)),
        ValueV::List(items) => assert(enc_value(v) == seq![5u8] + count_be(items.len()) + enc_values(items)),
        ValueV::Symbol(x) => assert(enc_value(v) == seq![6u8] + text_field(x)),
        ValueV::Subtree(b) => assert(enc_value(v) == seq![7u8] + enc_term(*b)),
    }
    match t {
        BTermV::Const(b) => {},
        BTermV::And(bs) => assert(enc_term(t) == seq![1u8] + count_be(bs.len()) + enc_terms(bs)),
        BTermV::Or(bs) => assert(enc_term(t) == seq![2u8] + count_be(bs.len()) + enc_terms(bs)),
        BTermV::Thresh(k, bs) => assert(enc_term(t) == seq![3u8] + u32_be(k as u32) + count_be(bs.len()) + enc_terms(bs)),
        BTermV::Not(b) => assert(enc_term(t) == seq![4u8] + enc_term(*b)),
        BTermV::If(c, t1, e) => assert(enc_term(t) == seq![5u8] + enc_term(*c) + enc_term(*t1) + enc_term(*e)),
        BTermV::Match(sc, arms, d) => assert(enc_term(t) == seq![6u8] + enc_vterm(sc) + count_be(arms.len()) + enc_arms(arms) + enc_term(*d)),
        BTermV::Cmp(o, a, b) => assert(enc_term(t) == seq![7u8, comparison_id(o)] + enc_vterm(a) + enc_vterm(b)),
        BTermV::State(pr, args) => assert(enc_term(t) == seq![8u8] + u16_be(state_pred_id(pr)) + count_be(args.len()) + enc_vterms(args)),
        BTermV::Prove(o) => assert(enc_term(t) == seq![9u8] + enc_obligation(o)),
    }
    match u {
        VTermV::Lit(x) => assert(enc_vterm(u) == seq![0u8] + enc_value(x)),
        VTermV::Var(n) => assert(enc_vterm(u) == seq![1u8] + text_field(n)),
        VTermV::Op(f, args) => assert(enc_vterm(u) == seq![2u8] + u16_be(value_fn_id(f)) + count_be(args.len()) + enc_vterms(args)),
    }
}

pub(crate) proof fn lemma_enc_values_cons(s: Seq<ValueV>)
    requires
        s.len() > 0,
    ensures
        enc_values(s) == enc_value(s[0]) + enc_values(s.drop_first()),
        enc_values(s).len() >= s.len(),
    decreases s.len(),
{
    lemma_enc_nonempty(s.last(), BTermV::Const(true), VTermV::Var(Seq::empty()));
    if s.len() == 1 {
        assert(s.drop_last() =~= Seq::<ValueV>::empty());
        assert(s.drop_first() =~= Seq::<ValueV>::empty());
        assert(enc_values(s) =~= enc_value(s[0]) + enc_values(s.drop_first()));
    } else {
        lemma_enc_values_cons(s.drop_last());
        assert(s.drop_last().drop_first() =~= s.drop_first().drop_last());
        assert(s.drop_first().last() == s.last());
        assert(enc_values(s) =~= enc_value(s[0]) + enc_values(s.drop_first()));
    }
}

pub(crate) proof fn lemma_enc_terms_cons(s: Seq<BTermV>)
    requires
        s.len() > 0,
    ensures
        enc_terms(s) == enc_term(s[0]) + enc_terms(s.drop_first()),
        enc_terms(s).len() >= s.len(),
    decreases s.len(),
{
    lemma_enc_nonempty(ValueV::Int(0), s.last(), VTermV::Var(Seq::empty()));
    if s.len() == 1 {
        assert(s.drop_last() =~= Seq::<BTermV>::empty());
        assert(s.drop_first() =~= Seq::<BTermV>::empty());
        assert(enc_terms(s) =~= enc_term(s[0]) + enc_terms(s.drop_first()));
    } else {
        lemma_enc_terms_cons(s.drop_last());
        assert(s.drop_last().drop_first() =~= s.drop_first().drop_last());
        assert(s.drop_first().last() == s.last());
        assert(enc_terms(s) =~= enc_term(s[0]) + enc_terms(s.drop_first()));
    }
}

pub(crate) proof fn lemma_enc_vterms_cons(s: Seq<VTermV>)
    requires
        s.len() > 0,
    ensures
        enc_vterms(s) == enc_vterm(s[0]) + enc_vterms(s.drop_first()),
        enc_vterms(s).len() >= s.len(),
    decreases s.len(),
{
    lemma_enc_nonempty(ValueV::Int(0), BTermV::Const(true), s.last());
    if s.len() == 1 {
        assert(s.drop_last() =~= Seq::<VTermV>::empty());
        assert(s.drop_first() =~= Seq::<VTermV>::empty());
        assert(enc_vterms(s) =~= enc_vterm(s[0]) + enc_vterms(s.drop_first()));
    } else {
        lemma_enc_vterms_cons(s.drop_last());
        assert(s.drop_last().drop_first() =~= s.drop_first().drop_last());
        assert(s.drop_first().last() == s.last());
        assert(enc_vterms(s) =~= enc_vterm(s[0]) + enc_vterms(s.drop_first()));
    }
}

pub(crate) proof fn lemma_enc_arms_cons(s: Seq<(Seq<char>, BTermV)>)
    requires
        s.len() > 0,
    ensures
        enc_arms(s) == text_field(s[0].0) + enc_term(s[0].1) + enc_arms(s.drop_first()),
        enc_arms(s).len() >= s.len(),
    decreases s.len(),
{
    lemma_enc_nonempty(ValueV::Int(0), s.last().1, VTermV::Var(Seq::empty()));
    lemma_be_bytes_len(encode_utf8(s.last().0).len() as u32 as int, 4);
    if s.len() == 1 {
        assert(s.drop_last() =~= Seq::<(Seq<char>, BTermV)>::empty());
        assert(s.drop_first() =~= Seq::<(Seq<char>, BTermV)>::empty());
        assert(enc_arms(s) =~= text_field(s[0].0) + enc_term(s[0].1) + enc_arms(s.drop_first()));
    } else {
        lemma_enc_arms_cons(s.drop_last());
        assert(s.drop_last().drop_first() =~= s.drop_first().drop_last());
        assert(s.drop_first().last() == s.last());
        assert(enc_arms(s) =~= text_field(s[0].0) + enc_term(s[0].1) + enc_arms(s.drop_first()));
    }
}

proof fn lemma_enc_indices_cons(s: Seq<usize>)
    requires
        s.len() > 0,
    ensures
        enc_indices(s) == u32_be(s[0] as u32) + enc_indices(s.drop_first()),
    decreases s.len(),
{
    if s.len() == 1 {
        assert(s.drop_last() =~= Seq::<usize>::empty());
        assert(s.drop_first() =~= Seq::<usize>::empty());
        assert(enc_indices(s) =~= u32_be(s[0] as u32) + enc_indices(s.drop_first()));
    } else {
        lemma_enc_indices_cons(s.drop_last());
        assert(s.drop_last().drop_first() =~= s.drop_first().drop_last());
        assert(s.drop_first().last() == s.last());
        assert(enc_indices(s) =~= u32_be(s[0] as u32) + enc_indices(s.drop_first()));
    }
}


proof fn lemma_occurs_split3(s: Seq<u8>, p: int, a: Seq<u8>, b: Seq<u8>, c: Seq<u8>)
    requires
        occurs(s, p, a + b + c),
    ensures
        occurs(s, p, a),
        occurs(s, p + a.len(), b),
        occurs(s, p + a.len() + b.len(), c),
{
    lemma_occurs_split(s, p, a + b, c);
    lemma_occurs_split(s, p, a, b);
}

proof fn lemma_occurs_split4(s: Seq<u8>, p: int, a: Seq<u8>, b: Seq<u8>, c: Seq<u8>, e: Seq<u8>)
    requires
        occurs(s, p, a + b + c + e),
    ensures
        occurs(s, p, a),
        occurs(s, p + a.len(), b),
        occurs(s, p + a.len() + b.len(), c),
        occurs(s, p + a.len() + b.len() + c.len(), e),
{
    lemma_occurs_split(s, p, a + b + c, e);
    lemma_occurs_split3(s, p, a, b, c);
}

proof fn lemma_count_len(n: nat)
    ensures
        count_be(n).len() == 4,
{
    lemma_be_bytes_len((n as u32) as int, 4);
}

proof fn lemma_fixed_lens(x: u16, y: u32, z: u64, n: i128)
    ensures
        u16_be(x).len() == 2,
        u32_be(y).len() == 4,
        u64_be(z).len() == 8,
        int_be(n).len() == 16,
{
    lemma_be_bytes_len(x as int, 2);
    lemma_be_bytes_len(y as int, 4);
    lemma_be_bytes_len(z as int, 8);
    lemma_be_bytes_len((n as u128) as int, 16);
}

proof fn lemma_enc_indices_len(ix: Seq<usize>)
    ensures
        enc_indices(ix).len() == 4 * ix.len(),
    decreases ix.len(),
{
    if ix.len() > 0 {
        lemma_enc_indices_len(ix.drop_last());
        lemma_fixed_lens(0, ix.last() as u32, 0, 0);
    }
}

proof fn lemma_value_fn_code(f: crate::registry::ValueFn)
    ensures
        value_fn_of_id(value_fn_id(f)) == Some(f),
{
    let g = choose|g: crate::registry::ValueFn| value_fn_id(g) == value_fn_id(f);
    assert(value_fn_id(g) == value_fn_id(f));
}

proof fn lemma_state_pred_code(p: crate::registry::StatePred)
    ensures
        state_pred_of_id(state_pred_id(p)) == Some(p),
{
    let g = choose|g: crate::registry::StatePred| state_pred_id(g) == state_pred_id(p);
    assert(state_pred_id(g) == state_pred_id(p));
}

proof fn lemma_read_indices(ix: Seq<usize>, s: Seq<u8>, p: int)
    requires
        forall|i: int| 0 <= i < ix.len() ==> #[trigger] ix[i] <= u32::MAX,
        occurs(s, p, enc_indices(ix)),
    ensures
        rd_indices(s, p, ix.len()) == Ok::<(Seq<usize>, int), DecodeErrorV>((ix, p + 4 * ix.len())),
    decreases ix.len(),
{
    if ix.len() > 0 {
        lemma_enc_indices_cons(ix);
        lemma_fixed_lens(0, ix[0] as u32, 0, 0);
        lemma_occurs_split(s, p, u32_be(ix[0] as u32), enc_indices(ix.drop_first()));
        lemma_rd_u32(s, p, ix[0] as u32);
        assert forall|i: int| 0 <= i < ix.drop_first().len() implies #[trigger] ix.drop_first()[i] <= u32::MAX by {
            assert(ix.drop_first()[i] == ix[i + 1]);
        }
        lemma_read_indices(ix.drop_first(), s, p + 4);
        assert(seq![(ix[0] as u32) as usize] + ix.drop_first() =~= ix);
    } else {
        assert(ix =~= Seq::<usize>::empty());
    }
}

/// Reading a well-formed value's encoding gives the value back, and stops right after it.
pub proof fn lemma_read_value(v: ValueV, d: nat, s: Seq<u8>, p: int)
    requires
        wf_value(v, d),
        occurs(s, p, enc_value(v)),
    ensures
        rd_value(s, p, d) == Ok::<(ValueV, int), DecodeErrorV>((v, p + enc_value(v).len())),
    decreases v, 1nat,
{
    lemma_fixed_lens(0, 0, 0, 0);
    match v {
        ValueV::Int(n) => {
            lemma_fixed_lens(0, 0, 0, n);
            lemma_occurs_split(s, p, seq![0u8], int_be(n));
            lemma_rd_u8(s, p, 0);
            lemma_rd_int(s, p + 1, n);
        },
        ValueV::Key(k) => {
            lemma_count_len(encode_utf8(k).len());
            lemma_occurs_split(s, p, seq![1u8], text_field(k));
            lemma_rd_u8(s, p, 1);
            lemma_rd_text(s, p + 1, k, DecodeErrorV::BadKey);
        },
        ValueV::Hash(h) => {
            lemma_occurs_split(s, p, seq![2u8], hash_bytes(h));
            lemma_rd_u8(s, p, 2);
            lemma_rd_hash(s, p + 1, h);
        },
        ValueV::Bytes(b) => {
            lemma_count_len(b.len());
            lemma_occurs_split(s, p, seq![3u8], bytes_field(b));
            lemma_rd_u8(s, p, 3);
            lemma_rd_bytes(s, p + 1, b);
        },
        ValueV::Path(ix) => {
            lemma_count_len(ix.len());
            lemma_enc_indices_len(ix);
            lemma_occurs_split3(s, p, seq![4u8], count_be(ix.len()), enc_indices(ix));
            lemma_rd_u8(s, p, 4);
            lemma_rd_count(s, p + 1, ix.len());
            lemma_read_indices(ix, s, p + 5);
        },
        ValueV::List(items) => {
            lemma_count_len(items.len());
            if items.len() > 0 {
                lemma_enc_values_cons(items);
            }
            lemma_occurs_split3(s, p, seq![5u8], count_be(items.len()), enc_values(items));
            lemma_rd_u8(s, p, 5);
            lemma_rd_count(s, p + 1, items.len());
            lemma_read_values(items, d + 1, s, p + 5);
        },
        ValueV::Symbol(x) => {
            lemma_count_len(encode_utf8(x).len());
            lemma_occurs_split(s, p, seq![6u8], text_field(x));
            lemma_rd_u8(s, p, 6);
            lemma_rd_text(s, p + 1, x, DecodeErrorV::BadUtf8);
        },
        ValueV::Subtree(t) => {
            lemma_occurs_split(s, p, seq![7u8], enc_term(*t));
            lemma_rd_u8(s, p, 7);
            lemma_read_term(*t, d + 1, s, p + 1);
        },
    }
}

proof fn lemma_read_values(items: Seq<ValueV>, d: nat, s: Seq<u8>, p: int)
    requires
        wf_values(items, d),
        occurs(s, p, enc_values(items)),
    ensures
        rd_values(s, p, items.len(), d) == Ok::<(Seq<ValueV>, int), DecodeErrorV>(
            (items, p + enc_values(items).len()),
        ),
    decreases items, 1nat,
{
    if items.len() > 0 {
        lemma_enc_values_cons(items);
        lemma_occurs_split(s, p, enc_value(items[0]), enc_values(items.drop_first()));
        lemma_read_value(items[0], d, s, p);
        lemma_read_values(items.drop_first(), d, s, p + enc_value(items[0]).len());
        assert(seq![items[0]] + items.drop_first() =~= items);
    } else {
        assert(items =~= Seq::<ValueV>::empty());
    }
}

/// An `if` node reads back from its tag and its three parts.
#[verifier::spinoff_prover]
proof fn lemma_read_if_parts(t: BTermV, d: nat, s: Seq<u8>, p: int)
    requires
        d <= MAX_DEPTH,
        t matches BTermV::If(c, t1, e) && rd_u8(s, p) == Ok::<(u8, int), DecodeErrorV>((5u8, p + 1))
            && rd_term(s, p + 1, d + 1) == Ok::<(BTermV, int), DecodeErrorV>(
            (*c, p + 1 + enc_term(*c).len()),
        ) && rd_term(s, p + 1 + enc_term(*c).len(), d + 1) == Ok::<(BTermV, int), DecodeErrorV>(
            (*t1, p + 1 + enc_term(*c).len() + enc_term(*t1).len()),
        ) && rd_term(s, p + 1 + enc_term(*c).len() + enc_term(*t1).len(), d + 1) == Ok::<
            (BTermV, int),
            DecodeErrorV,
        >((*e, p + 1 + enc_term(*c).len() + enc_term(*t1).len() + enc_term(*e).len())),
    ensures
        rd_term(s, p, d) == Ok::<(BTermV, int), DecodeErrorV>((t, p + enc_term(t).len())),
{
}

/// A `match` node reads back from its tag and its parts.
#[verifier::spinoff_prover]
proof fn lemma_read_match_parts(t: BTermV, d: nat, s: Seq<u8>, p: int)
    requires
        d <= MAX_DEPTH,
        t matches BTermV::Match(sc, arms, df) && rd_u8(s, p) == Ok::<(u8, int), DecodeErrorV>(
            (6u8, p + 1),
        ) && rd_vterm(s, p + 1, d + 1) == Ok::<(VTermV, int), DecodeErrorV>(
            (sc, p + 1 + enc_vterm(sc).len()),
        ) && rd_count(s, p + 1 + enc_vterm(sc).len()) == Ok::<(nat, int), DecodeErrorV>(
            (arms.len(), p + 5 + enc_vterm(sc).len()),
        ) && rd_arms(s, p + 5 + enc_vterm(sc).len(), arms.len(), d + 1) == Ok::<
            (Seq<(Seq<char>, BTermV)>, int),
            DecodeErrorV,
        >((arms, p + 5 + enc_vterm(sc).len() + enc_arms(arms).len())) && rd_term(
            s,
            p + 5 + enc_vterm(sc).len() + enc_arms(arms).len(),
            d + 1,
        ) == Ok::<(BTermV, int), DecodeErrorV>(
            (*df, p + 5 + enc_vterm(sc).len() + enc_arms(arms).len() + enc_term(*df).len()),
        ),
    ensures
        rd_term(s, p, d) == Ok::<(BTermV, int), DecodeErrorV>((t, p + enc_term(t).len())),
{
    lemma_count_len(t->Match_1.len());
}

/// Reading a well-formed term's encoding gives the term back, and stops right after it.
#[verifier::rlimit(100)]
#[verifier::spinoff_prover]
pub proof fn lemma_read_term(t: BTermV, d: nat, s: Seq<u8>, p: int)
    requires
        wf_term(t, d),
        occurs(s, p, enc_term(t)),
    ensures
        rd_term(s, p, d) == Ok::<(BTermV, int), DecodeErrorV>((t, p + enc_term(t).len())),
    decreases t, 1nat,
{
    lemma_fixed_lens(0, 0, 0, 0);
    match t {
        BTermV::Const(b) => {
            let x: u8 = if b { 1 } else { 0 };
            assert(s.subrange(p, p + 2) == seq![0u8, x]);
            assert(s[p] == s.subrange(p, p + 2)[0]);
            assert(s[p + 1] == s.subrange(p, p + 2)[1]);
        },
        BTermV::And(bs) => {
            lemma_count_len(bs.len());
            if bs.len() > 0 {
                lemma_enc_terms_cons(bs);
            }
            lemma_occurs_split3(s, p, seq![1u8], count_be(bs.len()), enc_terms(bs));
            lemma_rd_u8(s, p, 1);
            lemma_rd_count(s, p + 1, bs.len());
            lemma_read_terms(bs, d + 1, s, p + 5);
        },
        BTermV::Or(bs) => {
            lemma_count_len(bs.len());
            if bs.len() > 0 {
                lemma_enc_terms_cons(bs);
            }
            lemma_occurs_split3(s, p, seq![2u8], count_be(bs.len()), enc_terms(bs));
            lemma_rd_u8(s, p, 2);
            lemma_rd_count(s, p + 1, bs.len());
            lemma_read_terms(bs, d + 1, s, p + 5);
        },
        BTermV::Thresh(k, bs) => {
            lemma_count_len(bs.len());
            lemma_fixed_lens(0, k as u32, 0, 0);
            if bs.len() > 0 {
                lemma_enc_terms_cons(bs);
            }
            lemma_occurs_split4(s, p, seq![3u8], u32_be(k as u32), count_be(bs.len()), enc_terms(bs));
            lemma_rd_u8(s, p, 3);
            lemma_rd_u32(s, p + 1, k as u32);
            lemma_rd_count(s, p + 5, bs.len());
            lemma_read_terms(bs, d + 1, s, p + 9);
        },
        BTermV::Not(b) => {
            lemma_occurs_split(s, p, seq![4u8], enc_term(*b));
            lemma_rd_u8(s, p, 4);
            lemma_read_term(*b, d + 1, s, p + 1);
        },
        BTermV::If(..) => lemma_read_term_if(t, d, s, p),
        BTermV::Match(..) => lemma_read_term_match(t, d, s, p),
        _ => lemma_read_term_rest(t, d, s, p),
    }
}

/// [`lemma_read_term`] for a `if` node.
#[verifier::rlimit(100)]
#[verifier::spinoff_prover]
proof fn lemma_read_term_if(t: BTermV, d: nat, s: Seq<u8>, p: int)
    requires
        wf_term(t, d),
        occurs(s, p, enc_term(t)),
        t is If,
    ensures
        rd_term(s, p, d) == Ok::<(BTermV, int), DecodeErrorV>((t, p + enc_term(t).len())),
    decreases t, 0nat,
{
    lemma_fixed_lens(0, 0, 0, 0);
    match t {
        BTermV::If(c, t1, e) => {
            lemma_occurs_split4(s, p, seq![5u8], enc_term(*c), enc_term(*t1), enc_term(*e));
            lemma_rd_u8(s, p, 5);
            lemma_read_term(*c, d + 1, s, p + 1);
            lemma_read_term(*t1, d + 1, s, p + 1 + enc_term(*c).len());
            lemma_read_term(*e, d + 1, s, p + 1 + enc_term(*c).len() + enc_term(*t1).len());
            lemma_read_if_parts(t, d, s, p);
        },
        _ => {},
    }
}

/// [`lemma_read_term`] for a `match` node.
#[verifier::rlimit(100)]
#[verifier::spinoff_prover]
proof fn lemma_read_term_match(t: BTermV, d: nat, s: Seq<u8>, p: int)
    requires
        wf_term(t, d),
        occurs(s, p, enc_term(t)),
        t is Match,
    ensures
        rd_term(s, p, d) == Ok::<(BTermV, int), DecodeErrorV>((t, p + enc_term(t).len())),
    decreases t, 0nat,
{
    lemma_fixed_lens(0, 0, 0, 0);
    match t {
        BTermV::Match(sc, arms, df) => {
            lemma_count_len(arms.len());
            if arms.len() > 0 {
                lemma_enc_arms_cons(arms);
            }
            let a = seq![6u8];
            let b = enc_vterm(sc);
            let c = count_be(arms.len());
            let e = enc_arms(arms);
            let f = enc_term(*df);
            lemma_occurs_split(s, p, a + b + c + e, f);
            lemma_occurs_split4(s, p, a, b, c, e);
            lemma_rd_u8(s, p, 6);
            lemma_read_vterm(sc, d + 1, s, p + 1);
            lemma_rd_count(s, p + 1 + b.len(), arms.len());
            lemma_read_arms(arms, d + 1, s, p + 5 + b.len());
            lemma_read_term(*df, d + 1, s, p + 5 + b.len() + e.len());
            lemma_read_match_parts(t, d, s, p);
        },
        _ => {},
    }
}

/// [`lemma_read_term`] for comparisons, state predicates and obligations.
#[verifier::rlimit(100)]
#[verifier::spinoff_prover]
proof fn lemma_read_term_rest(t: BTermV, d: nat, s: Seq<u8>, p: int)
    requires
        wf_term(t, d),
        occurs(s, p, enc_term(t)),
        t is Cmp || t is State || t is Prove,
    ensures
        rd_term(s, p, d) == Ok::<(BTermV, int), DecodeErrorV>((t, p + enc_term(t).len())),
    decreases t, 0nat,
{
    lemma_fixed_lens(0, 0, 0, 0);
    match t {
        BTermV::Cmp(o, a, b) => {
            let head = seq![7u8, comparison_id(o)];
            assert(s.subrange(p, p + 2) == head) by {
                lemma_occurs_split3(s, p, head, enc_vterm(a), enc_vterm(b));
            }
            lemma_occurs_split3(s, p, head, enc_vterm(a), enc_vterm(b));
            assert(s[p] == s.subrange(p, p + 2)[0]);
            assert(s[p + 1] == s.subrange(p, p + 2)[1]);
            lemma_read_vterm(a, d + 1, s, p + 2);
            lemma_read_vterm(b, d + 1, s, p + 2 + enc_vterm(a).len());
        },
        BTermV::State(pr, args) => {
            lemma_count_len(args.len());
            lemma_fixed_lens(state_pred_id(pr), 0, 0, 0);
            if args.len() > 0 {
                lemma_enc_vterms_cons(args);
            }
            lemma_occurs_split4(s, p, seq![8u8], u16_be(state_pred_id(pr)), count_be(args.len()), enc_vterms(args));
            lemma_rd_u8(s, p, 8);
            lemma_rd_u16(s, p + 1, state_pred_id(pr));
            lemma_state_pred_code(pr);
            lemma_rd_count(s, p + 3, args.len());
            lemma_read_vterms(args, d + 1, s, p + 7);
        },
        BTermV::Prove(o) => {
            lemma_occurs_split(s, p, seq![9u8], enc_obligation(o));
            lemma_rd_u8(s, p, 9);
            lemma_read_obligation(o, d, s, p + 1);
        },
        _ => {},
    }
}

proof fn lemma_read_terms(items: Seq<BTermV>, d: nat, s: Seq<u8>, p: int)
    requires
        wf_terms(items, d),
        occurs(s, p, enc_terms(items)),
    ensures
        rd_terms(s, p, items.len(), d) == Ok::<(Seq<BTermV>, int), DecodeErrorV>(
            (items, p + enc_terms(items).len()),
        ),
    decreases items, 1nat,
{
    if items.len() > 0 {
        lemma_enc_terms_cons(items);
        lemma_occurs_split(s, p, enc_term(items[0]), enc_terms(items.drop_first()));
        lemma_read_term(items[0], d, s, p);
        lemma_read_terms(items.drop_first(), d, s, p + enc_term(items[0]).len());
        assert(seq![items[0]] + items.drop_first() =~= items);
    } else {
        assert(items =~= Seq::<BTermV>::empty());
    }
}

proof fn lemma_read_arms(items: Seq<(Seq<char>, BTermV)>, d: nat, s: Seq<u8>, p: int)
    requires
        wf_arms(items, d),
        occurs(s, p, enc_arms(items)),
    ensures
        rd_arms(s, p, items.len(), d) == Ok::<(Seq<(Seq<char>, BTermV)>, int), DecodeErrorV>(
            (items, p + enc_arms(items).len()),
        ),
    decreases items, 1nat,
{
    if items.len() > 0 {
        lemma_enc_arms_cons(items);
        let a = text_field(items[0].0);
        let b = enc_term(items[0].1);
        lemma_count_len(encode_utf8(items[0].0).len());
        lemma_occurs_split3(s, p, a, b, enc_arms(items.drop_first()));
        lemma_rd_text(s, p, items[0].0, DecodeErrorV::BadUtf8);
        lemma_read_term(items[0].1, d, s, p + a.len());
        lemma_read_arms(items.drop_first(), d, s, p + a.len() + b.len());
        assert(seq![(items[0].0, items[0].1)] + items.drop_first() =~= items);
    } else {
        assert(items =~= Seq::<(Seq<char>, BTermV)>::empty());
    }
}

/// Reading a well-formed value term's encoding gives it back, and stops right after it.
pub proof fn lemma_read_vterm(t: VTermV, d: nat, s: Seq<u8>, p: int)
    requires
        wf_vterm(t, d),
        occurs(s, p, enc_vterm(t)),
    ensures
        rd_vterm(s, p, d) == Ok::<(VTermV, int), DecodeErrorV>((t, p + enc_vterm(t).len())),
    decreases t, 1nat,
{
    lemma_fixed_lens(0, 0, 0, 0);
    match t {
        VTermV::Lit(v) => {
            lemma_occurs_split(s, p, seq![0u8], enc_value(v));
            lemma_rd_u8(s, p, 0);
            lemma_read_value(v, d + 1, s, p + 1);
        },
        VTermV::Var(n) => {
            lemma_count_len(encode_utf8(n).len());
            lemma_occurs_split(s, p, seq![1u8], text_field(n));
            lemma_rd_u8(s, p, 1);
            lemma_rd_text(s, p + 1, n, DecodeErrorV::BadUtf8);
        },
        VTermV::Op(f, args) => {
            lemma_count_len(args.len());
            lemma_fixed_lens(value_fn_id(f), 0, 0, 0);
            if args.len() > 0 {
                lemma_enc_vterms_cons(args);
            }
            lemma_occurs_split4(s, p, seq![2u8], u16_be(value_fn_id(f)), count_be(args.len()), enc_vterms(args));
            lemma_rd_u8(s, p, 2);
            lemma_rd_u16(s, p + 1, value_fn_id(f));
            lemma_value_fn_code(f);
            lemma_rd_count(s, p + 3, args.len());
            lemma_read_vterms(args, d + 1, s, p + 7);
        },
    }
}

proof fn lemma_read_vterms(items: Seq<VTermV>, d: nat, s: Seq<u8>, p: int)
    requires
        wf_vterms(items, d),
        occurs(s, p, enc_vterms(items)),
    ensures
        rd_vterms(s, p, items.len(), d) == Ok::<(Seq<VTermV>, int), DecodeErrorV>(
            (items, p + enc_vterms(items).len()),
        ),
    decreases items, 1nat,
{
    if items.len() > 0 {
        lemma_enc_vterms_cons(items);
        lemma_occurs_split(s, p, enc_vterm(items[0]), enc_vterms(items.drop_first()));
        lemma_read_vterm(items[0], d, s, p);
        lemma_read_vterms(items.drop_first(), d, s, p + enc_vterm(items[0]).len());
        assert(seq![items[0]] + items.drop_first() =~= items);
    } else {
        assert(items =~= Seq::<VTermV>::empty());
    }
}

#[verifier::rlimit(100)]
#[verifier::spinoff_prover]
proof fn lemma_read_obligation(o: ObligationV, d: nat, s: Seq<u8>, p: int)
    requires
        wf_obligation(o, d),
        occurs(s, p, enc_obligation(o)),
    ensures
        rd_obligation(s, p, d) == Ok::<(ObligationV, int), DecodeErrorV>(
            (o, p + enc_obligation(o).len()),
        ),
    decreases o, 1nat,
{
    lemma_fixed_lens(0, 0, 0, 0);
    match o {
        ObligationV::Pk(v) => {
            lemma_occurs_split(s, p, u16_be(0), enc_vterm(v));
            lemma_rd_u16(s, p, 0);
            lemma_read_vterm(v, d + 1, s, p + 2);
        },
        ObligationV::PkH(v) => {
            lemma_fixed_lens(1, 0, 0, 0);
            lemma_occurs_split(s, p, u16_be(1), enc_vterm(v));
            lemma_rd_u16(s, p, 1);
            lemma_read_vterm(v, d + 1, s, p + 2);
        },
        ObligationV::PkAny(v) => {
            lemma_fixed_lens(2, 0, 0, 0);
            lemma_occurs_split(s, p, u16_be(2), enc_vterm(v));
            lemma_rd_u16(s, p, 2);
            lemma_read_vterm(v, d + 1, s, p + 2);
        },
        ObligationV::Multi(k, v) => {
            lemma_fixed_lens(3, k as u32, 0, 0);
            lemma_occurs_split3(s, p, u16_be(3), u32_be(k as u32), enc_vterm(v));
            lemma_rd_u16(s, p, 3);
            lemma_rd_u32(s, p + 2, k as u32);
            lemma_read_vterm(v, d + 1, s, p + 6);
        },
        ObligationV::Hashlock(v) => {
            lemma_fixed_lens(4, 0, 0, 0);
            lemma_occurs_split(s, p, u16_be(4), enc_vterm(v));
            lemma_rd_u16(s, p, 4);
            lemma_read_vterm(v, d + 1, s, p + 2);
        },
        ObligationV::Attest(v, sc) => {
            lemma_fixed_lens(5, 0, 0, 0);
            lemma_occurs_split3(s, p, u16_be(5), enc_vterm(v), enc_schema(sc));
            lemma_rd_u16(s, p, 5);
            lemma_read_vterm(v, d + 1, s, p + 2);
            match sc {
                Schema::PriceWithinBps { tolerance_bps } => {
                    lemma_fixed_lens(0, tolerance_bps, 0, 0);
                    let q = p + 2 + enc_vterm(v).len();
                    lemma_occurs_split(s, q, u16_be(0), u32_be(tolerance_bps));
                    lemma_rd_u16(s, q, 0);
                    lemma_rd_u32(s, q + 2, tolerance_bps);
                },
            }
        },
    }
}


/// Named entries the encoding can carry: canonical names in strictly increasing order, each
/// after `prev` when there is one, with well-formed values.
pub open spec fn wf_named(c: Seq<(Seq<char>, ValueV)>, prev: Option<Seq<u8>>) -> bool
    decreases c.len(),
{
    if c.len() == 0 {
        true
    } else {
        let nb = encode_utf8(c[0].0);
        &&& canonical_name(nb)
        &&& text_fits(c[0].0)
        &&& (prev matches Some(pb) ==> bytes_lt(pb, nb))
        &&& wf_value(c[0].1, 0)
        &&& wf_named(c.drop_first(), Some(nb))
    }
}

/// A descriptor the encoding can carry.
pub open spec fn wf_descriptor(c: Seq<(Seq<char>, ValueV)>, body: BTermV) -> bool {
    c.len() <= u32::MAX && wf_named(c, None) && wf_term(body, 0)
}

pub(crate) proof fn lemma_enc_named_cons(s: Seq<(Seq<char>, ValueV)>)
    requires
        s.len() > 0,
    ensures
        enc_named(s) == text_field(s[0].0) + enc_value(s[0].1) + enc_named(s.drop_first()),
        enc_named(s).len() >= s.len(),
    decreases s.len(),
{
    lemma_enc_nonempty(s.last().1, BTermV::Const(true), VTermV::Var(Seq::empty()));
    if s.len() == 1 {
        assert(s.drop_last() =~= Seq::<(Seq<char>, ValueV)>::empty());
        assert(s.drop_first() =~= Seq::<(Seq<char>, ValueV)>::empty());
        assert(enc_named(s) =~= text_field(s[0].0) + enc_value(s[0].1) + enc_named(s.drop_first()));
    } else {
        lemma_enc_named_cons(s.drop_last());
        assert(s.drop_last().drop_first() =~= s.drop_first().drop_last());
        assert(s.drop_first().last() == s.last());
        assert(enc_named(s) =~= text_field(s[0].0) + enc_value(s[0].1) + enc_named(s.drop_first()));
    }
}

#[verifier::spinoff_prover]
proof fn lemma_read_named(c: Seq<(Seq<char>, ValueV)>, prev: Option<Seq<u8>>, s: Seq<u8>, p: int)
    requires
        wf_named(c, prev),
        occurs(s, p, enc_named(c)),
    ensures
        rd_named(s, p, c.len(), prev) == Ok::<(Seq<(Seq<char>, ValueV)>, int), DecodeErrorV>(
            (c, p + enc_named(c).len()),
        ),
    decreases c.len(),
{
    if c.len() > 0 {
        lemma_enc_named_cons(c);
        let a = text_field(c[0].0);
        let b = enc_value(c[0].1);
        lemma_count_len(encode_utf8(c[0].0).len());
        lemma_occurs_split3(s, p, a, b, enc_named(c.drop_first()));
        lemma_rd_text(s, p, c[0].0, DecodeErrorV::BadUtf8);
        lemma_read_value(c[0].1, 0, s, p + a.len());
        lemma_read_named(c.drop_first(), Some(encode_utf8(c[0].0)), s, p + a.len() + b.len());
        assert(seq![(c[0].0, c[0].1)] + c.drop_first() =~= c);
    } else {
        assert(c =~= Seq::<(Seq<char>, ValueV)>::empty());
    }
}

/// Decoding a well-formed descriptor's encoding gives the descriptor back.
#[verifier::spinoff_prover]
#[verifier::rlimit(60)]
pub proof fn lemma_descriptor_round_trip(c: Seq<(Seq<char>, ValueV)>, body: BTermV)
    requires
        wf_descriptor(c, body),
    ensures
        rd_descriptor(enc_descriptor(c, body)) == Ok::<
            (Seq<(Seq<char>, ValueV)>, BTermV),
            DecodeErrorV,
        >((c, body)),
{
    let s = enc_descriptor(c, body);
    let a = seq![1u8];
    let b = count_be(c.len());
    let e = enc_named(c);
    let f = enc_term(body);
    lemma_count_len(c.len());
    if c.len() > 0 {
        lemma_enc_named_cons(c);
    }
    assert(s.subrange(0, s.len() as int) =~= s);
    assert(s =~= a + b + e + f);
    lemma_occurs_split4(s, 0, a, b, e, f);
    lemma_rd_u8(s, 0, 1);
    lemma_rd_count(s, 1, c.len());
    lemma_read_named(c, None, s, 5);
    lemma_read_term(body, 0, s, (5 + e.len()) as int);
}


/// An operation the preimage encoding can carry.
pub open spec fn wf_operation(o: OperationV) -> bool {
    &&& o.deposit_id.len() == 32
    &&& text_fits(o.op_type)
    &&& o.args.len() <= u32::MAX
    &&& wf_named(o.args, None)
}

/// Decoding an operation's signing preimage gives the operation back.
#[verifier::spinoff_prover]
#[verifier::rlimit(60)]
pub proof fn lemma_operation_round_trip(o: OperationV)
    requires
        wf_operation(o),
    ensures
        rd_operation(op_preimage(o)) == Ok::<OperationV, DecodeErrorV>(o),
{
    let s = op_preimage(o);
    let a = seq![1u8];
    let b = o.deposit_id;
    let c = text_field(o.op_type);
    let d = count_be(o.args.len());
    let e = enc_named(o.args);
    let f = u64_be(o.nonce);
    let g = u32_be(o.expiry);
    lemma_count_len(o.args.len());
    lemma_count_len(encode_utf8(o.op_type).len());
    lemma_fixed_lens(0, o.expiry, o.nonce, 0);
    if o.args.len() > 0 {
        lemma_enc_named_cons(o.args);
    }
    let p2: int = 33 + c.len() as int;
    let p4: int = p2 + 4 + e.len() as int;
    assert(s == a + b + c + d + e + f + g);
    assert(s.len() == p4 + 12);
    assert(occurs(s, 0, s)) by {
        assert(s.subrange(0, s.len() as int) =~= s);
    }
    lemma_occurs_split(s, 0, a + b + c + d + e + f, g);
    lemma_occurs_split(s, 0, a + b + c + d + e, f);
    lemma_occurs_split(s, 0, a + b + c + d, e);
    lemma_occurs_split(s, 0, a + b + c, d);
    lemma_occurs_split(s, 0, a + b, c);
    lemma_occurs_split(s, 0, a, b);
    lemma_rd_u8(s, 0, 1);
    assert(rd_version(s) == Ok::<((), int), DecodeErrorV>(((), 1)));
    assert(rd_n(s, 1, 32) == Ok::<(Seq<u8>, int), DecodeErrorV>((b, 33)));
    lemma_rd_text(s, 33, o.op_type, DecodeErrorV::BadUtf8);
    lemma_rd_count(s, p2, o.args.len());
    lemma_read_named(o.args, None, s, p2 + 4);
    lemma_rd_u64(s, p4, o.nonce);
    lemma_rd_u32(s, p4 + 8, o.expiry);
}

/// Distinct well-formed descriptors have distinct encodings, so the descriptor commitment
/// hashes distinct bytes for them.
pub proof fn lemma_descriptor_encoding_injective(
    c1: Seq<(Seq<char>, ValueV)>,
    b1: BTermV,
    c2: Seq<(Seq<char>, ValueV)>,
    b2: BTermV,
)
    requires
        wf_descriptor(c1, b1),
        wf_descriptor(c2, b2),
        enc_descriptor(c1, b1) == enc_descriptor(c2, b2),
    ensures
        c1 == c2,
        b1 == b2,
{
    lemma_descriptor_round_trip(c1, b1);
    lemma_descriptor_round_trip(c2, b2);
}

/// Distinct well-formed operations have distinct signing preimages: a signature over one
/// operation's preimage commits to its deposit, type, arguments, nonce and expiry.
pub proof fn lemma_operation_preimage_injective(a: OperationV, b: OperationV)
    requires
        wf_operation(a),
        wf_operation(b),
        op_preimage(a) == op_preimage(b),
    ensures
        a == b,
{
    lemma_operation_round_trip(a);
    lemma_operation_round_trip(b);
}

// ---------------------------------------------------------------------------------------------
// Snapshots
// ---------------------------------------------------------------------------------------------

/// The name of a registered rolling-window field id.
spec fn field_name(id: u8) -> Seq<char> {
    match rw_field_name(id) {
        Some(n) => n,
        None => Seq::empty(),
    }
}

/// Rolling-window entries `(field id, period, amount)` as the decoder names them.
spec fn named_rolling(e: Seq<(u8, u32, i128)>) -> Seq<((Seq<char>, u32), i128)> {
    Seq::new(e.len(), |i: int| ((field_name(e[i].0), e[i].1), e[i].2))
}

/// The rolling-window entries of registered fields, in order.
pub open spec fn registered_entries(r: Seq<((Seq<char>, u32), i128)>) -> Seq<((Seq<char>, u32), i128)>
    decreases r.len(),
{
    if r.len() == 0 {
        Seq::empty()
    } else {
        let rest = registered_entries(r.drop_last());
        if rw_field_id(r.last().0.0) is Some {
            rest.push(r.last())
        } else {
            rest
        }
    }
}

proof fn lemma_registered_rolling_of_entries(r: Seq<((Seq<char>, u32), i128)>)
    ensures
        registered_rolling(registered_entries(r)) == registered_rolling(r),
    decreases r.len(),
{
    if r.len() > 0 {
        lemma_registered_rolling_of_entries(r.drop_last());
        let rest = registered_entries(r.drop_last());
        if rw_field_id(r.last().0.0) is Some {
            assert(rest.push(r.last()).drop_last() =~= rest);
        }
    }
}

/// The snapshot encoding ignores rolling entries of unregistered fields: a snapshot encodes as
/// the same snapshot with only its registered rolling entries does.
pub proof fn lemma_snapshot_ignores_unregistered(sv: SnapshotV)
    ensures
        enc_snapshot(sv) == enc_snapshot(SnapshotV { rolling: registered_entries(sv.rolling), ..sv }),
{
    lemma_registered_rolling_of_entries(sv.rolling);
}

/// A path the encoding can carry: its length and each index fit a `u32`.
pub open spec fn wf_path(p: Seq<usize>) -> bool {
    p.len() <= u32::MAX && forall|i: int| 0 <= i < p.len() ==> #[trigger] p[i] <= u32::MAX
}

/// A snapshot the encoding can carry: its maps in key order, their sizes and paths fitting
/// their fields.
pub open spec fn wf_snapshot(s: SnapshotV) -> bool {
    &&& keys_sorted::<(String, u32), i128>(s.rolling)
    &&& keys_sorted::<Vec<usize>, i128>(s.cumulative_spent)
    &&& s.rolling.len() <= u32::MAX
    &&& s.cumulative_spent.len() <= u32::MAX
    &&& forall|j: int| 0 <= j < s.cumulative_spent.len() ==> wf_path(#[trigger] s.cumulative_spent[j].0)
}

proof fn lemma_enc_rolling_cons(e: Seq<(u8, u32, i128)>)
    requires
        e.len() > 0,
    ensures
        enc_rolling(e) == seq![e[0].0] + u32_be(e[0].1) + int_be(e[0].2) + enc_rolling(e.drop_first()),
    decreases e.len(),
{
    if e.len() == 1 {
        assert(e.drop_last() =~= Seq::<(u8, u32, i128)>::empty());
        assert(e.drop_first() =~= Seq::<(u8, u32, i128)>::empty());
        assert(enc_rolling(e) =~= seq![e[0].0] + u32_be(e[0].1) + int_be(e[0].2) + enc_rolling(e.drop_first()));
    } else {
        lemma_enc_rolling_cons(e.drop_last());
        assert(e.drop_last().drop_first() =~= e.drop_first().drop_last());
        assert(e.drop_first().last() == e.last());
        assert(enc_rolling(e) =~= seq![e[0].0] + u32_be(e[0].1) + int_be(e[0].2) + enc_rolling(e.drop_first()));
    }
}

proof fn lemma_enc_rolling_len(e: Seq<(u8, u32, i128)>)
    ensures
        enc_rolling(e).len() == 21 * e.len(),
    decreases e.len(),
{
    if e.len() > 0 {
        lemma_enc_rolling_len(e.drop_last());
        lemma_fixed_lens(0, e.last().1, 0, e.last().2);
    }
}

proof fn lemma_enc_cumulative_cons(c: Seq<(Seq<usize>, i128)>)
    requires
        c.len() > 0,
    ensures
        enc_cumulative(c) == count_be(c[0].0.len()) + enc_indices(c[0].0) + int_be(c[0].1)
            + enc_cumulative(c.drop_first()),
    decreases c.len(),
{
    if c.len() == 1 {
        assert(c.drop_last() =~= Seq::<(Seq<usize>, i128)>::empty());
        assert(c.drop_first() =~= Seq::<(Seq<usize>, i128)>::empty());
        assert(enc_cumulative(c) =~= count_be(c[0].0.len()) + enc_indices(c[0].0) + int_be(c[0].1)
            + enc_cumulative(c.drop_first()));
    } else {
        lemma_enc_cumulative_cons(c.drop_last());
        assert(c.drop_last().drop_first() =~= c.drop_first().drop_last());
        assert(c.drop_first().last() == c.last());
        assert(enc_cumulative(c) =~= count_be(c[0].0.len()) + enc_indices(c[0].0) + int_be(c[0].1)
            + enc_cumulative(c.drop_first()));
    }
}

proof fn lemma_enc_cumulative_len(c: Seq<(Seq<usize>, i128)>)
    ensures
        enc_cumulative(c).len() >= 20 * c.len(),
    decreases c.len(),
{
    if c.len() > 0 {
        lemma_enc_cumulative_len(c.drop_last());
        lemma_count_len(c.last().0.len());
        lemma_fixed_lens(0, 0, 0, c.last().1);
    }
}

/// The key of a rolling-window entry.
spec fn rkey(x: (u8, u32, i128)) -> (u8, u32) {
    (x.0, x.1)
}

proof fn lemma_read_rolling(e: Seq<(u8, u32, i128)>, prev: Option<(u8, u32)>, s: Seq<u8>, p: int)
    requires
        forall|i: int| 0 <= i < e.len() ==> rw_field_name(#[trigger] e[i].0) is Some,
        forall|i: int, j: int| 0 <= i < j < e.len() ==> key_lt(rkey(#[trigger] e[i]), rkey(#[trigger] e[j])),
        prev matches Some(k) ==> forall|i: int| 0 <= i < e.len() ==> key_lt(k, rkey(#[trigger] e[i])),
        occurs(s, p, enc_rolling(e)),
    ensures
        rd_rolling(s, p, e.len(), prev) == Ok::<(Seq<((Seq<char>, u32), i128)>, int), DecodeErrorV>(
            (named_rolling(e), p + 21 * e.len()),
        ),
    decreases e.len(),
{
    if e.len() > 0 {
        lemma_enc_rolling_cons(e);
        let x = e[0];
        let t = e.drop_first();
        lemma_fixed_lens(0, x.1, 0, x.2);
        lemma_occurs_split4(s, p, seq![x.0], u32_be(x.1), int_be(x.2), enc_rolling(t));
        lemma_rd_u8(s, p, x.0);
        lemma_rd_u32(s, p + 1, x.1);
        lemma_rd_int(s, p + 5, x.2);
        assert forall|i: int| 0 <= i < t.len() implies rw_field_name(#[trigger] t[i].0) is Some by {
            assert(t[i] == e[i + 1]);
        }
        assert forall|i: int, j: int| 0 <= i < j < t.len() implies key_lt(rkey(#[trigger] t[i]), rkey(#[trigger] t[j])) by {
            assert(t[i] == e[i + 1]);
            assert(t[j] == e[j + 1]);
        }
        assert forall|i: int| 0 <= i < t.len() implies key_lt(rkey(x), rkey(#[trigger] t[i])) by {
            assert(t[i] == e[i + 1]);
        }
        match prev {
            Some(k) => {
                assert(key_lt(k, rkey(e[0])));
            },
            None => {},
        }
        lemma_read_rolling(t, Some(rkey(x)), s, p + 21);
        assert(rw_field_name(x.0) is Some);
        assert(seq![((field_name(x.0), x.1), x.2)] + named_rolling(t) =~= named_rolling(e));
    } else {
        assert(named_rolling(e) =~= Seq::<((Seq<char>, u32), i128)>::empty());
    }
}

proof fn lemma_rw_field_id_name(name: Seq<char>)
    ensures
        rw_field_id(name) matches Some(id) ==> rw_field_name(id) == Some(name),
{
}

proof fn lemma_registered_below(r: Seq<((Seq<char>, u32), i128)>, b: Seq<u8>)
    requires
        forall|j: int| 0 <= j < r.len() ==> bytes_lt(#[trigger] rolling_sort_bytes(r[j].0), b),
    ensures
        forall|i: int| 0 <= i < registered_rolling(r).len() ==> bytes_lt(
            seq![#[trigger] registered_rolling(r)[i].0] + be_bytes(registered_rolling(r)[i].1 as int, 4),
            b,
        ),
    decreases r.len(),
{
    if r.len() > 0 {
        let r0 = r.drop_last();
        assert forall|j: int| 0 <= j < r0.len() implies bytes_lt(#[trigger] rolling_sort_bytes(r0[j].0), b) by {
            assert(r0[j] == r[j]);
        }
        lemma_registered_below(r0, b);
        let e0 = registered_rolling(r0);
        let e = registered_rolling(r);
        assert forall|i: int| 0 <= i < e.len() implies bytes_lt(
            seq![#[trigger] e[i].0] + be_bytes(e[i].1 as int, 4),
            b,
        ) by {
            if i < e0.len() {
                assert(e[i] == e0[i]);
                assert(bytes_lt(seq![e0[i].0] + be_bytes(e0[i].1 as int, 4), b));
            } else {
                assert(bytes_lt(rolling_sort_bytes(r[r.len() - 1].0), b));
            }
        }
    }
}

proof fn lemma_registered(r: Seq<((Seq<char>, u32), i128)>)
    requires
        forall|i: int, j: int|
            0 <= i < j < r.len() ==> bytes_lt(
                #[trigger] rolling_sort_bytes(r[i].0),
                #[trigger] rolling_sort_bytes(r[j].0),
            ),
    ensures
        registered_rolling(r).len() <= r.len(),
        forall|i: int| 0 <= i < registered_rolling(r).len() ==> rw_field_name(#[trigger] registered_rolling(r)[i].0) is Some,
        forall|i: int, j: int| 0 <= i < j < registered_rolling(r).len() ==> key_lt(
            rkey(#[trigger] registered_rolling(r)[i]),
            rkey(#[trigger] registered_rolling(r)[j]),
        ),
        named_rolling(registered_rolling(r)) == registered_entries(r),
    decreases r.len(),
{
    if r.len() == 0 {
        assert(named_rolling(registered_rolling(r)) =~= registered_entries(r));
    } else {
        let r0 = r.drop_last();
        let e0 = registered_rolling(r0);
        let last = r.last();
        assert forall|i: int, j: int| 0 <= i < j < r0.len() implies bytes_lt(
            #[trigger] rolling_sort_bytes(r0[i].0),
            #[trigger] rolling_sort_bytes(r0[j].0),
        ) by {
            assert(r0[i] == r[i]);
            assert(r0[j] == r[j]);
        }
        lemma_registered(r0);
        lemma_rw_field_id_name(last.0.0);
        match rw_field_id(last.0.0) {
            Some(id) => {
                let x = (id, last.0.1, last.1);
                let b = seq![id] + be_bytes(last.0.1 as int, 4);
                assert(rolling_sort_bytes(last.0) == b);
                assert forall|j: int| 0 <= j < r0.len() implies bytes_lt(#[trigger] rolling_sort_bytes(r0[j].0), b) by {
                    assert(r0[j] == r[j]);
                    assert(bytes_lt(rolling_sort_bytes(r[j].0), rolling_sort_bytes(r[r.len() - 1].0)));
                }
                lemma_registered_below(r0, b);
                let e = e0.push(x);
                assert(registered_rolling(r) == e);
                assert forall|i: int, j: int| 0 <= i < j < e.len() implies key_lt(
                    rkey(#[trigger] e[i]),
                    rkey(#[trigger] e[j]),
                ) by {
                    if j == e.len() - 1 {
                        assert(e[i] == e0[i]);
                        lemma_key_bytes(rkey(e0[i]), (id, last.0.1));
                    } else {
                        assert(e[i] == e0[i]);
                        assert(e[j] == e0[j]);
                    }
                }
                assert forall|i: int| 0 <= i < e.len() implies rw_field_name(#[trigger] e[i].0) is Some by {
                    if i < e.len() - 1 {
                        assert(e[i] == e0[i]);
                    }
                }
                assert(named_rolling(e) =~= named_rolling(e0).push(last));
            },
            None => {},
        }
    }
}

proof fn lemma_read_cumulative(c: Seq<(Seq<usize>, i128)>, prev: Option<Seq<usize>>, s: Seq<u8>, p: int)
    requires
        forall|i: int| 0 <= i < c.len() ==> wf_path(#[trigger] c[i].0),
        forall|i: int, j: int| 0 <= i < j < c.len() ==> path_lt(#[trigger] c[i].0, #[trigger] c[j].0),
        prev matches Some(k) ==> forall|i: int| 0 <= i < c.len() ==> path_lt(k, #[trigger] c[i].0),
        occurs(s, p, enc_cumulative(c)),
    ensures
        rd_cumulative(s, p, c.len(), prev) == Ok::<(Seq<(Seq<usize>, i128)>, int), DecodeErrorV>(
            (c, p + enc_cumulative(c).len()),
        ),
    decreases c.len(),
{
    if c.len() > 0 {
        lemma_enc_cumulative_cons(c);
        let x = c[0];
        let t = c.drop_first();
        lemma_count_len(x.0.len());
        lemma_enc_indices_len(x.0);
        lemma_fixed_lens(0, 0, 0, x.1);
        let ilen = enc_indices(x.0).len() as int;
        lemma_occurs_split4(s, p, count_be(x.0.len()), enc_indices(x.0), int_be(x.1), enc_cumulative(t));
        assert(wf_path(c[0].0));
        lemma_rd_count(s, p, x.0.len());
        lemma_read_indices(x.0, s, p + 4);
        lemma_rd_int(s, p + 4 + ilen, x.1);
        assert forall|i: int| 0 <= i < t.len() implies wf_path(#[trigger] t[i].0) by {
            assert(t[i] == c[i + 1]);
        }
        assert forall|i: int, j: int| 0 <= i < j < t.len() implies path_lt(#[trigger] t[i].0, #[trigger] t[j].0) by {
            assert(t[i] == c[i + 1]);
            assert(t[j] == c[j + 1]);
        }
        assert forall|i: int| 0 <= i < t.len() implies path_lt(x.0, #[trigger] t[i].0) by {
            assert(t[i] == c[i + 1]);
        }
        match prev {
            Some(k) => {
                assert(path_lt(k, c[0].0));
            },
            None => {},
        }
        lemma_read_cumulative(t, Some(x.0), s, p + 20 + ilen);
        assert(seq![x] + t =~= c);
    } else {
        assert(c =~= Seq::<(Seq<usize>, i128)>::empty());
    }
}

/// Decoding a well-formed snapshot's encoding gives the snapshot back, less the rolling-window
/// entries of unregistered fields, which the encoding leaves out.
#[verifier::spinoff_prover]
#[verifier::rlimit(60)]
pub proof fn lemma_snapshot_round_trip(sv: SnapshotV)
    requires
        wf_snapshot(sv),
    ensures
        rd_snapshot(enc_snapshot(sv)) == Ok::<SnapshotV, DecodeErrorV>(
            SnapshotV {
                balance: sv.balance,
                blocks_since_activity: sv.blocks_since_activity,
                blocks_since_open: sv.blocks_since_open,
                blocks_since_received: sv.blocks_since_received,
                height: sv.height,
                rolling: registered_entries(sv.rolling),
                cumulative_spent: sv.cumulative_spent,
            },
        ),
{
    let reg = registered_rolling(sv.rolling);
    let cs = sv.cumulative_spent;
    lemma_rolling_sorted(sv.rolling);
    lemma_registered(sv.rolling);
    lemma_paths_sorted(cs);
    assert forall|i: int, j: int| 0 <= i < j < cs.len() implies path_lt(#[trigger] cs[i].0, #[trigger] cs[j].0) by {
        lemma_path_bytes(cs[i].0, cs[j].0);
        assert(bytes_lt(path_sort_bytes(cs[i].0), path_sort_bytes(cs[j].0)));
    }
    let s = enc_snapshot(sv);
    let a = seq![1u8] + int_be(sv.balance) + u32_be(sv.blocks_since_activity) + u32_be(sv.blocks_since_open)
        + u32_be(sv.blocks_since_received) + u32_be(sv.height);
    let b = count_be(reg.len());
    let e = enc_rolling(reg);
    let f = count_be(cs.len());
    let g = enc_cumulative(cs);
    lemma_fixed_lens(0, sv.blocks_since_activity, 0, sv.balance);
    lemma_fixed_lens(0, sv.blocks_since_open, 0, 0);
    lemma_fixed_lens(0, sv.blocks_since_received, 0, 0);
    lemma_fixed_lens(0, sv.height, 0, 0);
    lemma_count_len(reg.len());
    lemma_count_len(cs.len());
    lemma_enc_rolling_len(reg);
    lemma_enc_cumulative_len(cs);
    assert(s == a + b + e + f + g);
    assert(a.len() == 33);
    assert(occurs(s, 0, s)) by {
        assert(s.subrange(0, s.len() as int) =~= s);
    }
    lemma_occurs_split(s, 0, a + b + e + f, g);
    lemma_occurs_split(s, 0, a + b + e, f);
    lemma_occurs_split(s, 0, a + b, e);
    lemma_occurs_split(s, 0, a, b);
    let a1 = seq![1u8] + int_be(sv.balance) + u32_be(sv.blocks_since_activity) + u32_be(sv.blocks_since_open)
        + u32_be(sv.blocks_since_received);
    let a2 = seq![1u8] + int_be(sv.balance) + u32_be(sv.blocks_since_activity) + u32_be(sv.blocks_since_open);
    let a3 = seq![1u8] + int_be(sv.balance) + u32_be(sv.blocks_since_activity);
    let a4 = seq![1u8] + int_be(sv.balance);
    lemma_occurs_split(s, 0, a1, u32_be(sv.height));
    lemma_occurs_split(s, 0, a2, u32_be(sv.blocks_since_received));
    lemma_occurs_split(s, 0, a3, u32_be(sv.blocks_since_open));
    lemma_occurs_split(s, 0, a4, u32_be(sv.blocks_since_activity));
    lemma_occurs_split(s, 0, seq![1u8], int_be(sv.balance));
    lemma_rd_u8(s, 0, 1);
    assert(rd_version(s) == Ok::<((), int), DecodeErrorV>(((), 1)));
    lemma_rd_int(s, 1, sv.balance);
    lemma_rd_u32(s, 17, sv.blocks_since_activity);
    lemma_rd_u32(s, 21, sv.blocks_since_open);
    lemma_rd_u32(s, 25, sv.blocks_since_received);
    lemma_rd_u32(s, 29, sv.height);
    lemma_rd_count(s, 33, reg.len());
    lemma_read_rolling(reg, None, s, 37);
    let p7: int = (37 + 21 * reg.len()) as int;
    lemma_rd_count(s, p7, cs.len());
    lemma_read_cumulative(cs, None, s, p7 + 4);
}

// ---------------------------------------------------------------------------------------------
// Witnesses
// ---------------------------------------------------------------------------------------------

/// A witness the encoding can carry: its maps in key order, their sizes, keys, signatures and
/// preimages fitting their length fields, and each digest of its function's length.
pub open spec fn wf_witness(w: WitnessV) -> bool {
    &&& keys_sorted::<String, Seq<u8>>(w.signatures)
    &&& keys_sorted::<HashValue, Seq<u8>>(w.preimages)
    &&& keys_sorted::<String, ()>(w.attestations)
    &&& w.signatures.len() <= u32::MAX
    &&& w.preimages.len() <= u32::MAX
    &&& w.attestations.len() <= u32::MAX
    &&& forall|i: int| 0 <= i < w.signatures.len() ==> text_fits(#[trigger] w.signatures[i].0)
        && w.signatures[i].1.len() <= u32::MAX
    &&& forall|i: int| 0 <= i < w.preimages.len() ==> (#[trigger] w.preimages[i]).0.digest.len()
        == digest_len(w.preimages[i].0.func) && w.preimages[i].1.len() <= u32::MAX
    &&& forall|i: int| 0 <= i < w.attestations.len() ==> text_fits(#[trigger] w.attestations[i].0)
}

proof fn lemma_enc_signatures_cons(e: Seq<(Seq<char>, Seq<u8>)>)
    requires
        e.len() > 0,
    ensures
        enc_signatures(e) == text_field(e[0].0) + bytes_field(e[0].1) + enc_signatures(e.drop_first()),
    decreases e.len(),
{
    if e.len() == 1 {
        assert(e.drop_last() =~= Seq::<(Seq<char>, Seq<u8>)>::empty());
        assert(e.drop_first() =~= Seq::<(Seq<char>, Seq<u8>)>::empty());
        assert(enc_signatures(e) =~= text_field(e[0].0) + bytes_field(e[0].1) + enc_signatures(e.drop_first()));
    } else {
        lemma_enc_signatures_cons(e.drop_last());
        assert(e.drop_last().drop_first() =~= e.drop_first().drop_last());
        assert(e.drop_first().last() == e.last());
        assert(enc_signatures(e) =~= text_field(e[0].0) + bytes_field(e[0].1) + enc_signatures(e.drop_first()));
    }
}

proof fn lemma_enc_signatures_len(e: Seq<(Seq<char>, Seq<u8>)>)
    ensures
        enc_signatures(e).len() >= 8 * e.len(),
    decreases e.len(),
{
    if e.len() > 0 {
        lemma_enc_signatures_len(e.drop_last());
        lemma_count_len(encode_utf8(e.last().0).len());
        lemma_count_len(e.last().1.len());
    }
}

proof fn lemma_enc_preimages_cons(e: Seq<(HashV, Seq<u8>)>)
    requires
        e.len() > 0,
    ensures
        enc_preimages(e) == hash_bytes(e[0].0) + bytes_field(e[0].1) + enc_preimages(e.drop_first()),
    decreases e.len(),
{
    if e.len() == 1 {
        assert(e.drop_last() =~= Seq::<(HashV, Seq<u8>)>::empty());
        assert(e.drop_first() =~= Seq::<(HashV, Seq<u8>)>::empty());
        assert(enc_preimages(e) =~= hash_bytes(e[0].0) + bytes_field(e[0].1) + enc_preimages(e.drop_first()));
    } else {
        lemma_enc_preimages_cons(e.drop_last());
        assert(e.drop_last().drop_first() =~= e.drop_first().drop_last());
        assert(e.drop_first().last() == e.last());
        assert(enc_preimages(e) =~= hash_bytes(e[0].0) + bytes_field(e[0].1) + enc_preimages(e.drop_first()));
    }
}

proof fn lemma_enc_preimages_len(e: Seq<(HashV, Seq<u8>)>)
    ensures
        enc_preimages(e).len() >= 5 * e.len(),
    decreases e.len(),
{
    if e.len() > 0 {
        lemma_enc_preimages_len(e.drop_last());
        lemma_count_len(e.last().1.len());
    }
}

proof fn lemma_enc_attestations_cons(e: Seq<(Seq<char>, ())>)
    requires
        e.len() > 0,
    ensures
        enc_attestations(e) == text_field(e[0].0) + enc_attestations(e.drop_first()),
    decreases e.len(),
{
    if e.len() == 1 {
        assert(e.drop_last() =~= Seq::<(Seq<char>, ())>::empty());
        assert(e.drop_first() =~= Seq::<(Seq<char>, ())>::empty());
        assert(enc_attestations(e) =~= text_field(e[0].0) + enc_attestations(e.drop_first()));
    } else {
        lemma_enc_attestations_cons(e.drop_last());
        assert(e.drop_last().drop_first() =~= e.drop_first().drop_last());
        assert(e.drop_first().last() == e.last());
        assert(enc_attestations(e) =~= text_field(e[0].0) + enc_attestations(e.drop_first()));
    }
}

proof fn lemma_enc_attestations_len(e: Seq<(Seq<char>, ())>)
    ensures
        enc_attestations(e).len() >= 4 * e.len(),
    decreases e.len(),
{
    if e.len() > 0 {
        lemma_enc_attestations_len(e.drop_last());
        lemma_count_len(encode_utf8(e.last().0).len());
    }
}

proof fn lemma_read_signatures(e: Seq<(Seq<char>, Seq<u8>)>, prev: Option<Seq<u8>>, s: Seq<u8>, p: int)
    requires
        forall|i: int| 0 <= i < e.len() ==> text_fits(#[trigger] e[i].0) && e[i].1.len() <= u32::MAX,
        forall|i: int, j: int|
            0 <= i < j < e.len() ==> bytes_lt(#[trigger] encode_utf8(e[i].0), #[trigger] encode_utf8(e[j].0)),
        prev matches Some(k) ==> forall|i: int| 0 <= i < e.len() ==> bytes_lt(k, #[trigger] encode_utf8(e[i].0)),
        occurs(s, p, enc_signatures(e)),
    ensures
        rd_signatures(s, p, e.len(), prev) == Ok::<(Seq<(Seq<char>, Seq<u8>)>, int), DecodeErrorV>(
            (e, p + enc_signatures(e).len()),
        ),
    decreases e.len(),
{
    if e.len() > 0 {
        lemma_enc_signatures_cons(e);
        let x = e[0];
        let t = e.drop_first();
        let kb = encode_utf8(x.0);
        assert(text_fits(e[0].0));
        lemma_count_len(kb.len());
        lemma_count_len(x.1.len());
        lemma_occurs_split3(s, p, text_field(x.0), bytes_field(x.1), enc_signatures(t));
        lemma_rd_bytes(s, p, kb);
        lemma_rd_bytes(s, p + 4 + kb.len(), x.1);
        encode_utf8_valid_utf8(x.0);
        encode_utf8_decode_utf8(x.0);
        assert forall|i: int| 0 <= i < t.len() implies text_fits(#[trigger] t[i].0) && t[i].1.len() <= u32::MAX by {
            assert(t[i] == e[i + 1]);
        }
        assert forall|i: int, j: int| 0 <= i < j < t.len() implies bytes_lt(
            #[trigger] encode_utf8(t[i].0),
            #[trigger] encode_utf8(t[j].0),
        ) by {
            assert(t[i] == e[i + 1]);
            assert(t[j] == e[j + 1]);
        }
        assert forall|i: int| 0 <= i < t.len() implies bytes_lt(kb, #[trigger] encode_utf8(t[i].0)) by {
            assert(t[i] == e[i + 1]);
        }
        match prev {
            Some(k) => {
                assert(bytes_lt(k, encode_utf8(e[0].0)));
            },
            None => {},
        }
        lemma_read_signatures(t, Some(kb), s, p + 8 + kb.len() + x.1.len());
        assert(seq![x] + t =~= e);
    } else {
        assert(e =~= Seq::<(Seq<char>, Seq<u8>)>::empty());
    }
}

proof fn lemma_read_preimages(e: Seq<(HashV, Seq<u8>)>, prev: Option<HashV>, s: Seq<u8>, p: int)
    requires
        forall|i: int| 0 <= i < e.len() ==> (#[trigger] e[i]).0.digest.len() == digest_len(e[i].0.func)
            && e[i].1.len() <= u32::MAX,
        forall|i: int, j: int| 0 <= i < j < e.len() ==> hash_lt(#[trigger] e[i].0, #[trigger] e[j].0),
        prev matches Some(k) ==> forall|i: int| 0 <= i < e.len() ==> hash_lt(k, #[trigger] e[i].0),
        occurs(s, p, enc_preimages(e)),
    ensures
        rd_preimages(s, p, e.len(), prev) == Ok::<(Seq<(HashV, Seq<u8>)>, int), DecodeErrorV>(
            (e, p + enc_preimages(e).len()),
        ),
    decreases e.len(),
{
    if e.len() > 0 {
        lemma_enc_preimages_cons(e);
        let x = e[0];
        let t = e.drop_first();
        assert(x.0.digest.len() == digest_len(x.0.func) && x.1.len() <= u32::MAX);
        lemma_count_len(x.1.len());
        let hl = hash_bytes(x.0).len() as int;
        lemma_occurs_split3(s, p, hash_bytes(x.0), bytes_field(x.1), enc_preimages(t));
        lemma_rd_hash(s, p, x.0);
        lemma_rd_bytes(s, p + hl, x.1);
        assert forall|i: int| 0 <= i < t.len() implies (#[trigger] t[i]).0.digest.len() == digest_len(t[i].0.func)
            && t[i].1.len() <= u32::MAX by {
            assert(t[i] == e[i + 1]);
        }
        assert forall|i: int, j: int| 0 <= i < j < t.len() implies hash_lt(#[trigger] t[i].0, #[trigger] t[j].0) by {
            assert(t[i] == e[i + 1]);
            assert(t[j] == e[j + 1]);
        }
        assert forall|i: int| 0 <= i < t.len() implies hash_lt(x.0, #[trigger] t[i].0) by {
            assert(t[i] == e[i + 1]);
        }
        match prev {
            Some(k) => {
                assert(hash_lt(k, e[0].0));
            },
            None => {},
        }
        lemma_read_preimages(t, Some(x.0), s, p + hl + 4 + x.1.len());
        assert(seq![x] + t =~= e);
    } else {
        assert(e =~= Seq::<(HashV, Seq<u8>)>::empty());
    }
}

proof fn lemma_read_attestations(e: Seq<(Seq<char>, ())>, prev: Option<Seq<u8>>, s: Seq<u8>, p: int)
    requires
        forall|i: int| 0 <= i < e.len() ==> text_fits(#[trigger] e[i].0),
        forall|i: int, j: int|
            0 <= i < j < e.len() ==> bytes_lt(#[trigger] encode_utf8(e[i].0), #[trigger] encode_utf8(e[j].0)),
        prev matches Some(k) ==> forall|i: int| 0 <= i < e.len() ==> bytes_lt(k, #[trigger] encode_utf8(e[i].0)),
        occurs(s, p, enc_attestations(e)),
    ensures
        rd_attestations(s, p, e.len(), prev) == Ok::<(Seq<(Seq<char>, ())>, int), DecodeErrorV>(
            (e, p + enc_attestations(e).len()),
        ),
    decreases e.len(),
{
    if e.len() > 0 {
        lemma_enc_attestations_cons(e);
        let x = e[0];
        let t = e.drop_first();
        let kb = encode_utf8(x.0);
        assert(text_fits(e[0].0));
        lemma_count_len(kb.len());
        lemma_occurs_split(s, p, text_field(x.0), enc_attestations(t));
        lemma_rd_bytes(s, p, kb);
        encode_utf8_valid_utf8(x.0);
        encode_utf8_decode_utf8(x.0);
        assert forall|i: int| 0 <= i < t.len() implies text_fits(#[trigger] t[i].0) by {
            assert(t[i] == e[i + 1]);
        }
        assert forall|i: int, j: int| 0 <= i < j < t.len() implies bytes_lt(
            #[trigger] encode_utf8(t[i].0),
            #[trigger] encode_utf8(t[j].0),
        ) by {
            assert(t[i] == e[i + 1]);
            assert(t[j] == e[j + 1]);
        }
        assert forall|i: int| 0 <= i < t.len() implies bytes_lt(kb, #[trigger] encode_utf8(t[i].0)) by {
            assert(t[i] == e[i + 1]);
        }
        match prev {
            Some(k) => {
                assert(bytes_lt(k, encode_utf8(e[0].0)));
            },
            None => {},
        }
        lemma_read_attestations(t, Some(kb), s, p + 4 + kb.len());
        assert(x == (x.0, ()));
        assert(seq![(x.0, ())] + t =~= e);
    } else {
        assert(e =~= Seq::<(Seq<char>, ())>::empty());
    }
}

/// Decoding a well-formed witness's encoding gives the witness back.
#[verifier::spinoff_prover]
#[verifier::rlimit(60)]
pub proof fn lemma_witness_round_trip(w: WitnessV)
    requires
        wf_witness(w),
    ensures
        rd_witness(enc_witness(w)) == Ok::<WitnessV, DecodeErrorV>(w),
{
    lemma_text_keys_sorted(w.signatures);
    lemma_hash_keys_sorted(w.preimages);
    lemma_text_keys_sorted(w.attestations);
    let s = enc_witness(w);
    let a = seq![1u8];
    let b = count_be(w.signatures.len());
    let c = enc_signatures(w.signatures);
    let d = count_be(w.preimages.len());
    let e = enc_preimages(w.preimages);
    let f = count_be(w.attestations.len());
    let g = enc_attestations(w.attestations);
    lemma_count_len(w.signatures.len());
    lemma_count_len(w.preimages.len());
    lemma_count_len(w.attestations.len());
    lemma_enc_signatures_len(w.signatures);
    lemma_enc_preimages_len(w.preimages);
    lemma_enc_attestations_len(w.attestations);
    assert(s == a + b + c + d + e + f + g);
    assert(occurs(s, 0, s)) by {
        assert(s.subrange(0, s.len() as int) =~= s);
    }
    lemma_occurs_split(s, 0, a + b + c + d + e + f, g);
    lemma_occurs_split(s, 0, a + b + c + d + e, f);
    lemma_occurs_split(s, 0, a + b + c + d, e);
    lemma_occurs_split(s, 0, a + b + c, d);
    lemma_occurs_split(s, 0, a + b, c);
    lemma_occurs_split(s, 0, a, b);
    lemma_rd_u8(s, 0, 1);
    assert(rd_version(s) == Ok::<((), int), DecodeErrorV>(((), 1)));
    lemma_rd_count(s, 1, w.signatures.len());
    lemma_read_signatures(w.signatures, None, s, 5);
    let p2: int = 5 + c.len() as int;
    lemma_rd_count(s, p2, w.preimages.len());
    lemma_read_preimages(w.preimages, None, s, p2 + 4);
    let p4: int = p2 + 4 + e.len();
    lemma_rd_count(s, p4, w.attestations.len());
    lemma_read_attestations(w.attestations, None, s, p4 + 4);
    assert(s.len() == p4 + 4 + g.len());
}

// ---------------------------------------------------------------------------------------------
// Fraud proofs
// ---------------------------------------------------------------------------------------------

/// A fraud proof the encoding can carry: each component well formed, and each component's
/// encoding fitting a `u32` length.
pub open spec fn wf_fraud_proof(f: FraudProofV) -> bool {
    &&& wf_descriptor(f.descriptor.constants, f.descriptor.body)
    &&& wf_operation(f.operation)
    &&& wf_snapshot(f.snapshot)
    &&& wf_witness(f.witness)
    &&& enc_descriptor(f.descriptor.constants, f.descriptor.body).len() <= u32::MAX
    &&& op_preimage(f.operation).len() <= u32::MAX
    &&& enc_snapshot(f.snapshot).len() <= u32::MAX
    &&& enc_witness(f.witness).len() <= u32::MAX
}

/// The framing of a fraud proof: the version, each component's delimited bytes, the verdict.
#[verifier::spinoff_prover]
#[verifier::rlimit(40)]
proof fn lemma_fraud_proof_frame(f: FraudProofV)
    requires
        enc_descriptor(f.descriptor.constants, f.descriptor.body).len() <= u32::MAX,
        op_preimage(f.operation).len() <= u32::MAX,
        enc_snapshot(f.snapshot).len() <= u32::MAX,
        enc_witness(f.witness).len() <= u32::MAX,
    ensures
        ({
            let s = enc_fraud_proof(f);
            let db = enc_descriptor(f.descriptor.constants, f.descriptor.body);
            let ob = op_preimage(f.operation);
            let sb = enc_snapshot(f.snapshot);
            let wb = enc_witness(f.witness);
            let p1: int = 5 + db.len() as int;
            let p2: int = p1 + 4 + ob.len() as int;
            let p3: int = p2 + 4 + sb.len() as int;
            let p4: int = p3 + 4 + wb.len() as int;
            &&& rd_version(s) == Ok::<((), int), DecodeErrorV>(((), 1))
            &&& rd_bytes(s, 1) == Ok::<(Seq<u8>, int), DecodeErrorV>((db, p1))
            &&& rd_bytes(s, p1) == Ok::<(Seq<u8>, int), DecodeErrorV>((ob, p2))
            &&& rd_bytes(s, p2) == Ok::<(Seq<u8>, int), DecodeErrorV>((sb, p3))
            &&& rd_bytes(s, p3) == Ok::<(Seq<u8>, int), DecodeErrorV>((wb, p4))
            &&& rd_bool(s, p4) == Ok::<(bool, int), DecodeErrorV>((f.claimed, p4 + 1))
            &&& s.len() == p4 + 1
        }),
{
    let db = enc_descriptor(f.descriptor.constants, f.descriptor.body);
    let ob = op_preimage(f.operation);
    let sb = enc_snapshot(f.snapshot);
    let wb = enc_witness(f.witness);
    let cb: u8 = if f.claimed { 1u8 } else { 0u8 };
    let s = enc_fraud_proof(f);
    let a = seq![1u8];
    let b = bytes_field(db);
    let c = bytes_field(ob);
    let d = bytes_field(sb);
    let e = bytes_field(wb);
    let g = seq![cb];
    lemma_count_len(db.len());
    lemma_count_len(ob.len());
    lemma_count_len(sb.len());
    lemma_count_len(wb.len());
    assert(s == a + b + c + d + e + g);
    assert(occurs(s, 0, s)) by {
        assert(s.subrange(0, s.len() as int) =~= s);
    }
    lemma_occurs_split(s, 0, a + b + c + d + e, g);
    lemma_occurs_split(s, 0, a + b + c + d, e);
    lemma_occurs_split(s, 0, a + b + c, d);
    lemma_occurs_split(s, 0, a + b, c);
    lemma_occurs_split(s, 0, a, b);
    lemma_rd_u8(s, 0, 1);
    lemma_rd_bytes(s, 1, db);
    let p1: int = 1 + b.len() as int;
    lemma_rd_bytes(s, p1, ob);
    let p2: int = p1 + c.len() as int;
    lemma_rd_bytes(s, p2, sb);
    let p3: int = p2 + d.len() as int;
    lemma_rd_bytes(s, p3, wb);
    let p4: int = p3 + e.len() as int;
    lemma_rd_u8(s, p4, cb);
}

/// A fraud proof's bytes decode to the components its delimited parts decode to.
proof fn lemma_fraud_proof_parts(
    s: Seq<u8>,
    db: Seq<u8>,
    ob: Seq<u8>,
    sb: Seq<u8>,
    wb: Seq<u8>,
    claimed: bool,
    p1: int,
    p2: int,
    p3: int,
    p4: int,
    dv: DescriptorV,
    ov: OperationV,
    sv: SnapshotV,
    wv: WitnessV,
)
    requires
        rd_version(s) == Ok::<((), int), DecodeErrorV>(((), 1)),
        rd_bytes(s, 1) == Ok::<(Seq<u8>, int), DecodeErrorV>((db, p1)),
        rd_bytes(s, p1) == Ok::<(Seq<u8>, int), DecodeErrorV>((ob, p2)),
        rd_bytes(s, p2) == Ok::<(Seq<u8>, int), DecodeErrorV>((sb, p3)),
        rd_bytes(s, p3) == Ok::<(Seq<u8>, int), DecodeErrorV>((wb, p4)),
        rd_bool(s, p4) == Ok::<(bool, int), DecodeErrorV>((claimed, p4 + 1)),
        s.len() == p4 + 1,
        rd_descriptor(db) == Ok::<(Seq<(Seq<char>, ValueV)>, BTermV), DecodeErrorV>((dv.constants, dv.body)),
        rd_operation(ob) == Ok::<OperationV, DecodeErrorV>(ov),
        rd_snapshot(sb) == Ok::<SnapshotV, DecodeErrorV>(sv),
        rd_witness(wb) == Ok::<WitnessV, DecodeErrorV>(wv),
    ensures
        rd_fraud_proof(s) == Ok::<FraudProofV, DecodeErrorV>(
            FraudProofV { descriptor: dv, operation: ov, snapshot: sv, witness: wv, claimed },
        ),
{
}

/// Decoding a well-formed fraud proof's encoding gives the fraud proof back, less the
/// snapshot's rolling-window entries of unregistered fields.
pub proof fn lemma_fraud_proof_round_trip(f: FraudProofV)
    requires
        wf_fraud_proof(f),
    ensures
        rd_fraud_proof(enc_fraud_proof(f)) == Ok::<FraudProofV, DecodeErrorV>(
            FraudProofV {
                snapshot: SnapshotV {
                    rolling: registered_entries(f.snapshot.rolling),
                    ..f.snapshot
                },
                ..f
            },
        ),
{
    let db = enc_descriptor(f.descriptor.constants, f.descriptor.body);
    let ob = op_preimage(f.operation);
    let sb = enc_snapshot(f.snapshot);
    let wb = enc_witness(f.witness);
    let sv = SnapshotV { rolling: registered_entries(f.snapshot.rolling), ..f.snapshot };
    lemma_descriptor_round_trip(f.descriptor.constants, f.descriptor.body);
    lemma_operation_round_trip(f.operation);
    lemma_snapshot_round_trip(f.snapshot);
    lemma_witness_round_trip(f.witness);
    lemma_fraud_proof_frame(f);
    let p1: int = 5 + db.len() as int;
    let p2: int = p1 + 4 + ob.len() as int;
    let p3: int = p2 + 4 + sb.len() as int;
    let p4: int = p3 + 4 + wb.len() as int;
    lemma_fraud_proof_parts(
        enc_fraud_proof(f), db, ob, sb, wb, f.claimed, p1, p2, p3, p4, f.descriptor, f.operation,
        sv, f.witness,
    );
}

/// Every rolling-window field of `r` is registered.
pub open spec fn all_registered(r: Seq<((Seq<char>, u32), i128)>) -> bool {
    forall|j: int| 0 <= j < r.len() ==> rw_field_id((#[trigger] r[j]).0.0) is Some
}

/// Where every rolling-window field is registered, no entry is left out.
pub proof fn lemma_registered_entries_all(r: Seq<((Seq<char>, u32), i128)>)
    requires
        all_registered(r),
    ensures
        registered_entries(r) == r,
    decreases r.len(),
{
    if r.len() > 0 {
        let r0 = r.drop_last();
        assert forall|j: int| 0 <= j < r0.len() implies rw_field_id((#[trigger] r0[j]).0.0) is Some by {
            assert(r0[j] == r[j]);
        }
        lemma_registered_entries_all(r0);
        assert(rw_field_id(r[r.len() - 1].0.0) is Some);
        assert(r0.push(r.last()) =~= r);
    } else {
        assert(r =~= Seq::<((Seq<char>, u32), i128)>::empty());
    }
}

/// A well-formed fraud proof whose snapshot reads only registered rolling-window fields decodes
/// from its encoding to itself.
pub proof fn lemma_fraud_proof_decodes_to_itself(f: FraudProofV)
    requires
        wf_fraud_proof(f),
        all_registered(f.snapshot.rolling),
    ensures
        rd_fraud_proof(enc_fraud_proof(f)) == Ok::<FraudProofV, DecodeErrorV>(f),
{
    lemma_fraud_proof_round_trip(f);
    lemma_registered_entries_all(f.snapshot.rolling);
    assert(SnapshotV { rolling: registered_entries(f.snapshot.rolling), ..f.snapshot } == f.snapshot);
}
} // verus!
