//! The canonical byte encodings.
//!
//! Integers are big-endian: a ledger integer is 16-byte two's complement, counts, lengths and
//! heights are `u32`, nonces `u64`. Byte strings and lists are length or count prefixed.
//! Primitive ids of the capability-gated registries are `u16`; structural tags are `u8`.
//!
//! Each encoder is stated as a spec function over views; the executable writers append exactly
//! those bytes.
use vstd::prelude::*;
use vstd::utf8::encode_utf8;

use crate::ast::{
    BTerm, BTermV, HashValue, Obligation, ObligationV, Schema, Value, ValueV, VTerm, VTermV,
    arms_view, group_views, lemma_arms_view, lemma_terms_view, lemma_values_view,
    lemma_vterms_view, terms_view, values_view, vterms_view,
};
use crate::bytes::{be_bytes, be_encode};
use crate::descriptor::Descriptor;
use crate::hashes::{tagged_hash, tagged_hash_of};
use crate::host::{OperationData, OperationV};
use crate::maps::SortedMap;
use crate::registry::{CmpOp, StatePred, Symbol, ValueFn};
use crate::witness::{Signature, Witness, WitnessV, hash_bytes};

verus! {

broadcast use group_views;

// ---------------------------------------------------------------------------------------------
// Fixed-width fields
// ---------------------------------------------------------------------------------------------

/// A `u16`, big-endian.
pub open spec fn u16_be(x: u16) -> Seq<u8> {
    be_bytes(x as int, 2)
}

/// A `u32`, big-endian.
pub open spec fn u32_be(x: u32) -> Seq<u8> {
    be_bytes(x as int, 4)
}

/// A `u64`, big-endian.
pub open spec fn u64_be(x: u64) -> Seq<u8> {
    be_bytes(x as int, 8)
}

/// A ledger integer: 16 bytes of big-endian two's complement.
pub open spec fn int_be(n: i128) -> Seq<u8> {
    be_bytes((n as u128) as int, 16)
}

/// A count or length, as a `u32`.
pub open spec fn count_be(n: nat) -> Seq<u8> {
    u32_be(n as u32)
}

/// A byte string, length prefixed.
pub open spec fn bytes_field(b: Seq<u8>) -> Seq<u8> {
    count_be(b.len()) + b
}

/// A text, as its length-prefixed UTF-8 encoding.
pub open spec fn text_field(s: Seq<char>) -> Seq<u8> {
    bytes_field(encode_utf8(s))
}

/// The indices of a path, each as a `u32`.
pub open spec fn enc_indices(p: Seq<usize>) -> Seq<u8>
    decreases p.len(),
{
    if p.len() == 0 {
        Seq::empty()
    } else {
        enc_indices(p.drop_last()) + u32_be(p.last() as u32)
    }
}

// ---------------------------------------------------------------------------------------------
// Registry ids
// ---------------------------------------------------------------------------------------------

/// The id of a comparison operator.
pub open spec fn comparison_id(o: CmpOp) -> u8 {
    match o {
        CmpOp::Eq => 0,
        CmpOp::Lt => 1,
        CmpOp::Le => 2,
        CmpOp::Gt => 3,
        CmpOp::Ge => 4,
    }
}

/// The id of a value function.
pub open spec fn value_fn_id(f: ValueFn) -> u16 {
    match f {
        ValueFn::Add => 0,
        ValueFn::Sub => 1,
        ValueFn::Mul => 2,
        ValueFn::Div => 3,
        ValueFn::Min => 4,
        ValueFn::Max => 5,
        ValueFn::Pct => 6,
        ValueFn::Bps => 7,
        ValueFn::OperationType => 8,
        ValueFn::OperationArg => 9,
        ValueFn::OperationPath => 10,
        ValueFn::OperationSubtree => 11,
        ValueFn::BlocksSinceActivity => 12,
        ValueFn::BlocksSinceOpen => 13,
        ValueFn::DepositBalance => 14,
        ValueFn::RollingWindow => 15,
        ValueFn::CumulativeSpentVia => 16,
        ValueFn::AstRef => 17,
        ValueFn::AstShapeAt => 18,
        ValueFn::Path => 19,
        ValueFn::BlocksSinceReceived => 20,
    }
}

/// The id of a state predicate.
pub open spec fn state_pred_id(p: StatePred) -> u16 {
    match p {
        StatePred::Older => 0,
        StatePred::After => 1,
        StatePred::AmountAtMost => 2,
        StatePred::AmountInRange => 3,
        StatePred::AmountAtMostPct => 4,
        StatePred::DestinationIs => 5,
        StatePred::DestinationIn => 6,
        StatePred::BalanceAtLeast => 7,
        StatePred::BalanceAtMost => 8,
        StatePred::BlocksSinceActivityAtLeast => 9,
        StatePred::BlocksSinceOpenBelow => 10,
        StatePred::RollingAmountBelow => 11,
        StatePred::RollingAmountBelowPct => 12,
        StatePred::SubtreeAt => 13,
        StatePred::BlocksSinceOpenAtLeast => 14,
        StatePred::BlocksSinceReceivedAtLeast => 15,
    }
}

/// The id of a comparison operator.
pub fn comparison_code(o: CmpOp) -> (r: u8)
    ensures
        r == comparison_id(o),
{
    match o {
        CmpOp::Eq => 0,
        CmpOp::Lt => 1,
        CmpOp::Le => 2,
        CmpOp::Gt => 3,
        CmpOp::Ge => 4,
    }
}

/// The id of a value function.
pub fn valuefn_id(f: ValueFn) -> (r: u16)
    ensures
        r == value_fn_id(f),
{
    match f {
        ValueFn::Add => 0,
        ValueFn::Sub => 1,
        ValueFn::Mul => 2,
        ValueFn::Div => 3,
        ValueFn::Min => 4,
        ValueFn::Max => 5,
        ValueFn::Pct => 6,
        ValueFn::Bps => 7,
        ValueFn::OperationType => 8,
        ValueFn::OperationArg => 9,
        ValueFn::OperationPath => 10,
        ValueFn::OperationSubtree => 11,
        ValueFn::BlocksSinceActivity => 12,
        ValueFn::BlocksSinceOpen => 13,
        ValueFn::DepositBalance => 14,
        ValueFn::RollingWindow => 15,
        ValueFn::CumulativeSpentVia => 16,
        ValueFn::AstRef => 17,
        ValueFn::AstShapeAt => 18,
        ValueFn::Path => 19,
        ValueFn::BlocksSinceReceived => 20,
    }
}

/// The id of a state predicate.
pub fn statepred_id(p: StatePred) -> (r: u16)
    ensures
        r == state_pred_id(p),
{
    match p {
        StatePred::Older => 0,
        StatePred::After => 1,
        StatePred::AmountAtMost => 2,
        StatePred::AmountInRange => 3,
        StatePred::AmountAtMostPct => 4,
        StatePred::DestinationIs => 5,
        StatePred::DestinationIn => 6,
        StatePred::BalanceAtLeast => 7,
        StatePred::BalanceAtMost => 8,
        StatePred::BlocksSinceActivityAtLeast => 9,
        StatePred::BlocksSinceOpenBelow => 10,
        StatePred::RollingAmountBelow => 11,
        StatePred::RollingAmountBelowPct => 12,
        StatePred::SubtreeAt => 13,
        StatePred::BlocksSinceOpenAtLeast => 14,
        StatePred::BlocksSinceReceivedAtLeast => 15,
    }
}

// ---------------------------------------------------------------------------------------------
// Values and terms
// ---------------------------------------------------------------------------------------------

/// The encoding of a value.
pub open spec fn enc_value(v: ValueV) -> Seq<u8>
    decreases v,
{
    match v {
        ValueV::Int(n) => seq![0u8] + int_be(n),
        ValueV::Key(k) => seq![1u8] + text_field(k),
        ValueV::Hash(h) => seq![2u8] + hash_bytes(h),
        ValueV::Bytes(b) => seq![3u8] + bytes_field(b),
        ValueV::Path(p) => seq![4u8] + count_be(p.len()) + enc_indices(p),
        ValueV::List(items) => seq![5u8] + count_be(items.len()) + enc_values(items),
        ValueV::Symbol(s) => seq![6u8] + text_field(s),
        ValueV::Subtree(t) => seq![7u8] + enc_term(*t),
    }
}

/// The encodings of a list of values, one after another.
pub open spec fn enc_values(s: Seq<ValueV>) -> Seq<u8>
    decreases s,
{
    if s.len() == 0 {
        Seq::empty()
    } else {
        enc_values(s.drop_last()) + enc_value(s.last())
    }
}

/// The encoding of a term.
pub open spec fn enc_term(t: BTermV) -> Seq<u8>
    decreases t,
{
    match t {
        BTermV::Const(b) => seq![0u8, if b { 1u8 } else { 0u8 }],
        BTermV::And(bs) => seq![1u8] + count_be(bs.len()) + enc_terms(bs),
        BTermV::Or(bs) => seq![2u8] + count_be(bs.len()) + enc_terms(bs),
        BTermV::Thresh(k, bs) => seq![3u8] + u32_be(k as u32) + count_be(bs.len()) + enc_terms(bs),
        BTermV::Not(b) => seq![4u8] + enc_term(*b),
        BTermV::If(c, t1, e) => seq![5u8] + enc_term(*c) + enc_term(*t1) + enc_term(*e),
        BTermV::Match(s, arms, d) => seq![6u8] + enc_vterm(s) + count_be(arms.len()) + enc_arms(
            arms,
        ) + enc_term(*d),
        BTermV::Cmp(o, a, b) => seq![7u8, comparison_id(o)] + enc_vterm(a) + enc_vterm(b),
        BTermV::State(p, args) => seq![8u8] + u16_be(state_pred_id(p)) + count_be(args.len())
            + enc_vterms(args),
        BTermV::Prove(o) => seq![9u8] + enc_obligation(o),
    }
}

/// The encodings of a list of terms, one after another.
pub open spec fn enc_terms(s: Seq<BTermV>) -> Seq<u8>
    decreases s,
{
    if s.len() == 0 {
        Seq::empty()
    } else {
        enc_terms(s.drop_last()) + enc_term(s.last())
    }
}

/// The encodings of a list of `match` arms: each tag, then its body.
pub open spec fn enc_arms(s: Seq<(Seq<char>, BTermV)>) -> Seq<u8>
    decreases s,
{
    if s.len() == 0 {
        Seq::empty()
    } else {
        enc_arms(s.drop_last()) + text_field(s.last().0) + enc_term(s.last().1)
    }
}

/// The encoding of a value term.
pub open spec fn enc_vterm(t: VTermV) -> Seq<u8>
    decreases t,
{
    match t {
        VTermV::Lit(v) => seq![0u8] + enc_value(v),
        VTermV::Var(n) => seq![1u8] + text_field(n),
        VTermV::Op(f, args) => seq![2u8] + u16_be(value_fn_id(f)) + count_be(args.len())
            + enc_vterms(args),
    }
}

/// The encodings of a list of value terms, one after another.
pub open spec fn enc_vterms(s: Seq<VTermV>) -> Seq<u8>
    decreases s,
{
    if s.len() == 0 {
        Seq::empty()
    } else {
        enc_vterms(s.drop_last()) + enc_vterm(s.last())
    }
}

/// The encoding of an obligation.
pub open spec fn enc_obligation(o: ObligationV) -> Seq<u8>
    decreases o,
{
    match o {
        ObligationV::Pk(v) => u16_be(0) + enc_vterm(v),
        ObligationV::PkH(v) => u16_be(1) + enc_vterm(v),
        ObligationV::PkAny(v) => u16_be(2) + enc_vterm(v),
        ObligationV::Multi(k, v) => u16_be(3) + u32_be(k as u32) + enc_vterm(v),
        ObligationV::Hashlock(v) => u16_be(4) + enc_vterm(v),
        ObligationV::Attest(v, s) => u16_be(5) + enc_vterm(v) + enc_schema(s),
    }
}

/// The encoding of an attestation schema.
pub open spec fn enc_schema(s: Schema) -> Seq<u8> {
    match s {
        Schema::PriceWithinBps { tolerance_bps } => u16_be(0) + u32_be(tolerance_bps),
    }
}

/// Named entries: each name, then its value.
pub open spec fn enc_named(s: Seq<(Seq<char>, ValueV)>) -> Seq<u8>
    decreases s.len(),
{
    if s.len() == 0 {
        Seq::empty()
    } else {
        enc_named(s.drop_last()) + text_field(s.last().0) + enc_value(s.last().1)
    }
}

/// The encoding of a descriptor: version, constants in name order, body.
pub open spec fn enc_descriptor(constants: Seq<(Seq<char>, ValueV)>, body: BTermV) -> Seq<u8> {
    seq![1u8] + count_be(constants.len()) + enc_named(constants) + enc_term(body)
}

/// The signing preimage of an operation: version, deposit id, type, arguments in name order,
/// nonce and expiry.
pub open spec fn op_preimage(o: OperationV) -> Seq<u8> {
    seq![1u8] + o.deposit_id + text_field(o.op_type) + count_be(o.args.len()) + enc_named(o.args)
        + u64_be(o.nonce) + u32_be(o.expiry)
}

// ---------------------------------------------------------------------------------------------
// Writers
// ---------------------------------------------------------------------------------------------

/// Append the bytes of `b`.
pub fn put_slice(out: &mut Vec<u8>, b: &[u8])
    ensures
        final(out)@ == old(out)@ + b@,
{
    let ghost start = out@;
    let mut i: usize = 0;
    while i < b.len()
        invariant
            i <= b.len(),
            out@ == start + b@.take(i as int),
        decreases b.len() - i,
    {
        out.push(b[i]);
        i = i + 1;
        assert(out@ =~= start + b@.take(i as int));
    }
    assert(b@.take(b.len() as int) =~= b@);
}

/// Append a big-endian `u16`.
pub fn put_u16(out: &mut Vec<u8>, x: u16)
    ensures
        final(out)@ == old(out)@ + u16_be(x),
{
    let mut b = be_encode(x as u128, 2);
    out.append(&mut b);
}

/// Append a big-endian `u32`.
pub fn put_u32(out: &mut Vec<u8>, x: u32)
    ensures
        final(out)@ == old(out)@ + u32_be(x),
{
    let mut b = be_encode(x as u128, 4);
    out.append(&mut b);
}

/// Append a big-endian `u64`.
pub fn put_u64(out: &mut Vec<u8>, x: u64)
    ensures
        final(out)@ == old(out)@ + u64_be(x),
{
    let mut b = be_encode(x as u128, 8);
    out.append(&mut b);
}

/// Append a ledger integer.
pub fn put_int(out: &mut Vec<u8>, n: i128)
    ensures
        final(out)@ == old(out)@ + int_be(n),
{
    let mut b = be_encode(n as u128, 16);
    out.append(&mut b);
}

/// Append a count.
pub fn put_count(out: &mut Vec<u8>, n: usize)
    ensures
        final(out)@ == old(out)@ + count_be(n as nat),
{
    put_u32(out, n as u32);
}

/// Append a length-prefixed byte string.
pub fn put_bytes(out: &mut Vec<u8>, b: &[u8])
    ensures
        final(out)@ == old(out)@ + bytes_field(b@),
{
    put_count(out, b.len());
    put_slice(out, b);
    assert(out@ =~= old(out)@ + bytes_field(b@));
}

/// Append a length-prefixed text.
pub fn put_text(out: &mut Vec<u8>, s: &str)
    ensures
        final(out)@ == old(out)@ + text_field(s@),
{
    put_bytes(out, s.as_bytes());
}

/// Append a hash value: its tag, then its digest.
pub fn put_hash(out: &mut Vec<u8>, h: &HashValue)
    ensures
        final(out)@ == old(out)@ + hash_bytes(h@),
{
    match h {
        HashValue::Sha256(d) => {
            out.push(0);
            put_slice(out, d.as_slice());
        },
        HashValue::Hash256(d) => {
            out.push(1);
            put_slice(out, d.as_slice());
        },
        HashValue::Ripemd160(d) => {
            out.push(2);
            put_slice(out, d.as_slice());
        },
        HashValue::Hash160(d) => {
            out.push(3);
            put_slice(out, d.as_slice());
        },
    }
    assert(out@ =~= old(out)@ + hash_bytes(h@));
}

/// Append the indices of a path.
pub fn put_indices(out: &mut Vec<u8>, p: &[usize])
    ensures
        final(out)@ == old(out)@ + enc_indices(p@),
{
    let ghost start = out@;
    let mut i: usize = 0;
    while i < p.len()
        invariant
            i <= p.len(),
            out@ == start + enc_indices(p@.take(i as int)),
        decreases p.len() - i,
    {
        put_u32(out, p[i] as u32);
        proof {
            assert(p@.take(i + 1).drop_last() =~= p@.take(i as int));
        }
        i = i + 1;
        assert(out@ =~= start + enc_indices(p@.take(i as int)));
    }
    assert(p@.take(p.len() as int) =~= p@);
}

/// Append the encoding of a value.
pub fn put_value(out: &mut Vec<u8>, v: &Value)
    ensures
        final(out)@ == old(out)@ + enc_value(v@),
    decreases v,
{
    match v {
        Value::Int(n) => {
            out.push(0);
            put_int(out, *n);
        },
        Value::Key(k) => {
            out.push(1);
            put_text(out, k.as_str());
        },
        Value::Hash(h) => {
            out.push(2);
            put_hash(out, h);
        },
        Value::Bytes(b) => {
            out.push(3);
            put_bytes(out, b.as_slice());
        },
        Value::Path(p) => {
            out.push(4);
            put_count(out, p.len());
            put_indices(out, p.as_slice());
        },
        Value::List(items) => {
            out.push(5);
            put_count(out, items.len());
            proof {
                lemma_values_view(items@);
            }
            put_values(out, items);
        },
        Value::Symbol(s) => {
            out.push(6);
            put_text(out, s.0.as_str());
        },
        Value::Subtree(t) => {
            out.push(7);
            put_term(out, t);
        },
    }
    assert(out@ =~= old(out)@ + enc_value(v@));
}

/// Append the encodings of a list of values.
pub fn put_values(out: &mut Vec<u8>, s: &Vec<Value>)
    ensures
        final(out)@ == old(out)@ + enc_values(values_view(s@)),
    decreases s,
{
    let ghost start = out@;
    let ghost vs = values_view(s@);
    proof {
        lemma_values_view(s@);
    }
    let mut i: usize = 0;
    while i < s.len()
        invariant
            i <= s.len(),
            vs == values_view(s@),
            vs.len() == s@.len(),
            forall|j: int| 0 <= j < s@.len() ==> #[trigger] vs[j] == s@[j]@,
            out@ == start + enc_values(vs.take(i as int)),
        decreases s.len() - i,
    {
        put_value(out, &s[i]);
        proof {
            assert(vs.take(i + 1).drop_last() =~= vs.take(i as int));
        }
        i = i + 1;
        assert(out@ =~= start + enc_values(vs.take(i as int)));
    }
    assert(vs.take(s.len() as int) =~= vs);
}

/// Append the encoding of a term.
pub fn put_term(out: &mut Vec<u8>, t: &BTerm)
    ensures
        final(out)@ == old(out)@ + enc_term(t@),
    decreases t,
{
    match t {
        BTerm::Const(b) => {
            out.push(0);
            out.push(if *b { 1 } else { 0 });
        },
        BTerm::And(bs) => {
            out.push(1);
            proof {
                lemma_terms_view(bs@);
            }
            put_count(out, bs.len());
            put_terms(out, bs);
        },
        BTerm::Or(bs) => {
            out.push(2);
            proof {
                lemma_terms_view(bs@);
            }
            put_count(out, bs.len());
            put_terms(out, bs);
        },
        BTerm::Thresh(k, bs) => {
            out.push(3);
            put_u32(out, *k as u32);
            proof {
                lemma_terms_view(bs@);
            }
            put_count(out, bs.len());
            put_terms(out, bs);
        },
        BTerm::Not(b) => {
            out.push(4);
            put_term(out, b);
        },
        BTerm::If(c, t1, e) => {
            out.push(5);
            put_term(out, c);
            put_term(out, t1);
            put_term(out, e);
        },
        BTerm::Match { scrutinee, arms, default } => {
            out.push(6);
            put_vterm(out, scrutinee);
            proof {
                lemma_arms_view(arms@);
            }
            put_count(out, arms.len());
            put_arms(out, arms);
            put_term(out, default);
        },
        BTerm::Cmp(o, a, b) => {
            out.push(7);
            out.push(comparison_code(*o));
            put_vterm(out, a);
            put_vterm(out, b);
        },
        BTerm::State(p, args) => {
            out.push(8);
            put_u16(out, statepred_id(*p));
            proof {
                lemma_vterms_view(args@);
            }
            put_count(out, args.len());
            put_vterms(out, args);
        },
        BTerm::Prove(o) => {
            out.push(9);
            put_obligation(out, o);
        },
    }
    assert(out@ =~= old(out)@ + enc_term(t@));
}

/// Append the encodings of a list of terms.
pub fn put_terms(out: &mut Vec<u8>, s: &Vec<BTerm>)
    ensures
        final(out)@ == old(out)@ + enc_terms(terms_view(s@)),
    decreases s,
{
    let ghost start = out@;
    let ghost vs = terms_view(s@);
    proof {
        lemma_terms_view(s@);
    }
    let mut i: usize = 0;
    while i < s.len()
        invariant
            i <= s.len(),
            vs == terms_view(s@),
            vs.len() == s@.len(),
            forall|j: int| 0 <= j < s@.len() ==> #[trigger] vs[j] == s@[j]@,
            out@ == start + enc_terms(vs.take(i as int)),
        decreases s.len() - i,
    {
        put_term(out, &s[i]);
        proof {
            assert(vs.take(i + 1).drop_last() =~= vs.take(i as int));
        }
        i = i + 1;
        assert(out@ =~= start + enc_terms(vs.take(i as int)));
    }
    assert(vs.take(s.len() as int) =~= vs);
}

/// Append the encodings of a list of `match` arms.
pub fn put_arms(out: &mut Vec<u8>, s: &Vec<(Symbol, BTerm)>)
    ensures
        final(out)@ == old(out)@ + enc_arms(arms_view(s@)),
    decreases s,
{
    let ghost start = out@;
    let ghost vs = arms_view(s@);
    proof {
        lemma_arms_view(s@);
    }
    let mut i: usize = 0;
    while i < s.len()
        invariant
            i <= s.len(),
            vs == arms_view(s@),
            vs.len() == s@.len(),
            forall|j: int| 0 <= j < s@.len() ==> #[trigger] vs[j] == (s@[j].0@, s@[j].1@),
            out@ == start + enc_arms(vs.take(i as int)),
        decreases s.len() - i,
    {
        put_text(out, s[i].0.0.as_str());
        put_term(out, &s[i].1);
        proof {
            assert(vs.take(i + 1).drop_last() =~= vs.take(i as int));
        }
        i = i + 1;
        assert(out@ =~= start + enc_arms(vs.take(i as int)));
    }
    assert(vs.take(s.len() as int) =~= vs);
}

/// Append the encoding of a value term.
pub fn put_vterm(out: &mut Vec<u8>, t: &VTerm)
    ensures
        final(out)@ == old(out)@ + enc_vterm(t@),
    decreases t,
{
    match t {
        VTerm::Lit(v) => {
            out.push(0);
            put_value(out, v);
        },
        VTerm::Var(n) => {
            out.push(1);
            put_text(out, n.as_str());
        },
        VTerm::Op(f, args) => {
            out.push(2);
            put_u16(out, valuefn_id(*f));
            proof {
                lemma_vterms_view(args@);
            }
            put_count(out, args.len());
            put_vterms(out, args);
        },
    }
    assert(out@ =~= old(out)@ + enc_vterm(t@));
}

/// Append the encodings of a list of value terms.
pub fn put_vterms(out: &mut Vec<u8>, s: &Vec<VTerm>)
    ensures
        final(out)@ == old(out)@ + enc_vterms(vterms_view(s@)),
    decreases s,
{
    let ghost start = out@;
    let ghost vs = vterms_view(s@);
    proof {
        lemma_vterms_view(s@);
    }
    let mut i: usize = 0;
    while i < s.len()
        invariant
            i <= s.len(),
            vs == vterms_view(s@),
            vs.len() == s@.len(),
            forall|j: int| 0 <= j < s@.len() ==> #[trigger] vs[j] == s@[j]@,
            out@ == start + enc_vterms(vs.take(i as int)),
        decreases s.len() - i,
    {
        put_vterm(out, &s[i]);
        proof {
            assert(vs.take(i + 1).drop_last() =~= vs.take(i as int));
        }
        i = i + 1;
        assert(out@ =~= start + enc_vterms(vs.take(i as int)));
    }
    assert(vs.take(s.len() as int) =~= vs);
}

/// Append the encoding of an obligation.
pub fn put_obligation(out: &mut Vec<u8>, o: &Obligation)
    ensures
        final(out)@ == old(out)@ + enc_obligation(o@),
    decreases o,
{
    match o {
        Obligation::Pk(v) => {
            put_u16(out, 0);
            put_vterm(out, v);
        },
        Obligation::PkH(v) => {
            put_u16(out, 1);
            put_vterm(out, v);
        },
        Obligation::PkAny(v) => {
            put_u16(out, 2);
            put_vterm(out, v);
        },
        Obligation::Multi(k, v) => {
            put_u16(out, 3);
            put_u32(out, *k as u32);
            put_vterm(out, v);
        },
        Obligation::Hashlock(v) => {
            put_u16(out, 4);
            put_vterm(out, v);
        },
        Obligation::Attest(v, s) => {
            put_u16(out, 5);
            put_vterm(out, v);
            put_schema(out, s);
        },
    }
    assert(out@ =~= old(out)@ + enc_obligation(o@));
}

/// Append the encoding of an attestation schema.
pub fn put_schema(out: &mut Vec<u8>, s: &Schema)
    ensures
        final(out)@ == old(out)@ + enc_schema(*s),
{
    match s {
        Schema::PriceWithinBps { tolerance_bps } => {
            put_u16(out, 0);
            put_u32(out, *tolerance_bps);
        },
    }
    assert(out@ =~= old(out)@ + enc_schema(*s));
}

/// Append named entries, each name followed by its value.
pub fn put_named(out: &mut Vec<u8>, m: &SortedMap<String, Value>)
    ensures
        final(out)@ == old(out)@ + enc_named(m@),
{
    let ghost start = out@;
    let entries = m.entries();
    proof {
        m.lemma_view_entries();
    }
    let mut i: usize = 0;
    while i < entries.len()
        invariant
            i <= entries.len(),
            entries@ == m.entries_spec(),
            m@.len() == entries@.len(),
            forall|j: int|
                0 <= j < m@.len() ==> #[trigger] m@[j] == (entries@[j].0@, entries@[j].1@),
            out@ == start + enc_named(m@.take(i as int)),
        decreases entries.len() - i,
    {
        put_text(out, entries[i].0.as_str());
        put_value(out, &entries[i].1);
        proof {
            assert(m@.take(i + 1).drop_last() =~= m@.take(i as int));
        }
        i = i + 1;
        assert(out@ =~= start + enc_named(m@.take(i as int)));
    }
    assert(m@.take(m@.len() as int) =~= m@);
}

/// The canonical byte encoding of a descriptor.
pub fn encode_descriptor(d: &Descriptor) -> (r: Vec<u8>)
    ensures
        r@ == enc_descriptor(d@.constants, d@.body),
{
    let mut out: Vec<u8> = vec![1u8];
    put_count(&mut out, d.constants.len());
    put_named(&mut out, &d.constants);
    put_term(&mut out, &d.body);
    assert(out@ =~= enc_descriptor(d@.constants, d@.body));
    out
}

/// The descriptor commitment: the tagged hash of its canonical encoding under
/// `dep17/descriptor`.
pub fn descriptor_id(d: &Descriptor) -> (r: [u8; 32])
    ensures
        r@ == tagged_hash_of("dep17/descriptor"@, enc_descriptor(d@.constants, d@.body)),
{
    let bytes = encode_descriptor(d);
    tagged_hash("dep17/descriptor", bytes.as_slice())
}

/// The canonical operation preimage: the bytes a signature over the operation commits to. It
/// binds the deposit, the operation type and arguments, the nonce and the expiry.
pub fn operation_preimage(op: &OperationData) -> (r: Vec<u8>)
    ensures
        r@ == op_preimage(op@),
{
    let mut out: Vec<u8> = vec![1u8];
    put_slice(&mut out, op.deposit_id.as_slice());
    put_text(&mut out, op.op_type.0.as_str());
    put_count(&mut out, op.args.len());
    put_named(&mut out, &op.args);
    put_u64(&mut out, op.nonce);
    put_u32(&mut out, op.expiry);
    assert(out@ =~= op_preimage(op@));
    out
}

/// The operation signing hash: the tagged hash of an operation preimage under
/// `dep17/operation`.
pub fn operation_sighash(preimage: &[u8]) -> (r: [u8; 32])
    ensures
        r@ == tagged_hash_of("dep17/operation"@, preimage@),
{
    tagged_hash("dep17/operation", preimage)
}

/// The signing preimage does not depend on the order the arguments were given in: two
/// operations that agree but for the order of the same arguments, each held in key order as an
/// operation's argument map holds them, have the same preimage.
pub proof fn lemma_preimage_ignores_argument_order(a: OperationV, b: OperationV)
    requires
        a.op_type == b.op_type,
        a.deposit_id == b.deposit_id,
        a.nonce == b.nonce,
        a.expiry == b.expiry,
        crate::maps::keys_sorted::<String, ValueV>(a.args),
        crate::maps::keys_sorted::<String, ValueV>(b.args),
        forall|x: (Seq<char>, ValueV)| a.args.contains(x) <==> b.args.contains(x),
    ensures
        op_preimage(a) == op_preimage(b),
{
    crate::maps::lemma_sorted_same_entries::<String, ValueV>(a.args, b.args);
    assert(a == b);
}

} // verus!
