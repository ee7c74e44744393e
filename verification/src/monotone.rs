//! Witness monotonicity: acquiring more evidence (a signature, a preimage, an attestation)
//! never revokes authority from a term whose obligations all stand in positive position, and
//! the parts of a term that hold no obligation do not depend on the witness at all.
use vstd::prelude::*;

use crate::admission::{admission, polarity_all, polarity_arms, polarity_ok};
use crate::ast::{BTermV, ObligationV};
use crate::capability::CapabilitySetV;
use crate::descriptor::DescriptorV;
use crate::ast::HashV;
use crate::eval::{
    EvalCtx, EvalErrorV, Evidence, accepted_keys, count_true, ctx, distinct_signed, eval_all,
    eval_any, eval_term, first_arm, host_evidence, obligation_holds,
};
use crate::host::OperationV;
use crate::maps::lookup;
use crate::encode::op_preimage;
use crate::snapshot::SnapshotV;
use crate::witness::{Verifier, WitnessV};

verus! {

/// `q` establishes everything `p` does.
pub open spec fn evidence_le(p: Evidence, q: Evidence) -> bool {
    &&& p.signed.subset_of(q.signed)
    &&& p.opened.subset_of(q.opened)
    &&& p.attested.subset_of(q.attested)
    &&& p.key_hashes.subset_of(q.key_hashes)
}

/// The arm `first_arm` selects obeys the polarity the arms do.
proof fn lemma_polarity_arm(arms: Seq<(Seq<char>, BTermV)>, positive: bool, i: int)
    requires
        polarity_arms(arms, positive),
        0 <= i < arms.len(),
    ensures
        polarity_ok(arms[i].1, positive),
    decreases i,
{
    if i > 0 {
        lemma_polarity_arm(arms.drop_first(), positive, i - 1);
    }
}

/// A term without obligations has the same verdict under any evidence.
pub proof fn lemma_witness_constant(t: BTermV, c: EvalCtx, p: Evidence, q: Evidence)
    requires
        polarity_ok(t, false),
    ensures
        eval_term(t, c, p) == eval_term(t, c, q),
    decreases t, 1nat,
{
    match t {
        BTermV::And(bs) => lemma_constant_all(bs, c, p, q),
        BTermV::Or(bs) => lemma_constant_all(bs, c, p, q),
        BTermV::Thresh(_, bs) => lemma_constant_all(bs, c, p, q),
        BTermV::Not(b) => lemma_witness_constant(*b, c, p, q),
        BTermV::If(cond, t1, e) => {
            lemma_witness_constant(*cond, c, p, q);
            lemma_witness_constant(*t1, c, p, q);
            lemma_witness_constant(*e, c, p, q);
        },
        BTermV::Match(s, arms, d) => {
            lemma_witness_constant(*d, c, p, q);
            match crate::eval::eval_value(s, c) {
                Ok(crate::ast::ValueV::Symbol(sym)) => {
                    let i = first_arm(arms, sym);
                    if i < arms.len() {
                        lemma_polarity_arm(arms, false, i as int);
                        lemma_witness_constant(arms[i as int].1, c, p, q);
                    }
                },
                _ => {},
            }
        },
        _ => {},
    }
}

/// A list of terms without obligations: conjunction, disjunction and counting are the same
/// under any evidence.
proof fn lemma_constant_all(bs: Seq<BTermV>, c: EvalCtx, p: Evidence, q: Evidence)
    requires
        polarity_all(bs, false),
    ensures
        eval_all(bs, c, p) == eval_all(bs, c, q),
        eval_any(bs, c, p) == eval_any(bs, c, q),
        count_true(bs, c, p) == count_true(bs, c, q),
    decreases bs, 0nat,
{
    if bs.len() > 0 {
        lemma_witness_constant(bs[0], c, p, q);
        lemma_constant_all(bs.drop_first(), c, p, q);
    }
}

/// More signers never count fewer distinct signed keys.
proof fn lemma_distinct_signed_monotone(ks: Seq<Seq<char>>, a: Set<Seq<char>>, b: Set<Seq<char>>)
    requires
        a.subset_of(b),
    ensures
        distinct_signed(ks, a) <= distinct_signed(ks, b),
    decreases ks.len(),
{
    if ks.len() > 0 {
        lemma_distinct_signed_monotone(ks.drop_last(), a, b);
    }
}

/// A discharged obligation stays discharged under more evidence.
proof fn lemma_obligation_monotone(o: ObligationV, c: EvalCtx, p: Evidence, q: Evidence)
    requires
        evidence_le(p, q),
        obligation_holds(o, c, p) == Ok::<bool, EvalErrorV>(true),
    ensures
        obligation_holds(o, c, q) == Ok::<bool, EvalErrorV>(true),
{
    match o {
        ObligationV::Multi(k, v) => {
            match crate::eval::keys_of(crate::eval::eval_value(v, c)) {
                Ok(ks) => lemma_distinct_signed_monotone(ks, p.signed, q.signed),
                _ => {},
            }
        },
        ObligationV::PkAny(v) => {
            match crate::eval::keys_of(crate::eval::eval_value(v, c)) {
                Ok(ks) => {
                    let i = choose|i: int| 0 <= i < ks.len() && p.signed.contains(ks[i]);
                    assert(q.signed.contains(ks[i]));
                },
                _ => {},
            }
        },
        ObligationV::PkH(v) => {
            match crate::eval::eval_value(v, c) {
                Ok(crate::ast::ValueV::Hash(h)) => {
                    let k = choose|k: Seq<char>|
                        p.signed.contains(k) && p.key_hashes.contains((k, h));
                    assert(q.signed.contains(k) && q.key_hashes.contains((k, h)));
                },
                _ => {},
            }
        },
        _ => {},
    }
}

/// Witness monotonicity of a term whose obligations all stand in positive position: if it is
/// accepted under some evidence, more evidence never makes it rejected. (Evaluation may still
/// fail where the larger evidence leads it into a branch it did not reach before.)
pub proof fn lemma_witness_monotone(t: BTermV, c: EvalCtx, p: Evidence, q: Evidence)
    requires
        polarity_ok(t, true),
        evidence_le(p, q),
        eval_term(t, c, p) == Ok::<bool, EvalErrorV>(true),
    ensures
        eval_term(t, c, q) != Ok::<bool, EvalErrorV>(false),
    decreases t, 1nat,
{
    match t {
        BTermV::And(bs) => lemma_monotone_all(bs, c, p, q),
        BTermV::Or(bs) => lemma_monotone_all(bs, c, p, q),
        BTermV::Thresh(_, bs) => lemma_monotone_all(bs, c, p, q),
        BTermV::Not(b) => lemma_witness_constant(*b, c, p, q),
        BTermV::If(cond, t1, e) => {
            lemma_witness_constant(*cond, c, p, q);
            match eval_term(*cond, c, p) {
                Ok(true) => lemma_witness_monotone(*t1, c, p, q),
                Ok(false) => lemma_witness_monotone(*e, c, p, q),
                _ => {},
            }
        },
        BTermV::Match(s, arms, d) => {
            match crate::eval::eval_value(s, c) {
                Ok(crate::ast::ValueV::Symbol(sym)) => {
                    let i = first_arm(arms, sym);
                    if i < arms.len() {
                        lemma_polarity_arm(arms, true, i as int);
                        lemma_witness_monotone(arms[i as int].1, c, p, q);
                    } else {
                        lemma_witness_monotone(*d, c, p, q);
                    }
                },
                _ => {},
            }
        },
        BTermV::Prove(o) => lemma_obligation_monotone(o, c, p, q),
        _ => {},
    }
}

/// Monotonicity for lists of positive terms: an accepted conjunction or disjunction is not
/// rejected under more evidence, and the number of children that hold does not drop.
proof fn lemma_monotone_all(bs: Seq<BTermV>, c: EvalCtx, p: Evidence, q: Evidence)
    requires
        polarity_all(bs, true),
        evidence_le(p, q),
    ensures
        eval_all(bs, c, p) == Ok::<bool, EvalErrorV>(true) ==> eval_all(bs, c, q) != Ok::<
            bool,
            EvalErrorV,
        >(false),
        eval_any(bs, c, p) == Ok::<bool, EvalErrorV>(true) ==> eval_any(bs, c, q) != Ok::<
            bool,
            EvalErrorV,
        >(false),
        count_true(bs, c, p) matches Ok(n) ==> (count_true(bs, c, q) matches Ok(m) ==> m >= n),
    decreases bs, 0nat,
{
    if bs.len() > 0 {
        lemma_monotone_all(bs.drop_first(), c, p, q);
        if eval_term(bs[0], c, p) == Ok::<bool, EvalErrorV>(true) {
            lemma_witness_monotone(bs[0], c, p, q);
        }
    }
}

/// Admitted descriptors are witness-monotone: a descriptor that passed admission and is
/// accepted under some evidence is not rejected under more evidence.
pub proof fn lemma_admitted_monotone(
    d: DescriptorV,
    caps: CapabilitySetV,
    c: EvalCtx,
    p: Evidence,
    q: Evidence,
)
    requires
        admission(d, caps) is None,
        evidence_le(p, q),
        eval_term(d.body, c, p) == Ok::<bool, EvalErrorV>(true),
    ensures
        eval_term(d.body, c, q) != Ok::<bool, EvalErrorV>(false),
{
    lemma_witness_monotone(d.body, c, p, q);
}

/// `b` carries everything `a` does: each of its signature entries, each revealed preimage, and
/// an attestation from each of its oracles.
pub open spec fn witness_le(a: WitnessV, b: WitnessV) -> bool {
    &&& forall|i: int| 0 <= i < a.signatures.len() ==> #[trigger] b.signatures.contains(a.signatures[i])
    &&& forall|h: HashV| #[trigger] lookup(a.preimages, h) is Some ==> lookup(b.preimages, h) == lookup(a.preimages, h)
    &&& forall|k: Seq<char>| #[trigger] lookup(a.attestations, k) is Some ==> lookup(b.attestations, k) is Some
}

/// A witness that carries more establishes more, under any verifier and message.
pub proof fn lemma_host_evidence_le<V: Verifier>(a: WitnessV, b: WitnessV, v: &V, message: Seq<u8>)
    requires
        witness_le(a, b),
    ensures
        evidence_le(host_evidence(a, v, message), host_evidence(b, v, message)),
{
    let p = host_evidence(a, v, message);
    let q = host_evidence(b, v, message);
    assert forall|k: Seq<char>| p.signed.contains(k) implies q.signed.contains(k) by {
        let i = choose|i: int|
            0 <= i < a.signatures.len() && a.signatures[i].0 == k && v.accepts(k, a.signatures[i].1, message);
        assert(b.signatures.contains(a.signatures[i]));
        let j = choose|j: int| 0 <= j < b.signatures.len() && b.signatures[j] == a.signatures[i];
        assert(b.signatures[j].0 == k && v.accepts(k, b.signatures[j].1, message));
    }
    assert forall|h: HashV| p.opened.contains(h) implies q.opened.contains(h) by {
        assert(lookup(a.preimages, h) is Some);
    }
    assert forall|k: Seq<char>| p.attested.contains(k) implies q.attested.contains(k) by {
        assert(lookup(a.attestations, k) is Some);
    }
}

/// Acquiring more witness data never revokes authority: if an admitted descriptor accepts an
/// operation under a witness, it does not reject it under a witness that carries more, with the
/// same verifier. This is what [`crate::eval::evaluate`] returns on each of the two witnesses.
pub proof fn lemma_more_witness_never_revokes<V: Verifier>(
    d: DescriptorV,
    caps: CapabilitySetV,
    op: OperationV,
    st: SnapshotV,
    a: WitnessV,
    b: WitnessV,
    v: &V,
)
    requires
        admission(d, caps) is None,
        witness_le(a, b),
        eval_term(d.body, ctx(d.constants, d.body, op, st), host_evidence(a, v, op_preimage(op)))
            == Ok::<bool, EvalErrorV>(true),
    ensures
        eval_term(d.body, ctx(d.constants, d.body, op, st), host_evidence(b, v, op_preimage(op)))
            != Ok::<bool, EvalErrorV>(false),
{
    lemma_host_evidence_le(a, b, v, op_preimage(op));
    lemma_admitted_monotone(
        d,
        caps,
        ctx(d.constants, d.body, op, st),
        host_evidence(a, v, op_preimage(op)),
        host_evidence(b, v, op_preimage(op)),
    );
}

} // verus!
