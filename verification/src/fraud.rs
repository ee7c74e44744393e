//! Fraud-proof replay.
//!
//! Every operation produces the same fraud-proof shape: the descriptor in effect, the operation,
//! the ledger snapshot, the witness, and the operator's claimed verdict. A verifier replays the
//! evaluation and compares. Evaluation is a strict, total fold of fixed inputs with no search, so
//! replay is deterministic and a disagreement is an unambiguous operator fault.
use vstd::prelude::*;

use crate::ast::{BTermV, HashV};
use crate::decode::{
    DecodeError, DecodeErrorV, decode_descriptor, decode_operation, rd_bool, rd_bytes,
    rd_descriptor, rd_end, rd_operation, rd_version, read_bool, read_bytes, read_u8,
};
use crate::descriptor::{Descriptor, DescriptorV};
use crate::encode::{bytes_field, enc_descriptor, encode_descriptor, op_preimage, operation_preimage, put_bytes};
use crate::eval::{
    EvalError, EvalErrorV, Evidence, ctx, eval_term, evaluate, evidence, host_evidence, term_arity_ok,
    witness_keys,
};
use crate::host::{OperationData, OperationV};
use crate::snapshot::{Snapshot, SnapshotV};
use crate::snapshot_codec::{decode_snapshot, enc_snapshot, encode_snapshot, rd_snapshot};
use crate::witness::{Verifier, Witness, WitnessV};
use crate::witness_codec::{decode_witness, enc_witness, encode_witness, rd_witness};

verus! {

/// The result of replaying an operation's authorization.
#[derive(Clone, Copy, PartialEq, Eq, Debug, Structural)]
pub enum ReplayOutcome {
    /// The operator's verdict matches the replayed evaluation.
    Consistent,
    /// The operator's verdict disagrees with the replayed evaluation: a provable fault.
    OperatorFault {
        /// The verdict the replayed evaluation produced.
        computed: bool,
        /// The verdict the operator claimed.
        claimed: bool,
    },
}

/// What replay reports for an evaluation result and a claimed verdict.
pub open spec fn outcome_of(computed: Result<bool, EvalErrorV>, claimed: bool) -> Result<
    ReplayOutcome,
    EvalErrorV,
> {
    match computed {
        Err(e) => Err(e),
        Ok(c) => Ok(
            if c == claimed {
                ReplayOutcome::Consistent
            } else {
                ReplayOutcome::OperatorFault { computed: c, claimed }
            },
        ),
    }
}

/// The view of a replay result.
pub open spec fn replay_view(r: Result<ReplayOutcome, EvalError>) -> Result<
    ReplayOutcome,
    EvalErrorV,
> {
    match r {
        Ok(o) => Ok(o),
        Err(e) => Err(e@),
    }
}

/// Compare an evaluation result with the operator's claimed verdict.
pub fn compare_verdict(computed: Result<bool, EvalError>, claimed: bool) -> (r: Result<
    ReplayOutcome,
    EvalError,
>)
    ensures
        replay_view(r) == outcome_of(
            match computed {
                Ok(b) => Ok(b),
                Err(e) => Err(e@),
            },
            claimed,
        ),
{
    match computed {
        Err(e) => Err(e),
        Ok(c) => Ok(
            if c == claimed {
                ReplayOutcome::Consistent
            } else {
                ReplayOutcome::OperatorFault { computed: c, claimed }
            },
        ),
    }
}

/// Replay an operation's authorization and compare it to the operator's claimed verdict.
///
/// The replayed verdict is the descriptor body's value under the evidence the witness provides:
/// the keys whose signatures the verifier accepts over the operation's signing preimage, and
/// the key hashes the verifier matches.
pub fn replay<V: Verifier>(
    descriptor: &Descriptor,
    op: &OperationData,
    state: &Snapshot,
    witness: &Witness,
    verifier: &V,
    claimed: bool,
) -> (r: Result<ReplayOutcome, EvalError>)
    requires
        term_arity_ok(descriptor@.body),
    ensures
        replay_view(r) == outcome_of(
            eval_term(
                descriptor@.body,
                ctx(descriptor@.constants, descriptor@.body, op@, state@),
                host_evidence(witness@, verifier, op_preimage(op@)),
            ),
            claimed,
        ),
{
    let computed = evaluate(descriptor, op, state, witness, verifier);
    compare_verdict(computed, claimed)
}

/// A self-contained fraud proof: everything needed to replay one operation's authorization.
#[derive(Debug, PartialEq, Eq)]
pub struct FraudProof {
    /// The descriptor in effect at the time of the operation.
    pub descriptor: Descriptor,
    /// The operation that was authorized.
    pub operation: OperationData,
    /// The ledger-state snapshot the operation was evaluated against.
    pub snapshot: Snapshot,
    /// The witness supplied with the operation.
    pub witness: Witness,
    /// The operator's claimed verdict.
    pub claimed: bool,
}

/// The view of a [`FraudProof`].
pub struct FraudProofV {
    pub descriptor: DescriptorV,
    pub operation: OperationV,
    pub snapshot: SnapshotV,
    pub witness: WitnessV,
    pub claimed: bool,
}

impl View for FraudProof {
    type V = FraudProofV;

    open spec fn view(&self) -> FraudProofV {
        FraudProofV {
            descriptor: self.descriptor@,
            operation: self.operation@,
            snapshot: self.snapshot@,
            witness: self.witness@,
            claimed: self.claimed,
        }
    }
}

/// The canonical encoding of a fraud proof: version, then each component length delimited,
/// then the claimed verdict as a boolean byte.
pub open spec fn enc_fraud_proof(f: FraudProofV) -> Seq<u8> {
    seq![1u8] + bytes_field(enc_descriptor(f.descriptor.constants, f.descriptor.body))
        + bytes_field(op_preimage(f.operation)) + bytes_field(enc_snapshot(f.snapshot))
        + bytes_field(enc_witness(f.witness)) + seq![if f.claimed { 1u8 } else { 0u8 }]
}

/// The fraud proof a byte string encodes: each component is decoded from its own delimited
/// bytes with that component's canonical rejection.
pub open spec fn rd_fraud_proof(s: Seq<u8>) -> Result<FraudProofV, DecodeErrorV> {
    match rd_version(s) {
        Err(e) => Err(e),
        Ok((_, p)) => match rd_bytes(s, p) {
            Err(e) => Err(e),
            Ok((db, p1)) => match rd_descriptor(db) {
                Err(e) => Err(e),
                Ok((constants, body)) => match rd_bytes(s, p1) {
                    Err(e) => Err(e),
                    Ok((ob, p2)) => match rd_operation(ob) {
                        Err(e) => Err(e),
                        Ok(operation) => match rd_bytes(s, p2) {
                            Err(e) => Err(e),
                            Ok((sb, p3)) => match rd_snapshot(sb) {
                                Err(e) => Err(e),
                                Ok(snapshot) => match rd_bytes(s, p3) {
                                    Err(e) => Err(e),
                                    Ok((wb, p4)) => match rd_witness(wb) {
                                        Err(e) => Err(e),
                                        Ok(witness) => match rd_bool(s, p4) {
                                            Err(e) => Err(e),
                                            Ok((claimed, p5)) => match rd_end(s, p5) {
                                                Err(e) => Err(e),
                                                Ok(()) => Ok(
                                                    FraudProofV {
                                                        descriptor: DescriptorV { constants, body },
                                                        operation,
                                                        snapshot,
                                                        witness,
                                                        claimed,
                                                    },
                                                ),
                                            },
                                        },
                                    },
                                },
                            },
                        },
                    },
                },
            },
        },
    }
}

/// The canonical byte encoding of a fraud proof.
pub fn encode_fraud_proof(fp: &FraudProof) -> (r: Vec<u8>)
    ensures
        r@ == enc_fraud_proof(fp@),
{
    let mut out: Vec<u8> = vec![1u8];
    let d = encode_descriptor(&fp.descriptor);
    put_bytes(&mut out, d.as_slice());
    let o = operation_preimage(&fp.operation);
    put_bytes(&mut out, o.as_slice());
    let s = encode_snapshot(&fp.snapshot);
    put_bytes(&mut out, s.as_slice());
    let w = encode_witness(&fp.witness);
    put_bytes(&mut out, w.as_slice());
    out.push(if fp.claimed { 1u8 } else { 0u8 });
    assert(out@ =~= enc_fraud_proof(fp@));
    out
}

/// Decode a fraud proof, rejecting non-canonical input in any component.
pub fn decode_fraud_proof(buf: &[u8]) -> (r: Result<FraudProof, DecodeError>)
    ensures
        match r {
            Ok(f) => rd_fraud_proof(buf@) == Ok::<FraudProofV, DecodeErrorV>(f@),
            Err(e) => rd_fraud_proof(buf@) == Err::<FraudProofV, DecodeErrorV>(e@),
        },
{
    let (v, p) = match read_u8(buf, 0) {
        Err(e) => return Err(e),
        Ok(x) => x,
    };
    if v != 1 {
        return Err(DecodeError::BadVersion(v));
    }
    let (db, p1) = match read_bytes(buf, p) {
        Err(e) => return Err(e),
        Ok(x) => x,
    };
    let descriptor = match decode_descriptor(db.as_slice()) {
        Err(e) => return Err(e),
        Ok(x) => x,
    };
    let (ob, p2) = match read_bytes(buf, p1) {
        Err(e) => return Err(e),
        Ok(x) => x,
    };
    let operation = match decode_operation(ob.as_slice()) {
        Err(e) => return Err(e),
        Ok(x) => x,
    };
    let (sb, p3) = match read_bytes(buf, p2) {
        Err(e) => return Err(e),
        Ok(x) => x,
    };
    let snapshot = match decode_snapshot(sb.as_slice()) {
        Err(e) => return Err(e),
        Ok(x) => x,
    };
    let (wb, p4) = match read_bytes(buf, p3) {
        Err(e) => return Err(e),
        Ok(x) => x,
    };
    let witness = match decode_witness(wb.as_slice()) {
        Err(e) => return Err(e),
        Ok(x) => x,
    };
    let (claimed, p5) = match read_bool(buf, p4) {
        Err(e) => return Err(e),
        Ok(x) => x,
    };
    if p5 != buf.len() {
        return Err(DecodeError::TrailingBytes);
    }
    Ok(FraudProof { descriptor, operation, snapshot, witness, claimed })
}

impl FraudProof {
    /// The canonical byte encoding of this fraud proof.
    pub fn encode(&self) -> (r: Vec<u8>)
        ensures
            r@ == enc_fraud_proof(self@),
    {
        encode_fraud_proof(self)
    }

    /// Decode a fraud proof from canonical bytes, rejecting any non-canonical input.
    pub fn decode(buf: &[u8]) -> (r: Result<FraudProof, DecodeError>)
        ensures
            match r {
                Ok(f) => rd_fraud_proof(buf@) == Ok::<FraudProofV, DecodeErrorV>(f@),
                Err(e) => rd_fraud_proof(buf@) == Err::<FraudProofV, DecodeErrorV>(e@),
            },
    {
        decode_fraud_proof(buf)
    }

    /// Replay the bundled operation and compare it to the claimed verdict.
    pub fn adjudicate<V: Verifier>(&self, verifier: &V) -> (r: Result<ReplayOutcome, EvalError>)
        requires
            term_arity_ok(self.descriptor@.body),
        ensures
            replay_view(r) == outcome_of(
                eval_term(
                    self.descriptor@.body,
                    ctx(
                        self.descriptor@.constants,
                        self.descriptor@.body,
                        self.operation@,
                        self.snapshot@,
                    ),
                    host_evidence(self.witness@, verifier, op_preimage(self.operation@)),
                ),
                self.claimed,
            ),
    {
        replay(&self.descriptor, &self.operation, &self.snapshot, &self.witness, verifier, self.claimed)
    }
}


/// Replay convicts the operator exactly when its claimed verdict differs from the verdict the
/// evaluation gives, and the conviction records both; an evaluation error is passed on.
pub proof fn lemma_replay_convicts_exactly(computed: Result<bool, EvalErrorV>, claimed: bool)
    ensures
        computed is Err ==> outcome_of(computed, claimed) == Err::<ReplayOutcome, EvalErrorV>(computed->Err_0),
        computed matches Ok(c) ==> (outcome_of(computed, claimed) == Ok::<ReplayOutcome, EvalErrorV>(
            ReplayOutcome::Consistent,
        ) <==> c == claimed),
        computed == Ok::<bool, EvalErrorV>(!claimed) ==> outcome_of(computed, claimed) == Ok::<
            ReplayOutcome,
            EvalErrorV,
        >(ReplayOutcome::OperatorFault { computed: !claimed, claimed }),
{
}

} // verus!
