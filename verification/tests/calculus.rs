//! Worked examples: parse descriptors, evaluate them against operations, snapshots and witnesses
//! under a mock signature scheme, admit and modify them, and run them through the canonical
//! encodings and fraud-proof replay.

use bitcoin::hashes::{hash160, sha256, Hash as _};

use dep16::admission::{admit_descriptor, check_polarity, AdmissionError};
use dep16::ast::{BTerm, HashValue, Obligation, Value, VTerm};
use dep16::capability::CapabilitySet;
use dep16::decode::{decode_descriptor, decode_operation, DecodeError};
use dep16::descriptor::Descriptor;
use dep16::encode::{descriptor_id, encode_descriptor, operation_preimage, operation_sighash};
use dep16::eval::{eval_b, evaluate};
use dep16::fraud::{replay, FraudProof, ReplayOutcome};
use dep16::hashes::tagged_hash;
use dep16::host::{Operation, OperationData};
use dep16::limits::MAX_DEPTH;
use dep16::maps::SortedMap;
use dep16::modify::{admit_modification, candidate, replace_at, ModificationRejected, ModifyError};
use dep16::parse::parse;
use dep16::print::to_string;
use dep16::registry::{CmpOp, StatePred, Symbol, ValueFn};
use dep16::snapshot::Snapshot;
use dep16::snapshot_codec::{decode_snapshot, encode_snapshot, snapshot_id};
use dep16::mock::MockVerifier;
use dep16::witness::{Signature, Witness};

/// The mock signature scheme: a valid signature by `key` over `msg` is `key | "|" | msg`.
fn mock_sig(key: &str, msg: &[u8]) -> Signature {
    let mut bytes = key.as_bytes().to_vec();
    bytes.push(b'|');
    bytes.extend_from_slice(msg);
    Signature(bytes)
}

/// A witness signing `op` with each of `signers` under the mock scheme.
fn witness_signed_by(op: &OperationData, signers: &[&str]) -> Witness {
    let msg = operation_preimage(op);
    let mut w = Witness::empty();
    for s in signers {
        w = w.with_signature(s.to_string(), mock_sig(s, &msg));
    }
    w
}

fn op_of(ty: &str, args: Vec<(&str, Value)>, nonce: u64) -> OperationData {
    let mut m = SortedMap::new();
    for (k, v) in args {
        m.insert(k.to_string(), v);
    }
    OperationData { op_type: Symbol::new(ty), args: m, deposit_id: [0u8; 32], nonce, expiry: u32::MAX }
}

fn spend(amount: i128, destination: &str) -> OperationData {
    op_of(
        "spend",
        vec![("amount", Value::Int(amount)), ("destination", Value::Key(destination.to_string()))],
        0,
    )
}

fn spend_with_nonce(amount: i128, destination: &str, nonce: u64) -> OperationData {
    op_of(
        "spend",
        vec![("amount", Value::Int(amount)), ("destination", Value::Key(destination.to_string()))],
        nonce,
    )
}

fn of_type(ty: &str) -> OperationData {
    op_of(ty, vec![], 0)
}

fn replace_op(path: Vec<usize>, subtree: BTerm) -> OperationData {
    op_of(
        "replace",
        vec![("path", Value::Path(path)), ("subtree", Value::Subtree(Box::new(subtree)))],
        0,
    )
}

/// A ledger: balance, blocks since activity / open / received, the outgoing rolling total of the
/// windows the examples read, and the cumulative spend via path `[0]`.
#[derive(Clone, Copy)]
struct Ledger {
    balance: i128,
    since_activity: u32,
    since_open: u32,
    since_received: u32,
    rolling_out: i128,
    cumulative: i128,
}

impl Default for Ledger {
    fn default() -> Self {
        Ledger { balance: 1000, since_activity: 0, since_open: 0, since_received: 0, rolling_out: 0, cumulative: 0 }
    }
}

impl Ledger {
    fn snapshot(&self) -> Snapshot {
        let mut rolling = SortedMap::new();
        rolling.insert(("amount_out".to_string(), 4320u32), self.rolling_out);
        rolling.insert(("amount_out".to_string(), 1008u32), self.rolling_out);
        let mut cumulative_spent = SortedMap::new();
        cumulative_spent.insert(vec![0usize], self.cumulative);
        Snapshot {
            balance: self.balance,
            blocks_since_activity: self.since_activity,
            blocks_since_open: self.since_open,
            blocks_since_received: self.since_received,
            height: 0,
            rolling,
            cumulative_spent,
        }
    }
}

const ALLOWANCE: &str = "
    with(
      user = K1,
      delegate = K2,
      guardians = [K3, K4, K5],
      recovery_to = D1,
      in match(operation_type(),
        branch(spend,
          or(
            prove(pk(user)),
            and(
              prove(pk(delegate)),
              amount_at_most_pct(10),
              rolling_amount_below_pct(30, 4320)
            ),
            and(
              prove(pk_threshold(2, guardians)),
              blocks_since_activity_at_least(4320),
              destination_is(recovery_to)
            )
          )
        ),
        branch(insert, prove(pk(user))),
        branch(replace, prove(pk(user))),
        branch(delete, prove(pk(user))),
        branch(else, false)
      )
    )";

fn decide(src: &str, op: &OperationData, st: &Ledger, signers: &[&str]) -> bool {
    let d = parse(src).expect("parse");
    let w = witness_signed_by(op, signers);
    evaluate(&d, op, &st.snapshot(), &w, &MockVerifier).expect("eval")
}

fn pk(k: &str) -> BTerm {
    BTerm::Prove(Obligation::Pk(VTerm::Lit(Value::Key(k.to_string()))))
}

fn bare(body: BTerm) -> Descriptor {
    Descriptor { constants: SortedMap::new(), body }
}

// ---------------------------------------------------------------------------------------------
// The parser
// ---------------------------------------------------------------------------------------------

const PARSER_ALLOWANCE: &str = "
    with(
      user = K1,
      delegate = K2,
      guardians = [K3, K4, K5],
      recovery_to = D1,
      in match(operation_type(),
        branch(spend,
          or(
            prove(pk(user)),
            and(
              prove(pk(delegate)),
              amount_at_most_pct(10),
              rolling_amount_below_pct(30, 4320)
            ),
            and(
              prove(pk_threshold(2, guardians)),
              blocks_since_activity_at_least(4320),
              destination_is(recovery_to)
            )
          )
        ),
        branch(insert, prove(pk(user))),
        branch(replace, prove(pk(user))),
        branch(delete, prove(pk(user))),
        branch(else, false)
      )
    )";

const ORACLE: &str = "
    with(
      user = K1,
      rebalancer = K2,
      oracle = K3,
      counterparty = D1,
      in match(operation_type(),
        branch(spend,
          or(
            prove(pk(user)),
            and(
              prove(pk(rebalancer)),
              destination_is(counterparty),
              prove(attest(oracle, price_schema(50)))
            )
          )
        ),
        branch(else, false)
      )
    )";

const PARSER_ROTATION: &str = "
    with(
      user = K1,
      guardians = [G1, G2, G3, G4],
      in match(operation_type(),
        branch(spend, prove(pk(user))),
        branch(replace,
          or(
            prove(pk(user)),
            and(
              prove(pk_threshold(3, guardians)),
              blocks_since_activity_at_least(8640),
              cmp(=, operation_path(), path(0, 0))
            )
          )
        ),
        branch(else, false)
      )
    )";

#[test]
fn parses_allowance_example() {
    let d = parse(PARSER_ALLOWANCE).unwrap();
    assert_eq!(d.constants.len(), 4);
    assert_eq!(d.constants.get("user"), Some(&Value::Key("K1".to_string())));
    match d.constants.get("guardians") {
        Some(Value::List(ks)) => assert_eq!(ks.len(), 3),
        other => panic!("guardians not a 3-list: {:?}", other),
    }
    match d.body() {
        BTerm::Match { arms, .. } => assert_eq!(arms.len(), 4),
        other => panic!("body not a match: {:?}", other),
    }
}

#[test]
fn parses_oracle_example() {
    let d = parse(ORACLE).unwrap();
    assert_eq!(d.constants.len(), 4);
    let found = format!("{:?}", d.body()).contains("PriceWithinBps { tolerance_bps: 50 }");
    assert!(found, "expected a 50bps price schema in the parsed body");
}

#[test]
fn parses_rotation_example() {
    let d = parse(PARSER_ROTATION).unwrap();
    assert_eq!(d.constants.len(), 2);
    match d.constants.get("guardians") {
        Some(Value::List(ks)) => assert_eq!(ks.len(), 4),
        other => panic!("guardians not a 4-list: {:?}", other),
    }
}

#[test]
fn rejects_match_without_else() {
    let r = parse("match(operation_type(), branch(spend, true))");
    assert!(r.is_err(), "match without else should fail");
}

#[test]
fn parses_bare_expression_without_with() {
    let d = parse("prove(pk(user_key))").unwrap();
    assert!(d.constants.is_empty());
    assert!(matches!(d.body(), BTerm::Prove(Obligation::Pk(_))));
}

// ---------------------------------------------------------------------------------------------
// Evaluation of the allowance example
// ---------------------------------------------------------------------------------------------

#[test]
fn user_can_spend_anything() {
    let op = spend(999, "anywhere");
    assert!(decide(ALLOWANCE, &op, &Ledger::default(), &["K1"]));
}

#[test]
fn delegate_within_allowance_accepted() {
    let op = spend(100, "anywhere");
    let st = Ledger { rolling_out: 50, ..Ledger::default() };
    assert!(decide(ALLOWANCE, &op, &st, &["K2"]));
}

#[test]
fn delegate_over_per_op_cap_rejected() {
    let op = spend(200, "anywhere");
    assert!(!decide(ALLOWANCE, &op, &Ledger::default(), &["K2"]));
}

#[test]
fn delegate_over_rolling_cap_rejected() {
    let op = spend(100, "anywhere");
    let st = Ledger { rolling_out: 400, ..Ledger::default() };
    assert!(!decide(ALLOWANCE, &op, &st, &["K2"]));
}

#[test]
fn guardians_recover_after_inactivity() {
    let op = spend(500, "D1");
    let st = Ledger { since_activity: 5000, ..Ledger::default() };
    assert!(decide(ALLOWANCE, &op, &st, &["K3", "K4"]));
}

#[test]
fn guardians_blocked_before_inactivity_window() {
    let op = spend(500, "D1");
    let st = Ledger { since_activity: 100, ..Ledger::default() };
    assert!(!decide(ALLOWANCE, &op, &st, &["K3", "K4"]));
}

#[test]
fn guardians_blocked_to_wrong_destination() {
    let op = spend(500, "elsewhere");
    let st = Ledger { since_activity: 5000, ..Ledger::default() };
    assert!(!decide(ALLOWANCE, &op, &st, &["K3", "K4"]));
}

#[test]
fn one_guardian_is_not_enough() {
    let op = spend(500, "D1");
    let st = Ledger { since_activity: 5000, ..Ledger::default() };
    assert!(!decide(ALLOWANCE, &op, &st, &["K3"]));
}

#[test]
fn user_can_modify() {
    let op = of_type("insert");
    assert!(decide(ALLOWANCE, &op, &Ledger::default(), &["K1"]));
}

#[test]
fn delegate_cannot_modify() {
    let op = of_type("insert");
    assert!(!decide(ALLOWANCE, &op, &Ledger::default(), &["K2"]));
}

#[test]
fn unknown_operation_type_denied_by_else() {
    let op = of_type("accept");
    assert!(!decide(ALLOWANCE, &op, &Ledger::default(), &["K1"]));
}

// ---------------------------------------------------------------------------------------------
// Admission
// ---------------------------------------------------------------------------------------------

fn always_true() -> BTerm {
    BTerm::State(StatePred::BalanceAtLeast, vec![VTerm::Lit(Value::Int(0))])
}

#[test]
fn rejects_proof_under_not() {
    assert_eq!(check_polarity(&BTerm::Not(Box::new(pk("A"))), true), Err(AdmissionError::NegativeProof));
}

#[test]
fn rejects_proof_in_if_condition() {
    let t = BTerm::If(Box::new(pk("A")), Box::new(BTerm::Const(true)), Box::new(BTerm::Const(false)));
    assert_eq!(check_polarity(&t, true), Err(AdmissionError::NegativeProof));
}

#[test]
fn rejects_proof_nested_under_not_in_or() {
    let t = BTerm::Or(vec![pk("A"), BTerm::Not(Box::new(pk("B")))]);
    assert_eq!(check_polarity(&t, true), Err(AdmissionError::NegativeProof));
}

#[test]
fn accepts_proofs_in_positive_positions() {
    let t = BTerm::And(vec![
        pk("A"),
        BTerm::Or(vec![pk("B"), pk("C")]),
        BTerm::If(Box::new(always_true()), Box::new(pk("D")), Box::new(pk("E"))),
    ]);
    assert_eq!(check_polarity(&t, true), Ok(()));
}

#[test]
fn negation_of_state_is_fine() {
    assert_eq!(check_polarity(&BTerm::Not(Box::new(always_true())), true), Ok(()));
}

#[test]
fn capability_gates_state_predicates() {
    let body = BTerm::State(StatePred::AmountAtMostPct, vec![VTerm::Lit(Value::Int(10))]);
    let d = bare(body);
    assert!(admit_descriptor(&d, &CapabilitySet::everything()).is_ok());
    assert_eq!(
        admit_descriptor(&d, &CapabilitySet::minimum()),
        Err(AdmissionError::UncapableStatePred(StatePred::AmountAtMostPct)),
    );
}

#[test]
fn unresolved_constant_is_rejected() {
    let body = BTerm::Prove(Obligation::Pk(VTerm::Var("missing".to_string())));
    let d = bare(body);
    assert_eq!(
        admit_descriptor(&d, &CapabilitySet::everything()),
        Err(AdmissionError::UnresolvedVar("missing".to_string())),
    );
}

#[test]
fn worked_allowance_example_is_admitted() {
    let d = parse(ALLOWANCE).unwrap();
    assert!(admit_descriptor(&d, &CapabilitySet::everything()).is_ok());
}

// ---------------------------------------------------------------------------------------------
// Witness monotonicity on generated terms
// ---------------------------------------------------------------------------------------------

const KEYS: [&str; 4] = ["A", "B", "C", "D"];

struct Rng(u64);

impl Rng {
    fn next(&mut self) -> u64 {
        self.0 = self.0.wrapping_mul(6364136223846793005).wrapping_add(1442695040888963407);
        self.0 >> 33
    }
    fn below(&mut self, n: u64) -> u64 {
        self.next() % n
    }
}

fn leaf(rng: &mut Rng) -> BTerm {
    match rng.below(4) {
        0 => BTerm::Prove(Obligation::Pk(VTerm::Lit(Value::Key(KEYS[rng.below(4) as usize].to_string())))),
        1 => BTerm::Const(true),
        2 => BTerm::Const(false),
        _ => BTerm::State(StatePred::BalanceAtLeast, vec![VTerm::Lit(Value::Int(0))]),
    }
}

fn gen(d: u32, rng: &mut Rng) -> BTerm {
    if d == 0 {
        return leaf(rng);
    }
    match rng.below(7) {
        0 => BTerm::And(gen_list(d, rng)),
        1 => BTerm::Or(gen_list(d, rng)),
        2 => BTerm::Thresh(rng.below(4) as usize, gen_list(d, rng)),
        3 => BTerm::Not(Box::new(gen(d - 1, rng))),
        4 => BTerm::If(Box::new(gen(d - 1, rng)), Box::new(gen(d - 1, rng)), Box::new(gen(d - 1, rng))),
        _ => leaf(rng),
    }
}

fn gen_list(d: u32, rng: &mut Rng) -> Vec<BTerm> {
    let n = 2 + rng.below(2);
    (0..n).map(|_| gen(d - 1, rng)).collect()
}

fn accept(term: &BTerm, mask: u8) -> bool {
    let op = spend(1, "x");
    let st = Ledger::default().snapshot();
    let signers: Vec<&str> = (0..4).filter(|i| mask & (1 << i) != 0).map(|i| KEYS[i]).collect();
    let w = witness_signed_by(&op, &signers);
    let env = SortedMap::new();
    eval_b(term, &env, term, &op, &st, &w, &MockVerifier).expect("generated terms never error")
}

#[test]
fn admitted_terms_are_witness_monotone() {
    let caps = CapabilitySet::everything();
    let mut rng = Rng(0x9E3779B97F4A7C15);
    let mut admitted = 0u32;
    let mut rejected = 0u32;
    for _ in 0..500 {
        let body = gen(4, &mut rng);
        let d = bare(body);
        if admit_descriptor(&d, &caps).is_err() {
            rejected += 1;
            continue;
        }
        admitted += 1;
        for m in 0u8..16 {
            if !accept(&d.body, m) {
                continue;
            }
            for m2 in 0u8..16 {
                if m & m2 == m {
                    assert!(accept(&d.body, m2), "monotonicity violated: {:04b} vs {:04b}", m, m2);
                }
            }
        }
    }
    assert!(admitted > 50, "too few admitted terms ({})", admitted);
    assert!(rejected > 0, "generator produced no negative-position proofs to reject");
}

// ---------------------------------------------------------------------------------------------
// Signatures, hashlocks, pk_h
// ---------------------------------------------------------------------------------------------

#[test]
fn signature_binds_to_the_operation() {
    let d = parse(
        "with(user = K1, in match(operation_type(), branch(spend, prove(pk(user))), branch(else, false)))",
    )
    .unwrap();
    let op_a = spend(100, "alice");
    let op_b = spend(999, "bob");
    let st = Ledger::default().snapshot();
    let w = witness_signed_by(&op_a, &["K1"]);
    assert!(evaluate(&d, &op_a, &st, &w, &MockVerifier).unwrap());
    assert!(!evaluate(&d, &op_b, &st, &w, &MockVerifier).unwrap());
}

#[test]
fn hashlock_requires_a_matching_preimage() {
    let preimage = b"open sesame".to_vec();
    let digest = HashValue::Sha256(sha256::Hash::hash(&preimage).to_byte_array());
    let body = BTerm::Prove(Obligation::Hashlock(VTerm::Lit(Value::Hash(digest.clone()))));
    let d = bare(body);
    let op = spend(1, "x");
    let st = Ledger::default().snapshot();
    assert!(!evaluate(&d, &op, &st, &Witness::empty(), &MockVerifier).unwrap());
    let w = Witness::empty().with_preimage(digest.clone(), preimage);
    assert!(evaluate(&d, &op, &st, &w, &MockVerifier).unwrap());
    let w_bad = Witness::empty().with_preimage(digest, b"wrong".to_vec());
    assert!(!evaluate(&d, &op, &st, &w_bad, &MockVerifier).unwrap());
}

#[test]
fn pk_h_matches_a_revealed_key_by_hash() {
    let key = "K1";
    let keyhash = HashValue::Hash160(hash160::Hash::hash(key.as_bytes()).to_byte_array());
    let d = bare(BTerm::Prove(Obligation::PkH(VTerm::Lit(Value::Hash(keyhash)))));
    let op = spend(1, "x");
    let st = Ledger::default().snapshot();
    let w = witness_signed_by(&op, &[key]);
    assert!(evaluate(&d, &op, &st, &w, &MockVerifier).unwrap());
    let w_other = witness_signed_by(&op, &["K2"]);
    assert!(!evaluate(&d, &op, &st, &w_other, &MockVerifier).unwrap());
}

// ---------------------------------------------------------------------------------------------
// Inspection, modification and re-admission
// ---------------------------------------------------------------------------------------------

const ROTATION: &str = "
    with(
      user = K1,
      guardians = [G1, G2, G3, G4],
      in match(operation_type(),
        branch(spend, prove(pk(user))),
        branch(replace,
          or(
            prove(pk(user)),
            and(
              prove(pk_threshold(3, guardians)),
              blocks_since_activity_at_least(8640),
              cmp(=, operation_path(), path(0))
            )
          )
        ),
        branch(else, false)
      )
    )";

#[test]
fn guardian_rotation_authorizes_replace_at_the_user_clause() {
    let op = replace_op(vec![0], pk("K9"));
    let st = Ledger { since_activity: 9000, ..Ledger::default() };
    assert!(decide(ROTATION, &op, &st, &["G1", "G2", "G3"]));
}

#[test]
fn guardian_rotation_blocked_at_a_different_path() {
    let op = replace_op(vec![1], pk("K9"));
    let st = Ledger { since_activity: 9000, ..Ledger::default() };
    assert!(!decide(ROTATION, &op, &st, &["G1", "G2", "G3"]));
}

#[test]
fn guardian_rotation_blocked_before_inactivity() {
    let op = replace_op(vec![0], pk("K9"));
    let st = Ledger { since_activity: 10, ..Ledger::default() };
    assert!(!decide(ROTATION, &op, &st, &["G1", "G2", "G3"]));
}

fn user_can_replace() -> Descriptor {
    let mut constants = SortedMap::new();
    constants.insert("user".to_string(), Value::Key("K1".to_string()));
    let body = BTerm::Match {
        scrutinee: VTerm::Op(ValueFn::OperationType, vec![]),
        arms: vec![(Symbol::new("replace"), BTerm::Prove(Obligation::Pk(VTerm::Var("user".to_string()))))],
        default: Box::new(BTerm::Const(false)),
    };
    Descriptor { constants, body }
}

#[test]
fn candidate_replaces_the_targeted_subtree() {
    let d = user_can_replace();
    let op = replace_op(vec![0], pk("K2"));
    let cand = candidate(&d, &op).expect("candidate");
    assert_eq!(cand.body.subterm_at(&[0]), Some(&pk("K2")));
    assert!(admit_modification(&d, &op, &CapabilitySet::everything()).is_ok());
}

#[test]
fn modification_introducing_a_negative_proof_is_rejected() {
    let d = user_can_replace();
    let bad = BTerm::Not(Box::new(pk("K2")));
    let op = replace_op(vec![0], bad);
    match admit_modification(&d, &op, &CapabilitySet::everything()) {
        Err(ModificationRejected::Inadmissible(AdmissionError::NegativeProof)) => {}
        other => panic!("expected NegativeProof rejection, got {:?}", other),
    }
}

#[test]
fn ast_inspection_reads_shape_and_subtree() {
    let leaf = pk("K1");
    let shape_check = BTerm::Cmp(
        CmpOp::Eq,
        VTerm::Op(ValueFn::AstShapeAt, vec![VTerm::Op(ValueFn::Path, vec![VTerm::Lit(Value::Int(0))])]),
        VTerm::Lit(Value::Symbol(Symbol::new("pk"))),
    );
    let subtree_check = BTerm::State(
        StatePred::SubtreeAt,
        vec![
            VTerm::Lit(Value::Subtree(Box::new(pk("K1")))),
            VTerm::Op(ValueFn::Path, vec![VTerm::Lit(Value::Int(0))]),
        ],
    );
    let d = bare(BTerm::And(vec![leaf, shape_check, subtree_check]));
    let op = spend(1, "x");
    let st = Ledger::default().snapshot();
    let w = witness_signed_by(&op, &["K1"]);
    assert!(evaluate(&d, &op, &st, &w, &MockVerifier).unwrap());
}

// ---------------------------------------------------------------------------------------------
// Fraud replay and the canonical source form
// ---------------------------------------------------------------------------------------------

#[test]
fn replay_confirms_a_correct_verdict_and_catches_a_wrong_one() {
    let d = parse(ALLOWANCE).unwrap();
    let op = spend(999, "anywhere");
    let st = Ledger::default().snapshot();
    let w = witness_signed_by(&op, &["K1"]);
    assert_eq!(replay(&d, &op, &st, &w, &MockVerifier, true).unwrap(), ReplayOutcome::Consistent);
    assert_eq!(
        replay(&d, &op, &st, &w, &MockVerifier, false).unwrap(),
        ReplayOutcome::OperatorFault { computed: true, claimed: false },
    );
}

#[test]
fn replay_catches_an_unauthorized_acceptance() {
    let d = parse(ALLOWANCE).unwrap();
    let op = spend(999, "anywhere");
    let st = Ledger::default().snapshot();
    let w = Witness::empty();
    assert_eq!(
        replay(&d, &op, &st, &w, &MockVerifier, true).unwrap(),
        ReplayOutcome::OperatorFault { computed: false, claimed: true },
    );
}

#[test]
fn canonical_encoding_round_trips_and_is_stable() {
    let d = parse(ALLOWANCE).unwrap();
    let printed = to_string(&d);
    let reparsed = parse(&printed).expect("reparse canonical form");
    assert_eq!(d, reparsed);
    assert_eq!(printed, to_string(&reparsed));
}

// ---------------------------------------------------------------------------------------------
// Commitments and signing preimages
// ---------------------------------------------------------------------------------------------

#[test]
fn descriptor_id_is_stable_and_sensitive() {
    let d = parse(ALLOWANCE).unwrap();
    assert_eq!(descriptor_id(&d), descriptor_id(&d));
    assert_eq!(encode_descriptor(&d), encode_descriptor(&d));
    let other = parse("prove(pk(K1))").unwrap();
    assert_ne!(descriptor_id(&d), descriptor_id(&other));
}

#[test]
fn signing_preimage_binds_nonce() {
    let op0 = spend_with_nonce(100, "alice", 7);
    let op1 = spend_with_nonce(100, "alice", 8);
    assert_ne!(operation_preimage(&op0), operation_preimage(&op1));
    assert_ne!(
        operation_sighash(&operation_preimage(&op0)),
        operation_sighash(&operation_preimage(&op1)),
    );
}

#[test]
fn signing_preimage_binds_type_and_args() {
    let a = spend(100, "alice");
    let other_amount = spend(101, "alice");
    let insert = of_type("insert");
    assert_ne!(operation_preimage(&a), operation_preimage(&other_amount));
    assert_ne!(operation_preimage(&a), operation_preimage(&insert));
}

#[test]
fn tagged_hash_is_domain_separated() {
    assert_ne!(tagged_hash("dep17/operation", b"x"), tagged_hash("dep17/descriptor", b"x"));
}

// ---------------------------------------------------------------------------------------------
// The descriptor codec
// ---------------------------------------------------------------------------------------------

fn roundtrips(src: &str) {
    let d = parse(src).unwrap();
    let bytes = encode_descriptor(&d);
    let back = decode_descriptor(&bytes).expect("decode");
    assert_eq!(d, back);
    assert_eq!(bytes, encode_descriptor(&back));
}

#[test]
fn worked_examples_round_trip() {
    roundtrips(ALLOWANCE);
    roundtrips("prove(pk(K1))");
    roundtrips(
        "with(user = K1, guardians = [K3, K4, K5], in match(operation_type(), \
         branch(spend, prove(pk(user))), branch(replace, prove(pk_threshold(2, guardians))), \
         branch(else, false)))",
    );
}

#[test]
fn trailing_bytes_are_rejected() {
    let d = parse("prove(pk(K1))").unwrap();
    let mut bytes = encode_descriptor(&d);
    bytes.push(0x00);
    assert_eq!(decode_descriptor(&bytes), Err(DecodeError::TrailingBytes));
}

#[test]
fn truncated_input_is_rejected() {
    let d = parse("prove(pk(K1))").unwrap();
    let bytes = encode_descriptor(&d);
    let truncated = &bytes[..bytes.len() - 1];
    assert_eq!(decode_descriptor(truncated), Err(DecodeError::UnexpectedEof));
}

#[test]
fn bad_version_is_rejected() {
    let d = parse("prove(pk(K1))").unwrap();
    let mut bytes = encode_descriptor(&d);
    bytes[0] = 0x02;
    assert_eq!(decode_descriptor(&bytes), Err(DecodeError::BadVersion(2)));
}

#[test]
fn unknown_node_tag_is_rejected() {
    let bytes = [0x01u8, 0, 0, 0, 0, 0xff];
    match decode_descriptor(&bytes) {
        Err(DecodeError::UnknownTag("node", 0xff)) => {}
        other => panic!("expected unknown node tag, got {:?}", other),
    }
}

#[test]
fn non_canonical_bool_is_rejected() {
    let bytes = [0x01u8, 0, 0, 0, 0, 0x00, 0x02];
    assert_eq!(decode_descriptor(&bytes), Err(DecodeError::NonCanonicalBool(2)));
}

#[test]
fn unsorted_constants_are_rejected() {
    let mut bytes = vec![0x01u8];
    bytes.extend_from_slice(&2u32.to_be_bytes());
    for name in ["b", "a"] {
        bytes.extend_from_slice(&(name.len() as u32).to_be_bytes());
        bytes.extend_from_slice(name.as_bytes());
        bytes.push(0x00);
        bytes.extend_from_slice(&0i128.to_be_bytes());
    }
    bytes.push(0x00);
    bytes.push(0x01);
    assert_eq!(decode_descriptor(&bytes), Err(DecodeError::NonCanonicalOrder));
}

#[test]
fn invalid_constant_name_is_rejected() {
    let name = "Bad-Name";
    let mut bytes = vec![0x01u8];
    bytes.extend_from_slice(&1u32.to_be_bytes());
    bytes.extend_from_slice(&(name.len() as u32).to_be_bytes());
    bytes.extend_from_slice(name.as_bytes());
    bytes.push(0x00);
    bytes.extend_from_slice(&0i128.to_be_bytes());
    bytes.push(0x00);
    bytes.push(0x01);
    assert_eq!(decode_descriptor(&bytes), Err(DecodeError::InvalidName));
}

// ---------------------------------------------------------------------------------------------
// Hash and byte literals
// ---------------------------------------------------------------------------------------------

#[test]
fn hashlock_parses_evaluates_and_round_trips() {
    let preimage = b"open sesame".to_vec();
    let digest = sha256::Hash::hash(&preimage).to_byte_array();
    let hex: String = digest.iter().map(|b| format!("{:02x}", b)).collect();
    let src = format!("prove(hashlock(sha256:0x{}))", hex);
    let d = parse(&src).unwrap();
    assert!(matches!(d.body, BTerm::Prove(Obligation::Hashlock(_))));
    let op = spend(1, "x");
    let st = Ledger::default().snapshot();
    let w = Witness::empty().with_preimage(HashValue::Sha256(digest), preimage);
    assert!(evaluate(&d, &op, &st, &w, &MockVerifier).unwrap());
    assert!(!evaluate(&d, &op, &st, &Witness::empty(), &MockVerifier).unwrap());
    let printed = to_string(&d);
    assert_eq!(d, parse(&printed).unwrap());
}

#[test]
fn bytes_literal_round_trips() {
    let d = parse("with(tag = 0xdeadbeef, in cmp(=, tag, tag))").unwrap();
    assert_eq!(d.constants.get("tag"), Some(&Value::Bytes(vec![0xde, 0xad, 0xbe, 0xef])));
    assert_eq!(d, parse(&to_string(&d)).unwrap());
}

#[test]
fn wrong_digest_length_is_rejected() {
    assert!(parse("prove(hashlock(sha256:0xdead))").is_err());
}

// ---------------------------------------------------------------------------------------------
// The snapshot codec
// ---------------------------------------------------------------------------------------------

fn sample() -> Snapshot {
    let mut rolling = SortedMap::new();
    rolling.insert(("amount_out".to_string(), 4320u32), 250i128);
    rolling.insert(("amount_in".to_string(), 4320u32), 90i128);
    let mut cumulative_spent = SortedMap::new();
    cumulative_spent.insert(vec![0usize], 1000i128);
    cumulative_spent.insert(vec![1usize, 2usize], 50i128);
    Snapshot {
        balance: 1_000_000,
        blocks_since_activity: 12,
        blocks_since_open: 9000,
        blocks_since_received: 300,
        height: 850_000,
        rolling,
        cumulative_spent,
    }
}

#[test]
fn snapshot_round_trips_and_commits_stably() {
    let s = sample();
    let bytes = encode_snapshot(&s);
    assert_eq!(decode_snapshot(&bytes).unwrap(), s);
    assert_eq!(snapshot_id(&s), snapshot_id(&s));
    assert_ne!(snapshot_id(&s), snapshot_id(&Snapshot::default()));
}

#[test]
fn snapshot_drives_real_evaluation() {
    let d = parse(ALLOWANCE).unwrap();
    let mut s = sample();
    s.balance = 1000;
    s.blocks_since_activity = 5000;
    let mut rolling = SortedMap::new();
    rolling.insert(("amount_out".to_string(), 4320u32), 50i128);
    s.rolling = rolling;
    let op = spend(100, "anywhere");
    let w = witness_signed_by(&op, &["K2"]);
    assert!(evaluate(&d, &op, &s, &w, &MockVerifier).unwrap());
}

#[test]
fn unsorted_rolling_windows_are_rejected() {
    let mut bytes = vec![0x01u8];
    bytes.extend_from_slice(&0i128.to_be_bytes());
    bytes.extend_from_slice(&0u32.to_be_bytes());
    bytes.extend_from_slice(&0u32.to_be_bytes());
    bytes.extend_from_slice(&0u32.to_be_bytes());
    bytes.extend_from_slice(&0u32.to_be_bytes());
    bytes.extend_from_slice(&2u32.to_be_bytes());
    for field_id in [1u8, 0u8] {
        bytes.push(field_id);
        bytes.extend_from_slice(&0u32.to_be_bytes());
        bytes.extend_from_slice(&0i128.to_be_bytes());
    }
    bytes.extend_from_slice(&0u32.to_be_bytes());
    assert_eq!(decode_snapshot(&bytes), Err(DecodeError::NonCanonicalOrder));
}

// ---------------------------------------------------------------------------------------------
// The operation codec
// ---------------------------------------------------------------------------------------------

#[test]
fn modification_signature_binds_path_and_subtree() {
    let a = replace_op(vec![0], BTerm::Const(true));
    let b = replace_op(vec![5], BTerm::Const(true));
    assert_ne!(operation_preimage(&a), operation_preimage(&b));
    assert_ne!(operation_sighash(&operation_preimage(&a)), operation_sighash(&operation_preimage(&b)));
    let c = replace_op(vec![0], BTerm::Const(false));
    assert_ne!(operation_preimage(&a), operation_preimage(&c));
}

#[test]
fn operation_round_trips_through_the_codec() {
    let op = spend_with_nonce(1234, "alice", 42);
    let bytes = operation_preimage(&op);
    let decoded = decode_operation(&bytes).expect("decode");
    assert_eq!(operation_preimage(&decoded), bytes);
    assert_eq!(decoded.op_type.as_str(), "spend");
    assert_eq!(decoded.nonce, 42);
    assert_eq!(decoded.arg("amount"), Some(Value::Int(1234)));
}

#[test]
fn a_decoded_modification_recovers_its_path_and_subtree() {
    let op = replace_op(vec![1, 2], BTerm::Const(false));
    let decoded = decode_operation(&operation_preimage(&op)).unwrap();
    assert_eq!(decoded.path(), Some(vec![1, 2]));
    assert_eq!(decoded.subtree(), Some(BTerm::Const(false)));
}

// ---------------------------------------------------------------------------------------------
// The fraud-proof bundle
// ---------------------------------------------------------------------------------------------

fn user_spend() -> OperationData {
    let mut args = SortedMap::new();
    args.insert("amount".to_string(), Value::Int(100));
    args.insert("destination".to_string(), Value::Key("anywhere".to_string()));
    OperationData { op_type: Symbol::new("spend"), args, deposit_id: [7u8; 32], nonce: 1, expiry: 900_000 }
}

fn bundle(claimed: bool) -> FraudProof {
    let descriptor = parse(ALLOWANCE).unwrap();
    let operation = user_spend();
    let snapshot = Snapshot { balance: 1000, ..Snapshot::default() };
    let msg = operation_preimage(&operation);
    let witness = Witness::empty().with_signature("K1".to_string(), mock_sig("K1", &msg));
    FraudProof { descriptor, operation, snapshot, witness, claimed }
}

#[test]
fn bundle_round_trips() {
    let fp = bundle(true);
    let bytes = fp.encode();
    let back = FraudProof::decode(&bytes).expect("decode");
    assert_eq!(fp, back);
    assert_eq!(bytes, back.encode());
}

#[test]
fn adjudicate_confirms_a_correct_verdict() {
    let fp = bundle(true);
    assert_eq!(fp.adjudicate(&MockVerifier).unwrap(), ReplayOutcome::Consistent);
}

#[test]
fn adjudicate_catches_a_false_claim() {
    let fp = bundle(false);
    assert_eq!(
        fp.adjudicate(&MockVerifier).unwrap(),
        ReplayOutcome::OperatorFault { computed: true, claimed: false },
    );
}

#[test]
fn decode_through_then_adjudicate() {
    let bytes = bundle(true).encode();
    let fp = FraudProof::decode(&bytes).unwrap();
    assert_eq!(fp.adjudicate(&MockVerifier).unwrap(), ReplayOutcome::Consistent);
}

#[test]
fn trailing_bytes_in_bundle_are_rejected() {
    let mut bytes = bundle(true).encode();
    bytes.push(0x00);
    assert!(FraudProof::decode(&bytes).is_err());
}

// ---------------------------------------------------------------------------------------------
// Wallet templates
// ---------------------------------------------------------------------------------------------

const RATE_LIMIT: &str = "
    with(cold = K1, hot = K2, in match(operation_type(),
      branch(spend, or(
        prove(pk(cold)),
        and(
          prove(pk(hot)),
          amount_at_most(100000),
          rolling_amount_below(500000, 1008)
        )
      )),
      branch(else, false)
    ))";

#[test]
fn rate_limit_admits() {
    assert!(admit_descriptor(&parse(RATE_LIMIT).unwrap(), &CapabilitySet::everything()).is_ok());
}

#[test]
fn rate_limit_behaves() {
    let big = spend(1_000_000, "x");
    assert!(decide(RATE_LIMIT, &big, &Ledger::default(), &["K1"]));
    let ok = spend(50_000, "x");
    let st = Ledger { rolling_out: 200_000, ..Ledger::default() };
    assert!(decide(RATE_LIMIT, &ok, &st, &["K2"]));
    let over = spend(150_000, "x");
    assert!(!decide(RATE_LIMIT, &over, &Ledger::default(), &["K2"]));
    let st_hot = Ledger { rolling_out: 600_000, ..Ledger::default() };
    assert!(!decide(RATE_LIMIT, &ok, &st_hot, &["K2"]));
}

const INHERITANCE: &str = "
    with(owner = K1, heir = K2, in match(operation_type(),
      branch(spend, or(
        prove(pk(owner)),
        and(prove(pk(heir)), blocks_since_activity_at_least(52560))
      )),
      branch(else, false)
    ))";

#[test]
fn inheritance_behaves() {
    let op = spend(100, "x");
    assert!(decide(INHERITANCE, &op, &Ledger::default(), &["K1"]));
    let recent = Ledger { since_activity: 1000, ..Ledger::default() };
    assert!(!decide(INHERITANCE, &op, &recent, &["K2"]));
    let stale = Ledger { since_activity: 60_000, ..Ledger::default() };
    assert!(decide(INHERITANCE, &op, &stale, &["K2"]));
}

const SOCIAL_RECOVERY: &str = "
    with(owner = K1, guardians = [G1, G2, G3], in match(operation_type(),
      branch(spend, prove(pk(owner))),
      branch(replace, or(
        prove(pk(owner)),
        and(
          prove(pk_threshold(2, guardians)),
          blocks_since_activity_at_least(4320),
          cmp(=, operation_path(), path(0))
        )
      )),
      branch(else, false)
    ))";

fn clause(src: &str) -> BTerm {
    parse(src).unwrap().body
}

#[test]
fn social_recovery_authorizes_and_applies() {
    let new_owner = clause("prove(pk(K9))");
    let op = replace_op(vec![0], clause("prove(pk(K9))"));
    let stale = Ledger { since_activity: 5000, ..Ledger::default() };
    assert!(decide(SOCIAL_RECOVERY, &op, &stale, &["G1", "G2"]));
    assert!(decide(SOCIAL_RECOVERY, &op, &Ledger::default(), &["K1"]));
    assert!(!decide(SOCIAL_RECOVERY, &op, &stale, &["G1"]));
    let fresh = Ledger { since_activity: 10, ..Ledger::default() };
    assert!(!decide(SOCIAL_RECOVERY, &op, &fresh, &["G1", "G2"]));
    let d = parse(SOCIAL_RECOVERY).unwrap();
    let updated = admit_modification(&d, &op, &CapabilitySet::everything()).expect("admitted");
    assert_eq!(updated.body.subterm_at(&[0]), Some(&new_owner));
}

const VESTING: &str = "
    with(beneficiary = K1, allocation = 1000000, vesting_blocks = 52560,
      in match(operation_type(),
        branch(spend, and(
          prove(pk(beneficiary)),
          cmp(<=,
            add(cumulative_spent_via(path(0)), operation_arg(amount)),
            div(mul(allocation, min(blocks_since_open(), vesting_blocks)), vesting_blocks)
          )
        )),
        branch(else, false)
      ))";

#[test]
fn linear_vesting_releases_over_time() {
    let half = Ledger { since_open: 26_280, ..Ledger::default() };
    let ok = spend(400_000, "x");
    assert!(decide(VESTING, &ok, &half, &["K1"]));
    let over = spend(600_000, "x");
    assert!(!decide(VESTING, &over, &half, &["K1"]));
    let mostly_drawn = Ledger { since_open: 26_280, cumulative: 450_000, ..Ledger::default() };
    assert!(decide(VESTING, &spend(40_000, "x"), &mostly_drawn, &["K1"]));
    assert!(!decide(VESTING, &spend(100_000, "x"), &mostly_drawn, &["K1"]));
    let done = Ledger { since_open: 60_000, ..Ledger::default() };
    assert!(decide(VESTING, &spend(1_000_000, "x"), &done, &["K1"]));
    assert!(!decide(VESTING, &ok, &done, &["K2"]));
}

const LIANA: &str = "
    with(primary_a = K1, primary_b = K2, recovery = K3, in match(operation_type(),
      branch(spend, or(
        and(prove(pk(primary_a)), prove(pk(primary_b))),
        and(prove(pk(recovery)), older(65535))
      )),
      branch(else, false)
    ))";

#[test]
fn liana_behaves() {
    let op = spend(100, "x");
    assert!(decide(LIANA, &op, &Ledger::default(), &["K1", "K2"]));
    assert!(!decide(LIANA, &op, &Ledger::default(), &["K1"]));
    let active = Ledger { since_activity: 1000, ..Ledger::default() };
    assert!(!decide(LIANA, &op, &active, &["K3"]));
    let stale = Ledger { since_activity: 70_000, ..Ledger::default() };
    assert!(decide(LIANA, &op, &stale, &["K3"]));
    let reset = Ledger { since_activity: 5, since_open: 70_000, ..Ledger::default() };
    assert!(!decide(LIANA, &op, &reset, &["K3"]));
}

const CLIFF: &str = "
    with(owner = K1, beneficiary = K2, in match(operation_type(),
      branch(spend, or(
        prove(pk(owner)),
        and(prove(pk(beneficiary)), blocks_since_open_at_least(26280))
      )),
      branch(else, false)
    ))";

#[test]
fn since_open_is_a_non_resetting_cliff() {
    let op = spend(100, "x");
    let early = Ledger { since_open: 1000, since_activity: 99_999, ..Ledger::default() };
    assert!(!decide(CLIFF, &op, &early, &["K2"]));
    let vested = Ledger { since_open: 30_000, since_activity: 1, ..Ledger::default() };
    assert!(decide(CLIFF, &op, &vested, &["K2"]));
}

const NO_RECEIPT: &str = "
    with(owner = K1, backup = K2, in match(operation_type(),
      branch(spend, or(
        prove(pk(owner)),
        and(prove(pk(backup)), blocks_since_received_at_least(52560))
      )),
      branch(else, false)
    ))";

#[test]
fn since_received_gates_on_incoming_payments() {
    let op = spend(100, "x");
    let recent = Ledger { since_received: 100, ..Ledger::default() };
    assert!(!decide(NO_RECEIPT, &op, &recent, &["K2"]));
    let dry = Ledger { since_received: 60_000, since_activity: 5, ..Ledger::default() };
    assert!(decide(NO_RECEIPT, &op, &dry, &["K2"]));
}

#[test]
fn new_primitives_admit_and_round_trip() {
    for src in [CLIFF, NO_RECEIPT] {
        let d = parse(src).unwrap();
        assert!(admit_descriptor(&d, &CapabilitySet::everything()).is_ok());
        assert_eq!(d, decode_descriptor(&encode_descriptor(&d)).unwrap());
    }
}

// ---------------------------------------------------------------------------------------------
// Hardening
// ---------------------------------------------------------------------------------------------

fn nest_not(n: usize) -> BTerm {
    let mut t = BTerm::Const(false);
    for _ in 0..n {
        t = BTerm::Not(Box::new(t));
    }
    t
}

#[test]
fn parser_rejects_overdeep_nesting() {
    let mut src = String::new();
    for _ in 0..(MAX_DEPTH + 50) {
        src.push_str("not(");
    }
    src.push_str("false");
    for _ in 0..(MAX_DEPTH + 50) {
        src.push(')');
    }
    let r = parse(&src);
    assert!(r.is_err(), "expected parse to reject over-deep nesting");
    let msg = r.unwrap_err().message;
    assert!(msg.contains("nesting too deep"), "unexpected error: {}", msg);
}

#[test]
fn decoder_rejects_overdeep_nesting() {
    let mut bytes = vec![0x01u8, 0, 0, 0, 0];
    for _ in 0..(MAX_DEPTH + 50) {
        bytes.push(0x04);
    }
    bytes.push(0x00);
    bytes.push(0x00);
    assert_eq!(decode_descriptor(&bytes), Err(DecodeError::TooDeep));
}

#[test]
fn decoder_rejects_oversized_list_count() {
    let mut bytes = vec![0x01u8];
    bytes.extend_from_slice(&u32::MAX.to_be_bytes());
    assert_eq!(decode_descriptor(&bytes), Err(DecodeError::OversizedList));
}

#[test]
fn modify_rejects_overdeep_path() {
    let body = BTerm::Const(true);
    let path: Vec<usize> = (0..(MAX_DEPTH + 1)).collect();
    assert_eq!(replace_at(&body, &path, BTerm::Const(false)), Err(ModifyError::PathTooDeep));
}

#[test]
fn admit_rejects_overdeep_term() {
    let d = bare(nest_not(MAX_DEPTH + 10));
    assert_eq!(admit_descriptor(&d, &CapabilitySet::everything()), Err(AdmissionError::TooDeep));
}

#[test]
fn admit_accepts_at_the_limit() {
    let d = bare(nest_not(MAX_DEPTH - 1));
    assert!(admit_descriptor(&d, &CapabilitySet::everything()).is_ok());
}

#[test]
fn invalid_constant_name_is_rejected_at_parse() {
    assert!(parse("with(Bad_Name = 1, in true)").is_err());
    assert!(parse("with(has-hyphen = 1, in true)").is_err());
}

#[test]
fn empty_hex_literal_is_rejected() {
    let r = parse("with(x = 0x, in true)");
    assert!(r.is_err(), "expected error for empty hex literal");
}

#[test]
fn negative_integer_literals_parse() {
    let d = parse("with(adj = -100, in true)").unwrap();
    assert_eq!(d.constants.get("adj"), Some(&Value::Int(-100)));
    let d2 = parse("cmp(<=, -100, 100)").unwrap();
    assert!(matches!(d2.body, BTerm::Cmp(_, _, _)));
}

#[test]
fn admit_rejects_bytes_in_an_ordered_comparison() {
    let d = bare(BTerm::Cmp(CmpOp::Lt, VTerm::Lit(Value::Bytes(vec![0xab])), VTerm::Lit(Value::Int(1))));
    assert_eq!(admit_descriptor(&d, &CapabilitySet::everything()), Err(AdmissionError::SortMismatch));
}

#[test]
fn admit_accepts_bytes_in_an_equality() {
    let d = bare(BTerm::Cmp(CmpOp::Eq, VTerm::Lit(Value::Bytes(vec![0xab])), VTerm::Lit(Value::Int(1))));
    assert_eq!(admit_descriptor(&d, &CapabilitySet::everything()), Ok(()));
}

#[test]
fn admit_rejects_a_key_constant_as_an_arithmetic_operand() {
    let mut constants = SortedMap::new();
    constants.insert("K".to_string(), Value::Key("A".to_string()));
    let sum = VTerm::Op(ValueFn::Add, vec![VTerm::Var("K".to_string()), VTerm::Lit(Value::Int(1))]);
    let d = Descriptor { constants, body: BTerm::Cmp(CmpOp::Eq, sum, VTerm::Lit(Value::Int(2))) };
    assert_eq!(admit_descriptor(&d, &CapabilitySet::everything()), Err(AdmissionError::SortMismatch));
}

#[test]
fn admitted_comparison_of_constants_evaluates() {
    let mut constants = SortedMap::new();
    constants.insert("N".to_string(), Value::Int(5));
    let body = BTerm::Cmp(CmpOp::Le, VTerm::Var("N".to_string()), VTerm::Lit(Value::Int(7)));
    let d = Descriptor { constants, body: body.clone() };
    assert_eq!(admit_descriptor(&d, &CapabilitySet::everything()), Ok(()));
    let w = Witness::empty();
    let r = eval_b(&body, &d.constants, &body, &spend(1, "D"), &Snapshot::default(), &w, &MockVerifier);
    assert_eq!(r, Ok(true));
}

#[test]
fn admit_rejects_an_integer_where_a_key_is_read() {
    let d = bare(BTerm::Prove(Obligation::Pk(VTerm::Lit(Value::Int(3)))));
    assert_eq!(admit_descriptor(&d, &CapabilitySet::everything()), Err(AdmissionError::SortMismatch));
}

#[test]
fn admit_rejects_a_key_list_holding_a_non_key() {
    let keys = Value::List(vec![Value::Key("A".to_string()), Value::Int(1)]);
    let d = bare(BTerm::Prove(Obligation::Multi(1, VTerm::Lit(keys))));
    assert_eq!(admit_descriptor(&d, &CapabilitySet::everything()), Err(AdmissionError::SortMismatch));
}

#[test]
fn admit_rejects_an_integer_scrutinee() {
    let d = bare(BTerm::Match {
        scrutinee: VTerm::Lit(Value::Int(1)),
        arms: vec![(Symbol::new("spend"), BTerm::Const(true))],
        default: Box::new(BTerm::Const(false)),
    });
    assert_eq!(admit_descriptor(&d, &CapabilitySet::everything()), Err(AdmissionError::SortMismatch));
}

#[test]
fn admitted_operation_free_descriptor_evaluates_on_any_operation() {
    let mut constants = SortedMap::new();
    constants.insert("branch".to_string(), Value::Symbol(Symbol::new("hot")));
    constants.insert("limit".to_string(), Value::Int(3));
    let body = BTerm::Match {
        scrutinee: VTerm::Var("branch".to_string()),
        arms: vec![(
            Symbol::new("hot"),
            BTerm::Thresh(
                2,
                vec![
                    pk("A"),
                    BTerm::State(StatePred::BalanceAtLeast, vec![VTerm::Lit(Value::Int(0))]),
                    BTerm::Cmp(
                        CmpOp::Gt,
                        VTerm::Op(ValueFn::Add, vec![VTerm::Var("limit".to_string()), VTerm::Lit(Value::Int(1))]),
                        VTerm::Lit(Value::Int(2)),
                    ),
                ],
            ),
        )],
        default: Box::new(BTerm::Const(false)),
    };
    let d = Descriptor { constants, body: body.clone() };
    assert_eq!(admit_descriptor(&d, &CapabilitySet::everything()), Ok(()));
    let w = Witness::empty();
    let bare_op = op_of("anything", vec![], 9);
    let r = eval_b(&body, &d.constants, &body, &bare_op, &Snapshot::default(), &w, &MockVerifier);
    assert_eq!(r, Ok(true));
}

#[test]
fn admit_rejects_bytes_where_a_state_predicate_reads_an_integer() {
    let d = bare(BTerm::State(StatePred::Older, vec![VTerm::Lit(Value::Bytes(vec![1]))]));
    assert_eq!(admit_descriptor(&d, &CapabilitySet::everything()), Err(AdmissionError::SortMismatch));
}

#[test]
fn admitted_match_on_operation_type_evaluates_on_any_operation() {
    let body = BTerm::Match {
        scrutinee: VTerm::Op(ValueFn::OperationType, vec![]),
        arms: vec![(Symbol::new("spend"), BTerm::State(StatePred::Older, vec![VTerm::Lit(Value::Int(10))]))],
        default: Box::new(BTerm::Const(true)),
    };
    let d = bare(body.clone());
    assert_eq!(admit_descriptor(&d, &CapabilitySet::everything()), Ok(()));
    let w = Witness::empty();
    let r = eval_b(&body, &d.constants, &body, &op_of("spend", vec![], 1), &Snapshot::default(), &w, &MockVerifier);
    assert_eq!(r, Ok(false));
    let r = eval_b(&body, &d.constants, &body, &op_of("modify", vec![], 1), &Snapshot::default(), &w, &MockVerifier);
    assert_eq!(r, Ok(true));
}
