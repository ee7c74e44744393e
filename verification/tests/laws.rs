//! Concrete instances of the library's laws, the decoders' error cases, and the printer's exact
//! output.

use bitcoin::hashes::{hash160, ripemd160, sha256, sha256d, Hash as _};

use dep16::admission::admit_descriptor;
use dep16::ast::{BTerm, HashValue, Obligation, VTerm, Value};
use dep16::capability::CapabilitySet;
use dep16::decode::{decode_descriptor, decode_operation, DecodeError};
use dep16::descriptor::Descriptor;
use dep16::encode::{descriptor_id, encode_descriptor, operation_preimage};
use dep16::eval::{eval_with, evaluate, well_applied};
use dep16::fraud::{compare_verdict, decode_fraud_proof, encode_fraud_proof, FraudProof, ReplayOutcome};
use dep16::hashes::{hash_matches, tagged_hash};
use dep16::host::OperationData;
use dep16::lex::lex;
use dep16::maps::SortedMap;
use dep16::modify::{delete_at, insert_at, replace_at, ModifyError};
use dep16::parse::parse;
use dep16::print::to_string;
use dep16::registry::{CmpOp, Symbol, ValueFn};
use dep16::snapshot::Snapshot;
use dep16::snapshot_codec::{decode_snapshot, encode_snapshot, snapshot_id};
use dep16::mock::MockVerifier;
use dep16::witness::{Signature, Witness};
use dep16::witness_codec::{decode_witness, encode_witness};

/// A signature by `key` over `msg` is `key | "|" | msg`.
fn sig_of(key: &str, msg: &[u8]) -> Signature {
    let mut bytes = key.as_bytes().to_vec();
    bytes.push(b'|');
    bytes.extend_from_slice(msg);
    Signature(bytes)
}

fn operation(ty: &str, amount: i128, nonce: u64) -> OperationData {
    let mut args = SortedMap::new();
    args.insert("amount".to_string(), Value::Int(amount));
    OperationData { op_type: Symbol::new(ty), args, deposit_id: [7u8; 32], nonce, expiry: 500 }
}

fn snapshot_with(rolling: Vec<((&str, u32), i128)>, paths: Vec<(Vec<usize>, i128)>) -> Snapshot {
    let mut r = SortedMap::new();
    for ((f, p), v) in rolling {
        r.insert((f.to_string(), p), v);
    }
    let mut c = SortedMap::new();
    for (p, v) in paths {
        c.insert(p, v);
    }
    Snapshot {
        balance: -42,
        blocks_since_activity: 3,
        blocks_since_open: 70000,
        blocks_since_received: 9,
        height: 812345,
        rolling: r,
        cumulative_spent: c,
    }
}

// ---------------------------------------------------------------------------------------------
// Snapshot codec
// ---------------------------------------------------------------------------------------------

#[test]
fn snapshot_decodes_to_what_was_encoded() {
    let s = snapshot_with(
        vec![(("amount_out", 4320), 250), (("amount_in", 10), -5), (("transfer_count", 1), 3)],
        vec![(vec![0], 100), (vec![0, 2], 7), (vec![1], 1)],
    );
    let bytes = encode_snapshot(&s);
    assert_eq!(decode_snapshot(&bytes), Ok(s));
}

#[test]
fn snapshot_round_trip_drops_unregistered_rolling_fields() {
    let s = snapshot_with(vec![(("amount_out", 10), 5), (("custom_field", 3), 7)], vec![]);
    let back = decode_snapshot(&encode_snapshot(&s)).unwrap();
    assert_eq!(back.rolling.len(), 1);
    assert_eq!(back.rolling.find(&("amount_out".to_string(), 10u32)), Some(&5));
    assert_eq!(back.balance, s.balance);
    assert_eq!(back.height, s.height);
    assert_eq!(encode_snapshot(&back), encode_snapshot(&s));
    assert_eq!(snapshot_id(&back), snapshot_id(&s));
}

#[test]
fn snapshot_encoding_layout() {
    let s = snapshot_with(vec![(("amount_in", 2), 1)], vec![(vec![3], 4)]);
    let b = encode_snapshot(&s);
    // version, balance, four counters, one rolling entry, one cumulative entry
    assert_eq!(b.len(), 1 + 16 + 16 + 4 + 21 + 4 + (4 + 4 + 16));
    assert_eq!(b[0], 1);
    assert_eq!(&b[33..37], &[0, 0, 0, 1]);
    assert_eq!(b[37], 1); // amount_in has id 1
}

#[test]
fn snapshot_decode_rejects_trailing_bytes() {
    let mut b = encode_snapshot(&Snapshot::default());
    b.push(0);
    assert_eq!(decode_snapshot(&b), Err(DecodeError::TrailingBytes));
}

#[test]
fn snapshot_decode_rejects_bad_version() {
    let mut b = encode_snapshot(&Snapshot::default());
    b[0] = 2;
    assert_eq!(decode_snapshot(&b), Err(DecodeError::BadVersion(2)));
}

#[test]
fn snapshot_decode_rejects_truncation() {
    let b = encode_snapshot(&Snapshot::default());
    assert_eq!(decode_snapshot(&b[..10]), Err(DecodeError::UnexpectedEof));
    assert_eq!(decode_snapshot(&[]), Err(DecodeError::UnexpectedEof));
}

#[test]
fn snapshot_decode_rejects_unknown_rolling_field() {
    let s = snapshot_with(vec![(("amount_out", 1), 1)], vec![]);
    let mut b = encode_snapshot(&s);
    b[37] = 9;
    assert_eq!(decode_snapshot(&b), Err(DecodeError::UnknownTag("rwfield", 9)));
}

#[test]
fn snapshot_decode_rejects_unsorted_rolling_entries() {
    let s = snapshot_with(vec![(("amount_out", 1), 1), (("amount_in", 1), 2)], vec![]);
    let mut b = encode_snapshot(&s);
    // swap the two 21-byte entries
    let first: Vec<u8> = b[37..58].to_vec();
    let second: Vec<u8> = b[58..79].to_vec();
    b[37..58].copy_from_slice(&second);
    b[58..79].copy_from_slice(&first);
    assert_eq!(decode_snapshot(&b), Err(DecodeError::NonCanonicalOrder));
}

#[test]
fn snapshot_decode_rejects_repeated_paths() {
    let s = snapshot_with(vec![], vec![(vec![1], 1), (vec![2], 2)]);
    let mut b = encode_snapshot(&s);
    let n = b.len();
    // make the second path equal to the first: [1]
    assert_eq!(b[n - 17], 2);
    b[n - 17] = 1;
    assert_eq!(decode_snapshot(&b), Err(DecodeError::NonCanonicalOrder));
}

#[test]
fn snapshot_decode_rejects_oversized_count() {
    let mut b = encode_snapshot(&Snapshot::default());
    b[36] = 200;
    assert_eq!(decode_snapshot(&b), Err(DecodeError::OversizedList));
}

// ---------------------------------------------------------------------------------------------
// Witness codec
// ---------------------------------------------------------------------------------------------

fn sample_witness() -> Witness {
    Witness::empty()
        .with_signature("K2".to_string(), Signature(vec![1, 2, 3]))
        .with_signature("K1".to_string(), Signature(vec![9]))
        .with_preimage(HashValue::Hash160([5u8; 20]), vec![0xaa])
        .with_preimage(HashValue::Sha256([6u8; 32]), vec![])
        .with_attestation("oracle".to_string())
}

#[test]
fn witness_decodes_to_what_was_encoded() {
    let w = sample_witness();
    let bytes = encode_witness(&w);
    assert_eq!(decode_witness(&bytes), Ok(w));
    let empty = Witness::empty();
    assert_eq!(encode_witness(&empty), vec![1, 0, 0, 0, 0, 0, 0, 0, 0, 0, 0, 0, 0]);
    assert_eq!(decode_witness(&encode_witness(&empty)), Ok(empty));
}

#[test]
fn witness_decode_rejects_unsorted_keys() {
    let w = Witness::empty().with_signature("A".to_string(), Signature(vec![])).with_signature(
        "B".to_string(),
        Signature(vec![]),
    );
    let mut b = encode_witness(&w);
    // entries are [len=1]["A"][len=0] [len=1]["B"][len=0]; swap the key bytes
    assert_eq!(b[9], b'A');
    assert_eq!(b[18], b'B');
    b[9] = b'B';
    b[18] = b'A';
    assert_eq!(decode_witness(&b), Err(DecodeError::NonCanonicalOrder));
}

#[test]
fn witness_decode_rejects_invalid_utf8_key() {
    let w = Witness::empty().with_attestation("A".to_string());
    let mut b = encode_witness(&w);
    let n = b.len();
    b[n - 1] = 0xff;
    assert_eq!(decode_witness(&b), Err(DecodeError::BadKey));
}

#[test]
fn witness_decode_rejects_unknown_hash_tag() {
    let w = Witness::empty().with_preimage(HashValue::Sha256([0u8; 32]), vec![]);
    let mut b = encode_witness(&w);
    b[9] = 7;
    assert_eq!(decode_witness(&b), Err(DecodeError::UnknownTag("hashfn", 7)));
}

// ---------------------------------------------------------------------------------------------
// Operation and descriptor codecs
// ---------------------------------------------------------------------------------------------

#[test]
fn operation_preimage_decodes_to_the_operation() {
    let op = operation("spend", 1234, 99);
    assert_eq!(decode_operation(&operation_preimage(&op)), Ok(op));
}

#[test]
fn operations_differing_in_one_field_have_distinct_preimages() {
    let a = operation("spend", 1, 0);
    let b = operation("spend", 1, 1);
    let c = operation("spend", 2, 0);
    let d = operation("spent", 1, 0);
    let pa = operation_preimage(&a);
    assert_ne!(pa, operation_preimage(&b));
    assert_ne!(pa, operation_preimage(&c));
    assert_ne!(pa, operation_preimage(&d));
}

#[test]
fn descriptor_decodes_to_what_was_encoded() {
    let d = parse("with(k = K1, n = 5, in and(prove(pk(k)), cmp(<, deposit_balance(), n)))").unwrap();
    assert_eq!(decode_descriptor(&encode_descriptor(&d)), Ok(d));
}

#[test]
fn distinct_descriptors_have_distinct_ids() {
    let a = parse("prove(pk(K1))").unwrap();
    let b = parse("prove(pk(K2))").unwrap();
    assert_ne!(encode_descriptor(&a), encode_descriptor(&b));
    assert_ne!(descriptor_id(&a), descriptor_id(&b));
}

#[test]
fn descriptor_decode_rejects_trailing_bytes() {
    let mut b = encode_descriptor(&parse("true").unwrap());
    b.push(0);
    assert_eq!(decode_descriptor(&b), Err(DecodeError::TrailingBytes));
}

// ---------------------------------------------------------------------------------------------
// Fraud proofs
// ---------------------------------------------------------------------------------------------

fn small_bundle(claimed: bool) -> FraudProof {
    let descriptor = parse("prove(pk(K1))").unwrap();
    let op = operation("spend", 10, 1);
    let msg = operation_preimage(&op);
    let witness = Witness::empty().with_signature("K1".to_string(), sig_of("K1", &msg));
    let snapshot = snapshot_with(vec![(("amount_out", 4320), 5)], vec![(vec![0], 1)]);
    FraudProof { descriptor, operation: op, snapshot, witness, claimed }
}

#[test]
fn fraud_proof_decodes_to_what_was_encoded() {
    let fp = small_bundle(true);
    let bytes = encode_fraud_proof(&fp);
    assert_eq!(*bytes.last().unwrap(), 1);
    assert_eq!(decode_fraud_proof(&bytes), Ok(small_bundle(true)));
    assert_eq!(decode_fraud_proof(&bytes).unwrap().adjudicate(&MockVerifier), Ok(ReplayOutcome::Consistent));
}

#[test]
fn fraud_proof_decode_rejects_non_canonical_bool() {
    let mut bytes = encode_fraud_proof(&small_bundle(false));
    let n = bytes.len();
    assert_eq!(bytes[n - 1], 0);
    bytes[n - 1] = 2;
    assert_eq!(decode_fraud_proof(&bytes), Err(DecodeError::NonCanonicalBool(2)));
}

#[test]
fn fraud_proof_decode_rejects_trailing_bytes() {
    let mut bytes = encode_fraud_proof(&small_bundle(true));
    bytes.push(1);
    assert_eq!(decode_fraud_proof(&bytes), Err(DecodeError::TrailingBytes));
}

#[test]
fn compare_verdict_reports_each_case() {
    assert_eq!(compare_verdict(Ok(true), true), Ok(ReplayOutcome::Consistent));
    assert_eq!(compare_verdict(Ok(false), false), Ok(ReplayOutcome::Consistent));
    assert_eq!(
        compare_verdict(Ok(false), true),
        Ok(ReplayOutcome::OperatorFault { computed: false, claimed: true })
    );
}

// ---------------------------------------------------------------------------------------------
// Printer and parser
// ---------------------------------------------------------------------------------------------

#[test]
fn printer_writes_the_canonical_source_form() {
    let d = parse("and(prove(pk(K1)), cmp(<, deposit_balance(), 5))").unwrap();
    assert_eq!(to_string(&d), "and(pk(K1), lt(deposit_balance(), 5))");
    let d = parse("with(n = -3, in thresh(1, true, false))").unwrap();
    assert_eq!(to_string(&d), "with(n = -3, in thresh(1, true, false))");
    let d = parse("with(b = 0xDEad, in true)").unwrap();
    assert_eq!(to_string(&d), "with(b = 0xdead, in true)");
}

#[test]
fn printed_descriptors_parse_back() {
    for src in [
        "or(prove(pk(K1)), and(prove(pk_threshold(2, [A, B, C])), blocks_since_activity_at_least(10)))",
        "with(g = [G1, G2], in match(operation_type(), branch(spend, prove(multi(1, g))), branch(else, false)))",
        "if(true, not(false), cmp(>=, deposit_balance(), 0))",
    ] {
        let d = parse(src).unwrap();
        assert_eq!(parse(&to_string(&d)).unwrap(), d, "{}", src);
    }
}

#[test]
fn skeleton_descriptors_print_and_parse_back() {
    let src = "or(pk(A1), and(pk_h(B_2), not(false)), thresh(1, true, if(balance_at_least(-7), pk_any(C), amount_in_range(0, 12))))";
    let d = parse(src).unwrap();
    let printed = to_string(&d);
    assert_eq!(printed, src);
    assert_eq!(parse(&printed).unwrap(), d);
}

#[test]
fn descriptors_with_constants_print_and_parse_back() {
    let src = "with(g = G1, n = -4, owner = K9, in or(pk(owner), and(pk_h(g), older(12))))";
    let d = parse(src).unwrap();
    let printed = to_string(&d);
    assert_eq!(printed, "with(g = G1, n = -4, owner = K9, in or(pk(owner), and(pk_h(g), older(12))))");
    assert_eq!(parse(&printed).unwrap(), d);
}

#[test]
fn recovery_descriptor_with_list_constants_prints_and_parses_back() {
    let src = "with(user = K1, guardians = [K3, K4, K5], limits = [1, -2], in match(operation_type(), \
               branch(spend, and(prove(pk(user)), cmp(<=, operation_arg(amount), 500))), \
               branch(replace, prove(pk_threshold(2, guardians))), branch(else, false)))";
    let d = parse(src).unwrap();
    let printed = to_string(&d);
    assert_eq!(
        printed,
        "with(guardians = [K3, K4, K5], limits = [1, -2], user = K1, in match(operation_type(), \
         branch(spend, and(pk(user), le(operation_arg(amount), 500))), \
         branch(replace, multi(2, guardians)), branch(else, false)))"
    );
    assert_eq!(parse(&printed).unwrap(), d);
}

#[test]
fn empty_thresh_prints_a_form_the_parser_refuses() {
    let d = Descriptor::wsh(SortedMap::new(), BTerm::Thresh(1, vec![]));
    assert_eq!(to_string(&d), "thresh(1)");
    assert!(parse(&to_string(&d)).is_err());
}

#[test]
fn lexer_rejects_an_unexpected_character() {
    assert!(lex("and(true, #)").is_err());
    assert!(lex("and(true, false)").is_ok());
}

#[test]
fn parser_reports_errors() {
    assert!(parse("").is_err());
    assert!(parse("and(true").is_err());
    assert!(parse("frobnicate(true)").is_err());
    assert!(parse("true true").is_err());
}

// ---------------------------------------------------------------------------------------------
// Evaluation laws
// ---------------------------------------------------------------------------------------------

#[test]
fn more_witness_never_revokes_authority() {
    let d = parse("or(prove(pk(K1)), and(prove(pk(K2)), prove(pk(K3))))").unwrap();
    caps_admit(&d);
    let op = operation("spend", 1, 0);
    let msg = operation_preimage(&op);
    let st = Snapshot::default();
    let mut w = Witness::empty();
    let mut last = evaluate(&d, &op, &st, &w, &MockVerifier).unwrap();
    for k in ["K2", "K3", "K1"] {
        w = w.with_signature(k.to_string(), sig_of(k, &msg));
        let now = evaluate(&d, &op, &st, &w, &MockVerifier).unwrap();
        assert!(!last || now);
        last = now;
    }
    assert!(last);
}

#[test]
fn pk_h_holds_exactly_for_a_signer_whose_key_hashes_to_the_hash() {
    let h = HashValue::Hash160(hash160::Hash::hash(b"K1").to_byte_array());
    let body = BTerm::Prove(Obligation::PkH(VTerm::Lit(Value::Hash(h))));
    let env = SortedMap::new();
    let op = operation("spend", 1, 0);
    let st = Snapshot::default();
    let w = Witness::empty();
    let eval = |signers: &Vec<String>| eval_with(&body, &env, &body, &op, &st, &w, signers, &MockVerifier).unwrap();
    // The signer's key hashes to the hash: the obligation holds.
    assert!(eval(&vec!["K1".to_string()]));
    assert!(eval(&vec!["K0".to_string(), "K1".to_string()]));
    // A signer whose key hashes elsewhere does not count.
    assert!(!eval(&vec!["K2".to_string()]));
    assert!(!eval(&vec![]));
}

fn caps_admit(d: &Descriptor) {
    assert_eq!(admit_descriptor(d, &CapabilitySet::everything()), Ok(()));
}

#[test]
fn well_applied_checks_arities() {
    assert!(well_applied(&parse("and(true, cmp(=, deposit_balance(), 1))").unwrap().body));
    let bad = BTerm::Cmp(CmpOp::Eq, VTerm::Op(ValueFn::Add, vec![VTerm::Lit(Value::Int(1))]), VTerm::Lit(Value::Int(1)));
    assert!(!well_applied(&bad));
}

#[test]
fn replacing_then_reading_gives_the_new_subterm() {
    let t = parse("and(prove(pk(K1)), true)").unwrap().body;
    let r = replace_at(&t, &[1], BTerm::Const(false)).unwrap();
    match r {
        BTerm::And(items) => {
            assert_eq!(items.len(), 2);
            assert_eq!(items[1], BTerm::Const(false));
            assert!(matches!(items[0], BTerm::Prove(Obligation::Pk(_))));
        }
        _ => panic!("expected and"),
    }
}

#[test]
fn replacing_keeps_the_rest_and_refuses_a_missing_path() {
    let t = parse("and(or(true, false), not(true), prove(pk(K1)))").unwrap().body;
    let r = replace_at(&t, &[0, 1], BTerm::Const(true)).unwrap();
    assert_eq!(r, parse("and(or(true, true), not(true), prove(pk(K1)))").unwrap().body);
    assert_eq!(replace_at(&t, &[3], BTerm::Const(true)), Err(ModifyError::PathOutOfRange));
    assert_eq!(replace_at(&t, &[1, 1], BTerm::Const(true)), Err(ModifyError::PathOutOfRange));
}

#[test]
fn deleting_undoes_inserting() {
    let t = parse("or(prove(pk(K1)), and(true, prove(pk(K2))))").unwrap().body;
    let added = insert_at(&t, &[1, 1], BTerm::Const(false)).unwrap();
    assert_eq!(added, parse("or(prove(pk(K1)), and(true, false, prove(pk(K2))))").unwrap().body);
    assert_eq!(delete_at(&added, &[1, 1]).unwrap(), t);
}

// ---------------------------------------------------------------------------------------------
// Hashes
// ---------------------------------------------------------------------------------------------

#[test]
fn hash_matches_each_function() {
    let pre = b"preimage";
    assert!(hash_matches(&HashValue::Sha256(sha256::Hash::hash(pre).to_byte_array()), pre));
    assert!(hash_matches(&HashValue::Hash256(sha256d::Hash::hash(pre).to_byte_array()), pre));
    assert!(hash_matches(&HashValue::Ripemd160(ripemd160::Hash::hash(pre).to_byte_array()), pre));
    assert!(hash_matches(&HashValue::Hash160(hash160::Hash::hash(pre).to_byte_array()), pre));
    assert!(!hash_matches(&HashValue::Sha256([0u8; 32]), pre));
    let mut padded = [0u8; 20];
    padded[..8].copy_from_slice(pre);
    assert!(!hash_matches(&HashValue::Ripemd160(padded), pre));
}

#[test]
fn tagged_hash_is_the_bip340_construction() {
    let tag = sha256::Hash::hash(b"dep17/test").to_byte_array();
    let mut data = Vec::new();
    data.extend_from_slice(&tag);
    data.extend_from_slice(&tag);
    data.extend_from_slice(b"msg");
    assert_eq!(tagged_hash("dep17/test", b"msg"), sha256::Hash::hash(&data).to_byte_array());
}

#[test]
fn comparison_names_read_back() {
    for op in [CmpOp::Eq, CmpOp::Lt, CmpOp::Le, CmpOp::Gt, CmpOp::Ge] {
        assert_eq!(CmpOp::from_name(op.name()), Some(op));
    }
    assert_eq!(CmpOp::from_name("<="), Some(CmpOp::Le));
    assert_eq!(CmpOp::from_name("=<"), None);
    assert_eq!(CmpOp::from_name("=="), None);
}

#[test]
fn value_function_names_read_back() {
    for f in [ValueFn::Add, ValueFn::Sub, ValueFn::Mul, ValueFn::Div, ValueFn::Min, ValueFn::Max, ValueFn::Pct, ValueFn::Bps] {
        assert_eq!(ValueFn::from_name(f.name()), Some(f));
    }
}
