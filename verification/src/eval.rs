//! The evaluator: a strict, total, structural fold of a term, an operation, a ledger snapshot
//! and a witness to a verdict.
//!
//! Values and state predicates never read the witness; obligations are the only construct that
//! does. What the witness establishes enters evaluation as [`Evidence`]: the keys whose
//! signatures verified, the hashes whose preimages were revealed, the oracle keys that
//! attested, and which keys match which key hashes. Signature checking and key hashing are
//! delegated to a host-supplied [`Verifier`]; [`eval_with`] evaluates against an explicit list
//! of verified signers and of matched key and hash pairs, and [`eval_b`] asks the verifier
//! which witness signatures are valid over the operation's signing preimage and which signers
//! match the hashes the term's `pk_h` obligations name.
use vstd::prelude::*;
use vstd::utf8::encode_utf8;

use crate::ast::{
    BTerm, BTermV, HashFn, HashV, HashValue, Obligation, ObligationV, Schema, Value, ValueV, VTerm, VTermV,
    arms_view, group_views, lemma_arms_view, lemma_terms_view, lemma_values_view,
    lemma_vterms_view, terms_view, values_view, vterms_view,
};
use crate::bytes::{bytes_equal, str_equal};
use crate::descriptor::{Descriptor, Env};
use crate::encode::{op_preimage, operation_preimage};
use crate::equality::{hash_eq, value_eq};
use crate::hashes::{digest_of, hash160, hash_matches, ripemd160_of, sha256_of};
use crate::host::{OperationData, OperationV, op_path, op_subtree};
use crate::maps::{keys_sorted, lemma_lookup_index, lookup};
use crate::registry::{CmpOp, StatePred, Symbol, ValueFn};
use crate::snapshot::{Snapshot, SnapshotV, cumulative_total, rolling_total};
use crate::tree::{subterm_at, term_shape};
use crate::value::{bps, clamp, floor_div, floor_quotient, pct, sat_add, sat_mul, sat_sub};
use crate::witness::{Verifier, Witness, WitnessV};

verus! {

broadcast use group_views;

/// A condition under which evaluation produces no verdict.
#[derive(Clone, PartialEq, Eq, Debug)]
pub enum EvalError {
    /// A `with(...)` constant referenced but not bound.
    UnresolvedVar(String),
    /// A value had the wrong type for the position it was used in, or the operation lacks
    /// what the term reads.
    TypeMismatch(&'static str),
}

/// The view of an [`EvalError`].
pub enum EvalErrorV {
    UnresolvedVar(Seq<char>),
    TypeMismatch(Seq<char>),
}

impl View for EvalError {
    type V = EvalErrorV;

    open spec fn view(&self) -> EvalErrorV {
        match self {
            EvalError::UnresolvedVar(n) => EvalErrorV::UnresolvedVar(n@),
            EvalError::TypeMismatch(m) => EvalErrorV::TypeMismatch(m@),
        }
    }
}

/// Everything evaluation reads besides the term and the witness.
pub struct EvalCtx {
    /// The constant bindings.
    pub env: Seq<(Seq<char>, ValueV)>,
    /// The term that paths in `ast_ref`, `ast_shape_at` and `subtree_at` address.
    pub root: BTermV,
    /// The operation under authorization.
    pub op: OperationV,
    /// The ledger snapshot.
    pub st: SnapshotV,
}

/// The evaluation context of the given pieces.
pub open spec fn ctx(
    env: Seq<(Seq<char>, ValueV)>,
    root: BTermV,
    op: OperationV,
    st: SnapshotV,
) -> EvalCtx {
    EvalCtx { env, root, op, st }
}

/// What a witness establishes.
pub struct Evidence {
    /// Keys whose signature over the operation verified.
    pub signed: Set<Seq<char>>,
    /// Hashes whose preimage the witness revealed.
    pub opened: Set<HashV>,
    /// Oracle keys that supplied an attestation.
    pub attested: Set<Seq<char>>,
    /// The pairs of a key and a hash that the host matches: the key hashes to the hash.
    pub key_hashes: Set<(Seq<char>, HashV)>,
}

/// The texts of a list of strings, as a set.
pub open spec fn text_set(s: Seq<String>) -> Set<Seq<char>> {
    Set::new(|k: Seq<char>| exists|i: int| 0 <= i < s.len() && s[i]@ == k)
}

/// Whether the preimage a witness reveals for `h` hashes to it.
pub open spec fn opens(preimages: Seq<(HashV, Seq<u8>)>, h: HashV) -> bool {
    match lookup(preimages, h) {
        Some(pre) => digest_of(h.func, pre) == h.digest,
        None => false,
    }
}

/// The evidence a witness provides, given the keys whose signatures verified and the key and
/// hash pairs the host matches.
pub open spec fn evidence(w: WitnessV, signed: Set<Seq<char>>, key_hashes: Set<(Seq<char>, HashV)>) -> Evidence {
    Evidence {
        signed,
        opened: Set::new(|h: HashV| opens(w.preimages, h)),
        attested: Set::new(|k: Seq<char>| lookup(w.attestations, k) is Some),
        key_hashes,
    }
}

/// The keys of a witness whose signature the verifier accepts over `message`.
pub open spec fn accepted_keys<V: Verifier>(w: WitnessV, v: &V, message: Seq<u8>) -> Set<Seq<char>> {
    Set::new(
        |k: Seq<char>|
            exists|i: int|
                0 <= i < w.signatures.len() && w.signatures[i].0 == k && v.accepts(
                    k,
                    w.signatures[i].1,
                    message,
                ),
    )
}

/// The key and hash pairs the verifier matches.
pub open spec fn host_key_hashes<V: Verifier>(v: &V) -> Set<(Seq<char>, HashV)> {
    Set::new(|kh: (Seq<char>, HashV)| v.hashes_to(kh.0, kh.1))
}

/// The evidence a witness provides under a verifier, for signatures over `message`.
pub open spec fn host_evidence<V: Verifier>(w: WitnessV, v: &V, message: Seq<u8>) -> Evidence {
    evidence(w, accepted_keys(w, v, message), host_key_hashes(v))
}

/// The view of an evaluation result.
pub open spec fn result_view<T: View>(r: Result<T, EvalError>) -> Result<T::V, EvalErrorV> {
    match r {
        Ok(v) => Ok(v@),
        Err(e) => Err(e@),
    }
}

/// A type mismatch with the given message.
pub open spec fn mismatch(msg: Seq<char>) -> EvalErrorV {
    EvalErrorV::TypeMismatch(msg)
}

/// `pct(n, p)`.
pub open spec fn pct_of(n: i128, p: i128) -> i128 {
    clamp(floor_quotient(clamp(n * p) as int, 100))
}

/// `bps(n, bp)`.
pub open spec fn bps_of(n: i128, bp: i128) -> i128 {
    clamp(floor_quotient(clamp(n * bp) as int, 10000))
}

// ---------------------------------------------------------------------------------------------
// Arity
// ---------------------------------------------------------------------------------------------

/// The number of arguments a value function reads.
pub open spec fn value_fn_arity(f: ValueFn) -> nat {
    match f {
        ValueFn::Add | ValueFn::Sub | ValueFn::Mul | ValueFn::Div | ValueFn::Min | ValueFn::Max
        | ValueFn::Pct | ValueFn::Bps | ValueFn::RollingWindow => 2,
        ValueFn::OperationArg | ValueFn::CumulativeSpentVia | ValueFn::AstRef
        | ValueFn::AstShapeAt => 1,
        _ => 0,
    }
}

/// The number of arguments a state predicate reads.
pub open spec fn state_pred_arity(p: StatePred) -> nat {
    match p {
        StatePred::AmountInRange | StatePred::RollingAmountBelow | StatePred::RollingAmountBelowPct
        | StatePred::SubtreeAt => 2,
        _ => 1,
    }
}

/// Whether every value function in a value term has the arguments it reads.
pub open spec fn vterm_arity_ok(t: VTermV) -> bool
    decreases t,
{
    match t {
        VTermV::Op(f, args) => args.len() >= value_fn_arity(f) && vterms_arity_ok(args),
        _ => true,
    }
}

/// Whether every value term of a list passes [`vterm_arity_ok`].
pub open spec fn vterms_arity_ok(s: Seq<VTermV>) -> bool
    decreases s,
{
    if s.len() == 0 {
        true
    } else {
        vterms_arity_ok(s.drop_last()) && vterm_arity_ok(s.last())
    }
}

/// The value term an obligation reads.
pub open spec fn obligation_arg(o: ObligationV) -> VTermV {
    match o {
        ObligationV::Pk(v) => v,
        ObligationV::PkH(v) => v,
        ObligationV::PkAny(v) => v,
        ObligationV::Multi(_, v) => v,
        ObligationV::Hashlock(v) => v,
        ObligationV::Attest(v, _) => v,
    }
}

/// Whether every value function and state predicate in a term has the arguments it reads.
pub open spec fn term_arity_ok(t: BTermV) -> bool
    decreases t,
{
    match t {
        BTermV::Const(_) => true,
        BTermV::And(bs) => terms_arity_ok(bs),
        BTermV::Or(bs) => terms_arity_ok(bs),
        BTermV::Thresh(_, bs) => terms_arity_ok(bs),
        BTermV::Not(b) => term_arity_ok(*b),
        BTermV::If(c, t1, e) => term_arity_ok(*c) && term_arity_ok(*t1) && term_arity_ok(*e),
        BTermV::Match(s, arms, d) => vterm_arity_ok(s) && arms_arity_ok(arms) && term_arity_ok(*d),
        BTermV::Cmp(_, a, b) => vterm_arity_ok(a) && vterm_arity_ok(b),
        BTermV::State(p, args) => args.len() >= state_pred_arity(p) && vterms_arity_ok(args),
        BTermV::Prove(o) => vterm_arity_ok(obligation_arg(o)),
    }
}

/// Whether every term of a list passes [`term_arity_ok`].
pub open spec fn terms_arity_ok(s: Seq<BTermV>) -> bool
    decreases s,
{
    if s.len() == 0 {
        true
    } else {
        terms_arity_ok(s.drop_last()) && term_arity_ok(s.last())
    }
}

/// Whether every arm body of a list passes [`term_arity_ok`].
pub open spec fn arms_arity_ok(s: Seq<(Seq<char>, BTermV)>) -> bool
    decreases s,
{
    if s.len() == 0 {
        true
    } else {
        arms_arity_ok(s.drop_last()) && term_arity_ok(s.last().1)
    }
}

/// A list passes [`vterms_arity_ok`] exactly when each element does.
pub proof fn lemma_vterms_arity(s: Seq<VTermV>)
    ensures
        vterms_arity_ok(s) == forall|i: int| 0 <= i < s.len() ==> #[trigger] vterm_arity_ok(s[i]),
    decreases s.len(),
{
    if s.len() > 0 {
        let r = s.drop_last();
        lemma_vterms_arity(r);
        if vterms_arity_ok(s) {
            assert forall|i: int| 0 <= i < s.len() implies #[trigger] vterm_arity_ok(s[i]) by {
                if i < s.len() - 1 {
                    assert(r[i] == s[i]);
                }
            }
        }
        if forall|i: int| 0 <= i < s.len() ==> #[trigger] vterm_arity_ok(s[i]) {
            assert forall|i: int| 0 <= i < r.len() implies #[trigger] vterm_arity_ok(r[i]) by {
                assert(r[i] == s[i]);
                assert(vterm_arity_ok(s[i]));
            }
            assert(vterm_arity_ok(s[s.len() - 1]));
        }
    }
}

/// A list passes [`terms_arity_ok`] exactly when each element does.
pub proof fn lemma_terms_arity(s: Seq<BTermV>)
    ensures
        terms_arity_ok(s) == forall|i: int| 0 <= i < s.len() ==> #[trigger] term_arity_ok(s[i]),
    decreases s.len(),
{
    if s.len() > 0 {
        let r = s.drop_last();
        lemma_terms_arity(r);
        if terms_arity_ok(s) {
            assert forall|i: int| 0 <= i < s.len() implies #[trigger] term_arity_ok(s[i]) by {
                if i < s.len() - 1 {
                    assert(r[i] == s[i]);
                }
            }
        }
        if forall|i: int| 0 <= i < s.len() ==> #[trigger] term_arity_ok(s[i]) {
            assert forall|i: int| 0 <= i < r.len() implies #[trigger] term_arity_ok(r[i]) by {
                assert(r[i] == s[i]);
                assert(term_arity_ok(s[i]));
            }
            assert(term_arity_ok(s[s.len() - 1]));
        }
    }
}

/// A list of arms passes [`arms_arity_ok`] exactly when each body does.
pub proof fn lemma_arms_arity(s: Seq<(Seq<char>, BTermV)>)
    ensures
        arms_arity_ok(s) == forall|i: int| 0 <= i < s.len() ==> #[trigger] term_arity_ok(s[i].1),
    decreases s.len(),
{
    if s.len() > 0 {
        let r = s.drop_last();
        lemma_arms_arity(r);
        if arms_arity_ok(s) {
            assert forall|i: int| 0 <= i < s.len() implies #[trigger] term_arity_ok(s[i].1) by {
                if i < s.len() - 1 {
                    assert(r[i] == s[i]);
                }
            }
        }
        if forall|i: int| 0 <= i < s.len() ==> #[trigger] term_arity_ok(s[i].1) {
            assert forall|i: int| 0 <= i < r.len() implies #[trigger] term_arity_ok(r[i].1) by {
                assert(r[i] == s[i]);
                assert(term_arity_ok(s[i].1));
            }
            assert(term_arity_ok(s[s.len() - 1].1));
        }
    }
}

// ---------------------------------------------------------------------------------------------
// Values
// ---------------------------------------------------------------------------------------------

/// An evaluated value read as an integer.
pub open spec fn int_of(r: Result<ValueV, EvalErrorV>, msg: Seq<char>) -> Result<i128, EvalErrorV> {
    match r {
        Err(e) => Err(e),
        Ok(ValueV::Int(n)) => Ok(n),
        Ok(_) => Err(mismatch(msg)),
    }
}

/// The value of a value term.
pub open spec fn eval_value(t: VTermV, c: EvalCtx) -> Result<ValueV, EvalErrorV>
    decreases t, 0nat,
{
    match t {
        VTermV::Lit(v) => Ok(v),
        VTermV::Var(n) => match lookup(c.env, n) {
            Some(v) => Ok(v),
            None => Err(EvalErrorV::UnresolvedVar(n)),
        },
        VTermV::Op(f, args) => apply_fn(f, args, c),
    }
}

/// The first two arguments, as integers.
pub open spec fn int_pair(args: Seq<VTermV>, c: EvalCtx) -> Result<(i128, i128), EvalErrorV>
    decreases args, 0nat,
{
    if args.len() < 2 {
        Err(mismatch("expected integer"@))
    } else {
        match int_of(eval_value(args[0], c), "expected integer"@) {
            Err(e) => Err(e),
            Ok(a) => match int_of(eval_value(args[1], c), "expected integer"@) {
                Err(e) => Err(e),
                Ok(b) => Ok((a, b)),
            },
        }
    }
}

/// The indices a `path(...)` application builds.
pub open spec fn eval_indices(args: Seq<VTermV>, c: EvalCtx) -> Result<Seq<usize>, EvalErrorV>
    decreases args, 0nat,
{
    if args.len() == 0 {
        Ok(Seq::empty())
    } else {
        match int_of(eval_value(args[0], c), "path index not an integer"@) {
            Err(e) => Err(e),
            Ok(n) => match eval_indices(args.drop_first(), c) {
                Err(e) => Err(e),
                Ok(rest) => Ok(seq![n as usize] + rest),
            },
        }
    }
}

/// The value a value function computes from its arguments.
pub open spec fn apply_fn(f: ValueFn, args: Seq<VTermV>, c: EvalCtx) -> Result<
    ValueV,
    EvalErrorV,
>
    decreases args, 1nat,
{
    match f {
        ValueFn::Add => match int_pair(args, c) {
            Err(e) => Err(e),
            Ok(p) => Ok(ValueV::Int(clamp(p.0 + p.1))),
        },
        ValueFn::Sub => match int_pair(args, c) {
            Err(e) => Err(e),
            Ok(p) => Ok(ValueV::Int(clamp(p.0 - p.1))),
        },
        ValueFn::Mul => match int_pair(args, c) {
            Err(e) => Err(e),
            Ok(p) => Ok(ValueV::Int(clamp(p.0 * p.1))),
        },
        ValueFn::Div => match int_pair(args, c) {
            Err(e) => Err(e),
            Ok(p) => Ok(ValueV::Int(clamp(floor_quotient(p.0 as int, p.1 as int)))),
        },
        ValueFn::Min => match int_pair(args, c) {
            Err(e) => Err(e),
            Ok(p) => Ok(ValueV::Int(if p.0 <= p.1 { p.0 } else { p.1 })),
        },
        ValueFn::Max => match int_pair(args, c) {
            Err(e) => Err(e),
            Ok(p) => Ok(ValueV::Int(if p.0 >= p.1 { p.0 } else { p.1 })),
        },
        ValueFn::Pct => match int_pair(args, c) {
            Err(e) => Err(e),
            Ok(p) => Ok(ValueV::Int(pct_of(p.0, p.1))),
        },
        ValueFn::Bps => match int_pair(args, c) {
            Err(e) => Err(e),
            Ok(p) => Ok(ValueV::Int(bps_of(p.0, p.1))),
        },
        ValueFn::OperationType => Ok(ValueV::Symbol(c.op.op_type)),
        ValueFn::OperationArg => if args.len() == 0 {
            Err(mismatch("operation_arg name not a symbol"@))
        } else {
            match eval_value(args[0], c) {
                Err(e) => Err(e),
                Ok(ValueV::Symbol(s)) => match lookup(c.op.args, s) {
                    Some(v) => Ok(v),
                    None => Err(mismatch("operation lacks this argument"@)),
                },
                Ok(_) => Err(mismatch("operation_arg name not a symbol"@)),
            }
        },
        ValueFn::OperationPath => match op_path(c.op) {
            Some(p) => Ok(ValueV::Path(p)),
            None => Err(mismatch("operation has no path"@)),
        },
        ValueFn::OperationSubtree => match op_subtree(c.op) {
            Some(t) => Ok(ValueV::Subtree(Box::new(t))),
            None => Err(mismatch("operation has no subtree"@)),
        },
        ValueFn::BlocksSinceActivity => Ok(ValueV::Int(c.st.blocks_since_activity as i128)),
        ValueFn::BlocksSinceOpen => Ok(ValueV::Int(c.st.blocks_since_open as i128)),
        ValueFn::BlocksSinceReceived => Ok(ValueV::Int(c.st.blocks_since_received as i128)),
        ValueFn::DepositBalance => Ok(ValueV::Int(c.st.balance)),
        ValueFn::RollingWindow => if args.len() < 2 {
            Err(mismatch("rolling_window field not a symbol"@))
        } else {
            match eval_value(args[0], c) {
                Err(e) => Err(e),
                Ok(ValueV::Symbol(field)) => match int_of(
                    eval_value(args[1], c),
                    "expected integer"@,
                ) {
                    Err(e) => Err(e),
                    Ok(period) => Ok(ValueV::Int(rolling_total(c.st, field, period))),
                },
                Ok(_) => Err(mismatch("rolling_window field not a symbol"@)),
            }
        },
        ValueFn::CumulativeSpentVia => if args.len() == 0 {
            Err(mismatch("cumulative_spent_via expects a path"@))
        } else {
            match eval_value(args[0], c) {
                Err(e) => Err(e),
                Ok(ValueV::Path(p)) => Ok(ValueV::Int(cumulative_total(c.st, p))),
                Ok(_) => Err(mismatch("cumulative_spent_via expects a path"@)),
            }
        },
        ValueFn::Path => match eval_indices(args, c) {
            Err(e) => Err(e),
            Ok(p) => Ok(ValueV::Path(p)),
        },
        ValueFn::AstRef => if args.len() == 0 {
            Err(mismatch("ast_ref expects a path"@))
        } else {
            match eval_value(args[0], c) {
                Err(e) => Err(e),
                Ok(ValueV::Path(p)) => match subterm_at(c.root, p) {
                    Some(s) => Ok(ValueV::Subtree(Box::new(s))),
                    None => Err(mismatch("path does not address a subterm"@)),
                },
                Ok(_) => Err(mismatch("ast_ref expects a path"@)),
            }
        },
        ValueFn::AstShapeAt => if args.len() == 0 {
            Err(mismatch("ast_shape_at expects a path"@))
        } else {
            match eval_value(args[0], c) {
                Err(e) => Err(e),
                Ok(ValueV::Path(p)) => match subterm_at(c.root, p) {
                    Some(s) => Ok(ValueV::Symbol(term_shape(s))),
                    None => Err(mismatch("path does not address a subterm"@)),
                },
                Ok(_) => Err(mismatch("ast_shape_at expects a path"@)),
            }
        },
    }
}

/// The values of a list of value terms, evaluated in order.
pub open spec fn eval_args(args: Seq<VTermV>, c: EvalCtx) -> Result<Seq<ValueV>, EvalErrorV>
    decreases args.len(),
{
    if args.len() == 0 {
        Ok(Seq::empty())
    } else {
        match eval_value(args[0], c) {
            Err(e) => Err(e),
            Ok(v) => match eval_args(args.drop_first(), c) {
                Err(e) => Err(e),
                Ok(rest) => Ok(seq![v] + rest),
            },
        }
    }
}

// ---------------------------------------------------------------------------------------------
// State predicates, comparisons, obligations
// ---------------------------------------------------------------------------------------------

/// The operation's `amount` argument.
pub open spec fn amount_of(op: OperationV) -> Result<i128, EvalErrorV> {
    match lookup(op.args, "amount"@) {
        Some(ValueV::Int(n)) => Ok(n),
        _ => Err(mismatch("operation has no amount"@)),
    }
}

/// The operation's `destination` argument.
pub open spec fn destination_of(op: OperationV) -> Result<ValueV, EvalErrorV> {
    match lookup(op.args, "destination"@) {
        Some(v) => Ok(v),
        None => Err(mismatch("operation has no destination"@)),
    }
}

/// The `i`-th argument of a state predicate, as an integer.
pub open spec fn int_arg(vals: Seq<ValueV>, i: int) -> Result<i128, EvalErrorV> {
    match vals[i] {
        ValueV::Int(n) => Ok(n),
        _ => Err(mismatch("expected integer argument"@)),
    }
}

/// `limit` compared with the first argument: whether `cmp(limit, arg)` holds.
pub open spec fn with_int_arg(vals: Seq<ValueV>, i: int, f: spec_fn(i128) -> bool) -> Result<
    bool,
    EvalErrorV,
> {
    match int_arg(vals, i) {
        Err(e) => Err(e),
        Ok(n) => Ok(f(n)),
    }
}

/// Whether a state predicate holds of its evaluated arguments.
pub open spec fn state_holds(
    p: StatePred,
    vals: Seq<ValueV>,
    root: BTermV,
    op: OperationV,
    st: SnapshotV,
) -> Result<bool, EvalErrorV> {
    match p {
        StatePred::Older => with_int_arg(
            vals,
            0,
            |n: i128| st.blocks_since_activity as i128 >= n,
        ),
        StatePred::After => with_int_arg(vals, 0, |n: i128| st.height as i128 >= n),
        StatePred::AmountAtMost => match amount_of(op) {
            Err(e) => Err(e),
            Ok(a) => with_int_arg(vals, 0, |n: i128| a <= n),
        },
        StatePred::AmountInRange => match amount_of(op) {
            Err(e) => Err(e),
            Ok(a) => match int_arg(vals, 0) {
                Err(e) => Err(e),
                Ok(lo) => if a >= lo {
                    with_int_arg(vals, 1, |hi: i128| a <= hi)
                } else {
                    Ok(false)
                },
            },
        },
        StatePred::AmountAtMostPct => match amount_of(op) {
            Err(e) => Err(e),
            Ok(a) => with_int_arg(vals, 0, |n: i128| a <= pct_of(st.balance, n)),
        },
        StatePred::DestinationIs => match destination_of(op) {
            Err(e) => Err(e),
            Ok(d) => Ok(d == vals[0]),
        },
        StatePred::DestinationIn => match destination_of(op) {
            Err(e) => Err(e),
            Ok(d) => match vals[0] {
                ValueV::List(set) => Ok(set.contains(d)),
                _ => Err(mismatch("destination_in expects a list"@)),
            },
        },
        StatePred::BalanceAtLeast => with_int_arg(vals, 0, |n: i128| st.balance >= n),
        StatePred::BalanceAtMost => with_int_arg(vals, 0, |n: i128| st.balance <= n),
        StatePred::BlocksSinceActivityAtLeast => with_int_arg(
            vals,
            0,
            |n: i128| st.blocks_since_activity as i128 >= n,
        ),
        StatePred::BlocksSinceOpenBelow => with_int_arg(
            vals,
            0,
            |n: i128| (st.blocks_since_open as i128) < n,
        ),
        StatePred::RollingAmountBelow => match int_arg(vals, 1) {
            Err(e) => Err(e),
            Ok(period) => with_int_arg(
                vals,
                0,
                |n: i128| rolling_total(st, "amount_out"@, period) <= n,
            ),
        },
        StatePred::RollingAmountBelowPct => match int_arg(vals, 1) {
            Err(e) => Err(e),
            Ok(period) => with_int_arg(
                vals,
                0,
                |n: i128| rolling_total(st, "amount_out"@, period) <= pct_of(st.balance, n),
            ),
        },
        StatePred::SubtreeAt => match vals[1] {
            ValueV::Path(path) => Ok(
                match subterm_at(root, path) {
                    Some(s) => vals[0] == ValueV::Subtree(Box::new(s)),
                    None => false,
                },
            ),
            _ => Err(mismatch("subtree_at expects a path"@)),
        },
        StatePred::BlocksSinceOpenAtLeast => with_int_arg(
            vals,
            0,
            |n: i128| st.blocks_since_open as i128 >= n,
        ),
        StatePred::BlocksSinceReceivedAtLeast => with_int_arg(
            vals,
            0,
            |n: i128| st.blocks_since_received as i128 >= n,
        ),
    }
}

/// The verdict of a comparison of two values.
pub open spec fn compare(o: CmpOp, a: ValueV, b: ValueV) -> Result<bool, EvalErrorV> {
    match o {
        CmpOp::Eq => Ok(a == b),
        _ => match (a, b) {
            (ValueV::Int(x), ValueV::Int(y)) => Ok(
                match o {
                    CmpOp::Lt => x < y,
                    CmpOp::Le => x <= y,
                    CmpOp::Gt => x > y,
                    _ => x >= y,
                },
            ),
            _ => Err(mismatch("ordered comparison needs integers"@)),
        },
    }
}

/// The text of a key value.
pub open spec fn key_text(v: ValueV) -> Seq<char> {
    match v {
        ValueV::Key(k) => k,
        _ => Seq::empty(),
    }
}

/// An evaluated value read as a list of keys.
pub open spec fn keys_of(r: Result<ValueV, EvalErrorV>) -> Result<Seq<Seq<char>>, EvalErrorV> {
    match r {
        Err(e) => Err(e),
        Ok(ValueV::List(items)) => if forall|i: int| 0 <= i < items.len() ==> items[i] is Key {
            Ok(Seq::new(items.len(), |i: int| key_text(items[i])))
        } else {
            Err(mismatch("key list contains a non-key"@))
        },
        Ok(_) => Err(mismatch("expected a list of keys"@)),
    }
}

/// The number of distinct keys of `ks` in `signed`.
pub open spec fn distinct_signed(ks: Seq<Seq<char>>, signed: Set<Seq<char>>) -> nat
    decreases ks.len(),
{
    if ks.len() == 0 {
        0
    } else {
        let rest = ks.drop_last();
        distinct_signed(rest, signed) + if signed.contains(ks.last()) && !rest.contains(ks.last()) {
            1nat
        } else {
            0nat
        }
    }
}

/// Whether an obligation is discharged by the evidence.
pub open spec fn obligation_holds(o: ObligationV, c: EvalCtx, p: Evidence) -> Result<
    bool,
    EvalErrorV,
> {
    match o {
        ObligationV::Pk(v) => match eval_value(v, c) {
            Err(e) => Err(e),
            Ok(ValueV::Key(k)) => Ok(p.signed.contains(k)),
            Ok(_) => Err(mismatch("expected a key"@)),
        },
        ObligationV::PkAny(v) => match keys_of(eval_value(v, c)) {
            Err(e) => Err(e),
            Ok(ks) => Ok(exists|i: int| 0 <= i < ks.len() && p.signed.contains(ks[i])),
        },
        ObligationV::Multi(k, v) => match keys_of(eval_value(v, c)) {
            Err(e) => Err(e),
            Ok(ks) => Ok(distinct_signed(ks, p.signed) >= k),
        },
        ObligationV::PkH(v) => match eval_value(v, c) {
            Err(e) => Err(e),
            Ok(ValueV::Hash(h)) => Ok(exists|k: Seq<char>| p.signed.contains(k) && p.key_hashes.contains((k, h))),
            Ok(_) => Err(mismatch("pk_h expects a key hash"@)),
        },
        ObligationV::Hashlock(v) => match eval_value(v, c) {
            Err(e) => Err(e),
            Ok(ValueV::Hash(h)) => Ok(p.opened.contains(h)),
            Ok(_) => Err(mismatch("hashlock expects a hash"@)),
        },
        ObligationV::Attest(v, _) => match eval_value(v, c) {
            Err(e) => Err(e),
            Ok(ValueV::Key(k)) => Ok(p.attested.contains(k)),
            Ok(_) => Err(mismatch("expected a key"@)),
        },
    }
}

// ---------------------------------------------------------------------------------------------
// Terms
// ---------------------------------------------------------------------------------------------

/// The index of the first arm tagged `sym`, or the number of arms if none is.
pub open spec fn first_arm(arms: Seq<(Seq<char>, BTermV)>, sym: Seq<char>) -> nat
    decreases arms.len(),
{
    if arms.len() == 0 {
        0
    } else if arms[0].0 == sym {
        0
    } else {
        1 + first_arm(arms.drop_first(), sym)
    }
}

/// The verdict of a term.
pub open spec fn eval_term(t: BTermV, c: EvalCtx, p: Evidence) -> Result<bool, EvalErrorV>
    decreases t,
{
    match t {
        BTermV::Const(b) => Ok(b),
        BTermV::And(bs) => eval_all(bs, c, p),
        BTermV::Or(bs) => eval_any(bs, c, p),
        BTermV::Thresh(k, bs) => match count_true(bs, c, p) {
            Err(e) => Err(e),
            Ok(n) => Ok(n >= k),
        },
        BTermV::Not(b) => match eval_term(*b, c, p) {
            Err(e) => Err(e),
            Ok(x) => Ok(!x),
        },
        BTermV::If(cond, t1, e) => match eval_term(*cond, c, p) {
            Err(err) => Err(err),
            Ok(true) => eval_term(*t1, c, p),
            Ok(false) => eval_term(*e, c, p),
        },
        BTermV::Match(s, arms, d) => match eval_value(s, c) {
            Err(e) => Err(e),
            Ok(ValueV::Symbol(sym)) => {
                let i = first_arm(arms, sym);
                if i < arms.len() {
                    eval_term(arms[i as int].1, c, p)
                } else {
                    eval_term(*d, c, p)
                }
            },
            Ok(_) => Err(mismatch("match scrutinee not a symbol"@)),
        },
        BTermV::Cmp(o, a, b) => match eval_value(a, c) {
            Err(e) => Err(e),
            Ok(x) => match eval_value(b, c) {
                Err(e) => Err(e),
                Ok(y) => compare(o, x, y),
            },
        },
        BTermV::State(pr, args) => match eval_args(args, c) {
            Err(e) => Err(e),
            Ok(vals) => state_holds(pr, vals, c.root, c.op, c.st),
        },
        BTermV::Prove(o) => obligation_holds(o, c, p),
    }
}

/// Conjunction, stopping at the first child that does not hold.
pub open spec fn eval_all(bs: Seq<BTermV>, c: EvalCtx, p: Evidence) -> Result<bool, EvalErrorV>
    decreases bs,
{
    if bs.len() == 0 {
        Ok(true)
    } else {
        match eval_term(bs[0], c, p) {
            Err(e) => Err(e),
            Ok(false) => Ok(false),
            Ok(true) => eval_all(bs.drop_first(), c, p),
        }
    }
}

/// Disjunction, stopping at the first child that holds.
pub open spec fn eval_any(bs: Seq<BTermV>, c: EvalCtx, p: Evidence) -> Result<bool, EvalErrorV>
    decreases bs,
{
    if bs.len() == 0 {
        Ok(false)
    } else {
        match eval_term(bs[0], c, p) {
            Err(e) => Err(e),
            Ok(true) => Ok(true),
            Ok(false) => eval_any(bs.drop_first(), c, p),
        }
    }
}

/// Where every child evaluates, a conjunction holds exactly when every child holds, a
/// disjunction exactly when some child does, and a threshold counts the children that hold.
pub proof fn lemma_connectives(bs: Seq<BTermV>, c: EvalCtx, p: Evidence)
    requires
        forall|i: int| 0 <= i < bs.len() ==> #[trigger] eval_term(bs[i], c, p) is Ok,
    ensures
        eval_all(bs, c, p) == Ok::<bool, EvalErrorV>(
            forall|i: int| 0 <= i < bs.len() ==> #[trigger] eval_term(bs[i], c, p) == Ok::<bool, EvalErrorV>(true),
        ),
        eval_any(bs, c, p) == Ok::<bool, EvalErrorV>(
            exists|i: int| 0 <= i < bs.len() && #[trigger] eval_term(bs[i], c, p) == Ok::<bool, EvalErrorV>(true),
        ),
        count_true(bs, c, p) == Ok::<nat, EvalErrorV>(holding(bs, c, p)),
    decreases bs.len(),
{
    if bs.len() > 0 {
        let rest = bs.drop_first();
        assert forall|i: int| 0 <= i < rest.len() implies #[trigger] eval_term(rest[i], c, p) is Ok by {
            assert(rest[i] == bs[i + 1]);
            assert(eval_term(bs[i + 1], c, p) is Ok);
        }
        lemma_connectives(rest, c, p);
        assert(eval_term(bs[0], c, p) is Ok);
        if eval_term(bs[0], c, p) == Ok::<bool, EvalErrorV>(true) {
            assert forall|i: int| 0 <= i < rest.len() implies (#[trigger] eval_term(rest[i], c, p) == Ok::<
                bool,
                EvalErrorV,
            >(true)) == (eval_term(bs[i + 1], c, p) == Ok::<bool, EvalErrorV>(true)) by {
                assert(rest[i] == bs[i + 1]);
            }
            if forall|i: int| 0 <= i < rest.len() ==> #[trigger] eval_term(rest[i], c, p) == Ok::<bool, EvalErrorV>(true) {
                assert forall|i: int| 0 <= i < bs.len() implies #[trigger] eval_term(bs[i], c, p) == Ok::<bool, EvalErrorV>(true) by {
                    if i > 0 {
                        assert(rest[i - 1] == bs[i]);
                    }
                }
            } else {
                let j = choose|j: int| 0 <= j < rest.len() && !(#[trigger] eval_term(rest[j], c, p) == Ok::<bool, EvalErrorV>(true));
                assert(rest[j] == bs[j + 1]);
            }
        } else {
            if exists|i: int| 0 <= i < rest.len() && #[trigger] eval_term(rest[i], c, p) == Ok::<bool, EvalErrorV>(true) {
                let j = choose|j: int| 0 <= j < rest.len() && #[trigger] eval_term(rest[j], c, p) == Ok::<bool, EvalErrorV>(true);
                assert(rest[j] == bs[j + 1]);
            } else {
                assert forall|i: int| 0 <= i < bs.len() implies !(#[trigger] eval_term(bs[i], c, p) == Ok::<bool, EvalErrorV>(true)) by {
                    if i > 0 {
                        assert(rest[i - 1] == bs[i]);
                    }
                }
            }
        }
    }
}

/// The number of terms of a list that hold.
pub open spec fn holding(bs: Seq<BTermV>, c: EvalCtx, p: Evidence) -> nat
    decreases bs.len(),
{
    if bs.len() == 0 {
        0
    } else {
        holding(bs.drop_first(), c, p) + if eval_term(bs[0], c, p) == Ok::<bool, EvalErrorV>(true) {
            1nat
        } else {
            0nat
        }
    }
}

/// The number of children that hold; every child is evaluated.
pub open spec fn count_true(bs: Seq<BTermV>, c: EvalCtx, p: Evidence) -> Result<nat, EvalErrorV>
    decreases bs,
{
    if bs.len() == 0 {
        Ok(0)
    } else {
        match eval_term(bs[0], c, p) {
            Err(e) => Err(e),
            Ok(x) => match count_true(bs.drop_first(), c, p) {
                Err(e) => Err(e),
                Ok(n) => Ok(n + if x {
                    1nat
                } else {
                    0nat
                }),
            },
        }
    }
}

// ---------------------------------------------------------------------------------------------
// Executable evaluation
// ---------------------------------------------------------------------------------------------

/// The texts of a list of strings.
pub open spec fn texts(s: Seq<String>) -> Seq<Seq<char>> {
    Seq::new(s.len(), |i: int| s[i]@)
}

/// The keys a witness carries signatures for.
pub open spec fn witness_keys(w: WitnessV) -> Set<Seq<char>> {
    Set::new(|k: Seq<char>| lookup(w.signatures, k) is Some)
}

/// Whether `key` is one of the strings of `list`.
pub fn has_text(list: &Vec<String>, key: &str) -> (r: bool)
    ensures
        r == text_set(list@).contains(key@),
{
    let mut i: usize = 0;
    while i < list.len()
        invariant
            i <= list.len(),
            forall|j: int| 0 <= j < i ==> list@[j]@ != key@,
        decreases list.len() - i,
    {
        if str_equal(list[i].as_str(), key) {
            assert(list@[i as int]@ == key@);
            return true;
        }
        i = i + 1;
    }
    false
}

/// The items of `s` whose entry in `pick` is `true`, in order.
pub open spec fn picked<A>(s: Seq<A>, pick: Seq<bool>) -> Seq<A>
    decreases s.len(),
{
    if s.len() == 0 {
        Seq::empty()
    } else if pick.last() {
        picked(s.drop_last(), pick.drop_last()).push(s.last())
    } else {
        picked(s.drop_last(), pick.drop_last())
    }
}

/// The keys of a witness's signatures, in key order.
pub open spec fn witness_key_seq(w: WitnessV) -> Seq<Seq<char>> {
    w.signatures.map_values(|e: (Seq<char>, Seq<u8>)| e.0)
}

/// Whether the verifier accepts each signature of a witness over `message`, in key order.
pub open spec fn accept_flags<V: Verifier>(w: WitnessV, v: &V, message: Seq<u8>) -> Seq<bool> {
    Seq::new(w.signatures.len(), |i: int| v.accepts(w.signatures[i].0, w.signatures[i].1, message))
}

/// The keys whose witness signature the verifier accepts over `message`, in key order.
pub fn signers<V: Verifier>(w: &Witness, verifier: &V, message: &[u8]) -> (r: Vec<String>)
    ensures
        texts(r@) == picked(witness_key_seq(w@), accept_flags(w@, verifier, message@)),
        text_set(r@) == accepted_keys(w@, verifier, message@),
{
    let entries = w.signatures.entries();
    proof {
        w.signatures.lemma_view_entries();
    }
    let ghost ks = witness_key_seq(w@);
    let ghost flags = accept_flags(w@, verifier, message@);
    let ghost acc = accepted_keys(w@, verifier, message@);
    let mut out: Vec<String> = Vec::new();
    let mut i: usize = 0;
    assert(texts(out@) =~= picked(ks.take(0), flags.take(0)));
    while i < entries.len()
        invariant
            i <= entries.len(),
            ks == witness_key_seq(w@),
            flags == accept_flags(w@, verifier, message@),
            acc == accepted_keys(w@, verifier, message@),
            entries@ == w.signatures.entries_spec(),
            w@.signatures.len() == entries@.len(),
            forall|j: int|
                0 <= j < w@.signatures.len() ==> #[trigger] w@.signatures[j] == (
                    entries@[j].0@,
                    entries@[j].1@,
                ),
            texts(out@) == picked(ks.take(i as int), flags.take(i as int)),
            forall|k: Seq<char>|
                #[trigger] text_set(out@).contains(k) <==> exists|j: int|
                    0 <= j < i && w@.signatures[j].0 == k && verifier.accepts(
                        k,
                        w@.signatures[j].1,
                        message@,
                    ),
        decreases entries.len() - i,
    {
        let ok = verifier.verify_signature(entries[i].0.as_str(), &entries[i].1, message);
        let ghost before = out@;
        proof {
            assert(ks[i as int] == entries@[i as int].0@);
            assert(ks.take(i + 1).drop_last() =~= ks.take(i as int));
            assert(ks.take(i + 1).last() == ks[i as int]);
            assert(flags.take(i + 1).drop_last() =~= flags.take(i as int));
            assert(flags.take(i + 1).last() == ok);
        }
        if ok {
            out.push(entries[i].0.clone());
            assert(texts(out@) =~= texts(before).push(ks[i as int]));
        }
        proof {
            assert forall|k: Seq<char>|
                #[trigger] text_set(out@).contains(k) <==> exists|j: int|
                    0 <= j < i + 1 && w@.signatures[j].0 == k && verifier.accepts(
                        k,
                        w@.signatures[j].1,
                        message@,
                    ) by {
                if text_set(out@).contains(k) {
                    let m = choose|m: int| 0 <= m < out@.len() && out@[m]@ == k;
                    if m < before.len() {
                        assert(text_set(before).contains(k));
                    } else {
                        assert(w@.signatures[i as int].0 == k);
                    }
                }
                if exists|j: int|
                    0 <= j < i + 1 && w@.signatures[j].0 == k && verifier.accepts(
                        k,
                        w@.signatures[j].1,
                        message@,
                    ) {
                    let j = choose|j: int|
                        0 <= j < i + 1 && w@.signatures[j].0 == k && verifier.accepts(
                            k,
                            w@.signatures[j].1,
                            message@,
                        );
                    if j < i {
                        assert(text_set(before).contains(k));
                        let m = choose|m: int| 0 <= m < before.len() && before[m]@ == k;
                        assert(out@[m] == before[m]);
                    } else {
                        assert(out@[out@.len() - 1]@ == k);
                    }
                }
            }
        }
        i = i + 1;
    }
    assert(ks.take(i as int) =~= ks);
    assert(flags.take(i as int) =~= flags);
    assert(text_set(out@) =~= acc);
    out
}

/// The value of a value term. `root` is the term that `ast_ref` and `ast_shape_at` paths
/// address.
pub fn eval_v(t: &VTerm, env: &Env, root: &BTerm, op: &OperationData, st: &Snapshot) -> (r:
    Result<Value, EvalError>)
    requires
        vterm_arity_ok(t@),
    ensures
        result_view(r) == eval_value(t@, ctx(env@, root@, op@, st@)),
    decreases t, 0nat,
{
    match t {
        VTerm::Lit(v) => Ok(crate::ast::copy_value(v)),
        VTerm::Var(name) => match env.get(name.as_str()) {
            Some(v) => Ok(crate::ast::copy_value(v)),
            None => Err(EvalError::UnresolvedVar(name.clone())),
        },
        VTerm::Op(f, args) => {
            proof {
                lemma_vterms_view(args@);
                assert(t@ == VTermV::Op(*f, vterms_view(args@)));
                lemma_vterms_arity(vterms_view(args@));
                assert forall|i: int| 0 <= i < args@.len() implies #[trigger] vterm_arity_ok(
                    args@[i]@,
                ) by {
                        assert(vterms_view(args@)[i] == args@[i]@);
                }
            }
            eval_valuefn(*f, args, env, root, op, st)
        },
    }
}

/// An integer argument of a value function.
fn eval_int(t: &VTerm, env: &Env, root: &BTerm, op: &OperationData, st: &Snapshot, msg: &'static str) -> (r:
    Result<i128, EvalError>)
    requires
        vterm_arity_ok(t@),
    ensures
        match r {
            Ok(n) => int_of(eval_value(t@, ctx(env@, root@, op@, st@)), msg@) == Ok::<i128, EvalErrorV>(n),
            Err(e) => int_of(eval_value(t@, ctx(env@, root@, op@, st@)), msg@) == Err::<i128, EvalErrorV>(e@),
        },
    decreases t, 1nat,
{
    match eval_v(t, env, root, op, st) {
        Err(e) => Err(e),
        Ok(v) => match v.as_int() {
            Some(n) => Ok(n),
            None => Err(EvalError::TypeMismatch(msg)),
        },
    }
}

/// The first two arguments of a value function, as integers.
fn eval_int_pair(args: &Vec<VTerm>, env: &Env, root: &BTerm, op: &OperationData, st: &Snapshot) -> (r:
    Result<(i128, i128), EvalError>)
    requires
        args@.len() >= 2,
        forall|i: int| 0 <= i < args@.len() ==> #[trigger] vterm_arity_ok(args@[i]@),
    ensures
        match r {
            Ok(p) => int_pair(vterms_view(args@), ctx(env@, root@, op@, st@)) == Ok::<(i128, i128), EvalErrorV>(p),
            Err(e) => int_pair(vterms_view(args@), ctx(env@, root@, op@, st@)) == Err::<(i128, i128), EvalErrorV>(e@),
        },
    decreases args, 0nat,
{
    proof {
        lemma_vterms_view(args@);
    }
    let a = match eval_int(&args[0], env, root, op, st, "expected integer") {
        Err(e) => return Err(e),
        Ok(a) => a,
    };
    let b = match eval_int(&args[1], env, root, op, st, "expected integer") {
        Err(e) => return Err(e),
        Ok(b) => b,
    };
    Ok((a, b))
}

/// The value a value function computes from its arguments.
fn eval_valuefn(
    f: ValueFn,
    args: &Vec<VTerm>,
    env: &Env,
    root: &BTerm,
    op: &OperationData,
    st: &Snapshot,
) -> (r: Result<Value, EvalError>)
    requires
        args@.len() >= value_fn_arity(f),
        forall|i: int| 0 <= i < args@.len() ==> #[trigger] vterm_arity_ok(args@[i]@),
    ensures
        result_view(r) == apply_fn(f, vterms_view(args@), ctx(env@, root@, op@, st@)),
    decreases args, 2nat,
{
    proof {
        lemma_vterms_view(args@);
    }
    match f {
        ValueFn::Add => match eval_int_pair(args, env, root, op, st) {
            Err(e) => Err(e),
            Ok(p) => Ok(Value::Int(sat_add(p.0, p.1))),
        },
        ValueFn::Sub => match eval_int_pair(args, env, root, op, st) {
            Err(e) => Err(e),
            Ok(p) => Ok(Value::Int(sat_sub(p.0, p.1))),
        },
        ValueFn::Mul => match eval_int_pair(args, env, root, op, st) {
            Err(e) => Err(e),
            Ok(p) => Ok(Value::Int(sat_mul(p.0, p.1))),
        },
        ValueFn::Div => match eval_int_pair(args, env, root, op, st) {
            Err(e) => Err(e),
            Ok(p) => Ok(Value::Int(floor_div(p.0, p.1))),
        },
        ValueFn::Min => match eval_int_pair(args, env, root, op, st) {
            Err(e) => Err(e),
            Ok(p) => Ok(Value::Int(if p.0 <= p.1 { p.0 } else { p.1 })),
        },
        ValueFn::Max => match eval_int_pair(args, env, root, op, st) {
            Err(e) => Err(e),
            Ok(p) => Ok(Value::Int(if p.0 >= p.1 { p.0 } else { p.1 })),
        },
        ValueFn::Pct => match eval_int_pair(args, env, root, op, st) {
            Err(e) => Err(e),
            Ok(p) => Ok(Value::Int(pct(p.0, p.1))),
        },
        ValueFn::Bps => match eval_int_pair(args, env, root, op, st) {
            Err(e) => Err(e),
            Ok(p) => Ok(Value::Int(bps(p.0, p.1))),
        },
        ValueFn::OperationType => Ok(Value::Symbol(Symbol(op.op_type.0.clone()))),
        ValueFn::OperationArg => match eval_v(&args[0], env, root, op, st) {
            Err(e) => Err(e),
            Ok(name) => match name.as_symbol() {
                Some(sym) => match op.get_arg(sym.as_str()) {
                    Some(v) => Ok(v),
                    None => Err(EvalError::TypeMismatch("operation lacks this argument")),
                },
                None => Err(EvalError::TypeMismatch("operation_arg name not a symbol")),
            },
        },
        ValueFn::OperationPath => match op.get_path() {
            Some(p) => Ok(Value::Path(p)),
            None => Err(EvalError::TypeMismatch("operation has no path")),
        },
        ValueFn::OperationSubtree => match op.get_subtree() {
            Some(t) => Ok(Value::Subtree(Box::new(t))),
            None => Err(EvalError::TypeMismatch("operation has no subtree")),
        },
        ValueFn::BlocksSinceActivity => Ok(Value::Int(st.blocks_since_activity as i128)),
        ValueFn::BlocksSinceOpen => Ok(Value::Int(st.blocks_since_open as i128)),
        ValueFn::BlocksSinceReceived => Ok(Value::Int(st.blocks_since_received as i128)),
        ValueFn::DepositBalance => Ok(Value::Int(st.balance)),
        ValueFn::RollingWindow => match eval_v(&args[0], env, root, op, st) {
            Err(e) => Err(e),
            Ok(field) => match field.as_symbol() {
                Some(sym) => match eval_int(&args[1], env, root, op, st, "expected integer") {
                    Err(e) => Err(e),
                    Ok(period) => Ok(Value::Int(st.rolling_total(sym.as_str(), period))),
                },
                None => Err(EvalError::TypeMismatch("rolling_window field not a symbol")),
            },
        },
        ValueFn::CumulativeSpentVia => match eval_v(&args[0], env, root, op, st) {
            Err(e) => Err(e),
            Ok(Value::Path(p)) => Ok(Value::Int(st.cumulative_total(p.as_slice()))),
            Ok(_) => Err(EvalError::TypeMismatch("cumulative_spent_via expects a path")),
        },
        ValueFn::Path => {
            let ghost c = ctx(env@, root@, op@, st@);
            let ghost vs = vterms_view(args@);
            let mut idx: Vec<usize> = Vec::new();
            let mut i: usize = 0;
            assert(vs.skip(0) =~= vs);
            while i < args.len()
                invariant
                    i <= args@.len(),
                    vs == vterms_view(args@),
                    f == ValueFn::Path,
                    c == ctx(env@, root@, op@, st@),
                    vs.len() == args@.len(),
                    forall|j: int| 0 <= j < args@.len() ==> #[trigger] vs[j] == args@[j]@,
                    forall|j: int| 0 <= j < args@.len() ==> #[trigger] vterm_arity_ok(args@[j]@),
                    eval_indices(vs, c) == match eval_indices(vs.skip(i as int), c) {
                        Err(e) => Err(e),
                        Ok(rest) => Ok(idx@ + rest),
                    },
                decreases args@.len() - i,
            {
                assert(vs.skip(i as int).drop_first() =~= vs.skip(i + 1));
                assert(vs.skip(i as int)[0] == vs[i as int]);
                let n = match eval_int(&args[i], env, root, op, st, "path index not an integer") {
                    Err(e) => {
                        assert(vs.skip(i as int)[0] == vs[i as int]);
                        assert(vs[i as int] == args@[i as int]@);
                        assert(int_of(eval_value(vs[i as int], c), "path index not an integer"@) == Err::<i128, EvalErrorV>(e@));
                        assert(eval_indices(vs.skip(i as int), c) == Err::<Seq<usize>, EvalErrorV>(
                            e@,
                        ));
                        assert(eval_indices(vs, c) == Err::<Seq<usize>, EvalErrorV>(e@));
                        assert(apply_fn(f, vs, c) == Err::<ValueV, EvalErrorV>(e@));
                        return Err(e);
                    },
                    Ok(n) => n,
                };
                assert(eval_indices(vs.skip(i as int), c) == match eval_indices(
                    vs.skip(i + 1),
                    c,
                ) {
                    Err(e) => Err(e),
                    Ok(rest) => Ok(seq![n as usize] + rest),
                });
                let ghost before = idx@;
                idx.push(n as usize);
                proof {
                    assert forall|rest: Seq<usize>|
                        before + (seq![n as usize] + rest) == #[trigger] (idx@ + rest) by {
                        assert(before + (seq![n as usize] + rest) =~= idx@ + rest);
                    }
                }
                i = i + 1;
            }
            assert(vs.skip(i as int) =~= Seq::<VTermV>::empty());
            assert(idx@ + Seq::<usize>::empty() =~= idx@);
            Ok(Value::Path(idx))
        },
        ValueFn::AstRef => match eval_v(&args[0], env, root, op, st) {
            Err(e) => Err(e),
            Ok(Value::Path(p)) => match root.subterm_at(p.as_slice()) {
                Some(s) => Ok(Value::Subtree(Box::new(crate::ast::copy_term(s)))),
                None => Err(EvalError::TypeMismatch("path does not address a subterm")),
            },
            Ok(_) => Err(EvalError::TypeMismatch("ast_ref expects a path")),
        },
        ValueFn::AstShapeAt => match eval_v(&args[0], env, root, op, st) {
            Err(e) => Err(e),
            Ok(Value::Path(p)) => match root.subterm_at(p.as_slice()) {
                Some(s) => Ok(Value::Symbol(Symbol::new(s.shape()))),
                None => Err(EvalError::TypeMismatch("path does not address a subterm")),
            },
            Ok(_) => Err(EvalError::TypeMismatch("ast_shape_at expects a path")),
        },
    }
}

/// The operation's `amount` argument.
fn operation_amount(op: &OperationData) -> (r: Result<i128, EvalError>)
    ensures
        result_int(r) == amount_of(op@),
{
    match op.get_arg("amount") {
        Some(Value::Int(n)) => Ok(n),
        _ => Err(EvalError::TypeMismatch("operation has no amount")),
    }
}

/// The operation's `destination` argument.
fn operation_destination(op: &OperationData) -> (r: Result<Value, EvalError>)
    ensures
        result_view(r) == destination_of(op@),
{
    match op.get_arg("destination") {
        Some(v) => Ok(v),
        None => Err(EvalError::TypeMismatch("operation has no destination")),
    }
}

/// The view of an integer result.
pub open spec fn result_int(r: Result<i128, EvalError>) -> Result<i128, EvalErrorV> {
    match r {
        Ok(n) => Ok(n),
        Err(e) => Err(e@),
    }
}

/// The `i`-th argument of a state predicate, as an integer.
fn int_argument(vals: &Vec<Value>, i: usize) -> (r: Result<i128, EvalError>)
    requires
        i < vals@.len(),
    ensures
        result_int(r) == int_arg(values_view(vals@), i as int),
{
    proof {
        lemma_values_view(vals@);
    }
    match vals[i].as_int() {
        Some(n) => Ok(n),
        None => Err(EvalError::TypeMismatch("expected integer argument")),
    }
}

/// Whether a state predicate holds of its evaluated arguments.
#[verifier::loop_isolation(false)]
pub fn eval_state(
    p: StatePred,
    args: &Vec<Value>,
    root: &BTerm,
    op: &OperationData,
    st: &Snapshot,
) -> (r: Result<bool, EvalError>)
    requires
        args@.len() >= state_pred_arity(p),
    ensures
        result_bool(r) == state_holds(p, values_view(args@), root@, op@, st@),
{
    proof {
        lemma_values_view(args@);
    }
    match p {
        StatePred::Older => match int_argument(args, 0) {
            Err(e) => Err(e),
            Ok(n) => Ok(st.blocks_since_activity as i128 >= n),
        },
        StatePred::After => match int_argument(args, 0) {
            Err(e) => Err(e),
            Ok(n) => Ok(st.height as i128 >= n),
        },
        StatePred::AmountAtMost => match operation_amount(op) {
            Err(e) => Err(e),
            Ok(a) => match int_argument(args, 0) {
                Err(e) => Err(e),
                Ok(n) => Ok(a <= n),
            },
        },
        StatePred::AmountInRange => match operation_amount(op) {
            Err(e) => Err(e),
            Ok(a) => match int_argument(args, 0) {
                Err(e) => Err(e),
                Ok(lo) => if a >= lo {
                    match int_argument(args, 1) {
                        Err(e) => Err(e),
                        Ok(hi) => Ok(a <= hi),
                    }
                } else {
                    Ok(false)
                },
            },
        },
        StatePred::AmountAtMostPct => match operation_amount(op) {
            Err(e) => Err(e),
            Ok(a) => match int_argument(args, 0) {
                Err(e) => Err(e),
                Ok(n) => Ok(a <= pct(st.balance, n)),
            },
        },
        StatePred::DestinationIs => match operation_destination(op) {
            Err(e) => Err(e),
            Ok(d) => Ok(value_eq(&d, &args[0])),
        },
        StatePred::DestinationIn => match operation_destination(op) {
            Err(e) => Err(e),
            Ok(d) => match &args[0] {
                Value::List(items) => {
                    let ghost set = values_view(items@);
                    proof {
                        lemma_values_view(items@);
                    }
                    let mut i: usize = 0;
                    while i < items.len()
                        invariant
                            i <= items@.len(),
                            set == values_view(items@),
                            set.len() == items@.len(),
                            forall|j: int| 0 <= j < items@.len() ==> #[trigger] set[j] == items@[j]@,
                            forall|j: int| 0 <= j < i ==> set[j] != d@,
                        decreases items@.len() - i,
                    {
                        if value_eq(&items[i], &d) {
                            assert(set[i as int] == d@);
                            return Ok(true);
                        }
                        i = i + 1;
                    }
                    Ok(false)
                },
                _ => Err(EvalError::TypeMismatch("destination_in expects a list")),
            },
        },
        StatePred::BalanceAtLeast => match int_argument(args, 0) {
            Err(e) => Err(e),
            Ok(n) => Ok(st.balance >= n),
        },
        StatePred::BalanceAtMost => match int_argument(args, 0) {
            Err(e) => Err(e),
            Ok(n) => Ok(st.balance <= n),
        },
        StatePred::BlocksSinceActivityAtLeast => match int_argument(args, 0) {
            Err(e) => Err(e),
            Ok(n) => Ok(st.blocks_since_activity as i128 >= n),
        },
        StatePred::BlocksSinceOpenBelow => match int_argument(args, 0) {
            Err(e) => Err(e),
            Ok(n) => Ok((st.blocks_since_open as i128) < n),
        },
        StatePred::RollingAmountBelow => match int_argument(args, 1) {
            Err(e) => Err(e),
            Ok(period) => {
                let total = st.rolling_total("amount_out", period);
                match int_argument(args, 0) {
                    Err(e) => Err(e),
                    Ok(n) => Ok(total <= n),
                }
            },
        },
        StatePred::RollingAmountBelowPct => match int_argument(args, 1) {
            Err(e) => Err(e),
            Ok(period) => {
                let total = st.rolling_total("amount_out", period);
                match int_argument(args, 0) {
                    Err(e) => Err(e),
                    Ok(n) => Ok(total <= pct(st.balance, n)),
                }
            },
        },
        StatePred::SubtreeAt => match &args[1] {
            Value::Path(path) => match root.subterm_at(path.as_slice()) {
                Some(s) => match &args[0] {
                    Value::Subtree(t) => Ok(crate::equality::term_eq(t, s)),
                    _ => Ok(false),
                },
                None => Ok(false),
            },
            _ => Err(EvalError::TypeMismatch("subtree_at expects a path")),
        },
        StatePred::BlocksSinceOpenAtLeast => match int_argument(args, 0) {
            Err(e) => Err(e),
            Ok(n) => Ok(st.blocks_since_open as i128 >= n),
        },
        StatePred::BlocksSinceReceivedAtLeast => match int_argument(args, 0) {
            Err(e) => Err(e),
            Ok(n) => Ok(st.blocks_since_received as i128 >= n),
        },
    }
}

/// The view of a verdict.
pub open spec fn result_bool(r: Result<bool, EvalError>) -> Result<bool, EvalErrorV> {
    match r {
        Ok(b) => Ok(b),
        Err(e) => Err(e@),
    }
}

/// The verdict of a comparison of two values.
fn eval_comparison(o: CmpOp, a: &Value, b: &Value) -> (r: Result<bool, EvalError>)
    ensures
        result_bool(r) == compare(o, a@, b@),
{
    match o {
        CmpOp::Eq => Ok(value_eq(a, b)),
        _ => match (a, b) {
            (Value::Int(x), Value::Int(y)) => Ok(
                match o {
                    CmpOp::Lt => *x < *y,
                    CmpOp::Le => *x <= *y,
                    CmpOp::Gt => *x > *y,
                    _ => *x >= *y,
                },
            ),
            _ => Err(EvalError::TypeMismatch("ordered comparison needs integers")),
        },
    }
}

// ---------------------------------------------------------------------------------------------
// Obligations
// ---------------------------------------------------------------------------------------------

/// The keys of a list value.
#[verifier::loop_isolation(false)]
fn keys_in(v: &Value) -> (r: Result<Vec<String>, EvalError>)
    ensures
        match r {
            Ok(ks) => keys_of(Ok(v@)) == Ok::<Seq<Seq<char>>, EvalErrorV>(texts(ks@)),
            Err(e) => keys_of(Ok(v@)) == Err::<Seq<Seq<char>>, EvalErrorV>(e@),
        },
{
    match v {
        Value::List(items) => {
            let ghost vs = values_view(items@);
            proof {
                lemma_values_view(items@);
            }
            let mut out: Vec<String> = Vec::new();
            let mut i: usize = 0;
            while i < items.len()
                invariant
                    i <= items@.len(),
                    out@.len() == i,
                    forall|j: int| 0 <= j < i ==> #[trigger] vs[j] is Key && out@[j]@ == key_text(vs[j]),
                decreases items@.len() - i,
            {
                match &items[i] {
                    Value::Key(k) => {
                        out.push(k.clone());
                    },
                    _ => {
                        assert(!(vs[i as int] is Key));
                        return Err(EvalError::TypeMismatch("key list contains a non-key"));
                    },
                }
                i = i + 1;
            }
            assert(texts(out@) =~= Seq::new(vs.len(), |j: int| key_text(vs[j])));
            Ok(out)
        },
        _ => Err(EvalError::TypeMismatch("expected a list of keys")),
    }
}

/// Whether some key of `keys` is a signer.
#[verifier::loop_isolation(false)]
fn any_signed(keys: &Vec<String>, signers: &Vec<String>) -> (r: bool)
    ensures
        r == exists|i: int| 0 <= i < keys@.len() && text_set(signers@).contains(#[trigger] texts(keys@)[i]),
{
    let mut i: usize = 0;
    while i < keys.len()
        invariant
            i <= keys@.len(),
            forall|j: int| 0 <= j < i ==> !text_set(signers@).contains(#[trigger] texts(keys@)[j]),
        decreases keys@.len() - i,
    {
        if has_text(signers, keys[i].as_str()) {
            assert(text_set(signers@).contains(texts(keys@)[i as int]));
            return true;
        }
        i = i + 1;
    }
    false
}

/// Whether `keys[i]` occurs among the keys before it.
fn seen_before(keys: &Vec<String>, i: usize) -> (r: bool)
    requires
        i < keys@.len(),
    ensures
        r == texts(keys@).take(i as int).contains(keys@[i as int]@),
{
    let ghost ks = texts(keys@).take(i as int);
    let mut j: usize = 0;
    while j < i
        invariant
            j <= i,
            i < keys@.len(),
            ks == texts(keys@).take(i as int),
            forall|m: int| 0 <= m < j ==> ks[m] != keys@[i as int]@,
        decreases i - j,
    {
        if str_equal(keys[j].as_str(), keys[i].as_str()) {
            assert(ks[j as int] == keys@[i as int]@);
            return true;
        }
        j = j + 1;
    }
    false
}

/// The number of distinct keys of `keys` that are signers.
#[verifier::loop_isolation(false)]
fn count_distinct_signed(keys: &Vec<String>, signers: &Vec<String>) -> (r: usize)
    ensures
        r == distinct_signed(texts(keys@), text_set(signers@)),
{
    let ghost ks = texts(keys@);
    let ghost signed = text_set(signers@);
    let mut count: usize = 0;
    let mut i: usize = 0;
    while i < keys.len()
        invariant
            i <= keys@.len(),
            count <= i,
            count == distinct_signed(ks.take(i as int), signed),
        decreases keys@.len() - i,
    {
        let fresh = !seen_before(keys, i);
        let signed_now = has_text(signers, keys[i].as_str());
        proof {
            assert(ks.take(i + 1).drop_last() =~= ks.take(i as int));
            assert(ks.take(i + 1).last() == keys@[i as int]@);
        }
        if signed_now && fresh {
            count = count + 1;
        }
        i = i + 1;
    }
    assert(ks.take(keys@.len() as int) =~= ks);
    count
}

/// Whether some signer's key hashes to `h`, as the verifier decides.
#[verifier::loop_isolation(false)]
fn signer_hashes_to<V: Verifier>(signers: &Vec<String>, h: &HashValue, verifier: &V) -> (r: bool)
    ensures
        r == exists|k: Seq<char>| text_set(signers@).contains(k) && host_key_hashes(verifier).contains((k, h@)),
{
    let ghost hs = host_key_hashes(verifier);
    let mut i: usize = 0;
    while i < signers.len()
        invariant
            i <= signers@.len(),
            forall|j: int| 0 <= j < i ==> !hs.contains((#[trigger] signers@[j]@, h@)),
        decreases signers@.len() - i,
    {
        if verifier.key_hashes_to(signers[i].as_str(), h) {
            assert(text_set(signers@).contains(signers@[i as int]@));
            assert(hs.contains((signers@[i as int]@, h@)));
            return true;
        }
        i = i + 1;
    }
    assert forall|k: Seq<char>| text_set(signers@).contains(k) implies !hs.contains((k, h@)) by {
        let j = choose|j: int| 0 <= j < signers@.len() && signers@[j]@ == k;
        assert(!hs.contains((signers@[j]@, h@)));
    }
    false
}

/// Whether the witness reveals a preimage that hashes to `h`.
fn preimage_opens(w: &Witness, h: &HashValue) -> (r: bool)
    ensures
        r == opens(w@.preimages, h@),
{
    match w.preimages.find(h) {
        Some(pre) => hash_matches(h, pre.as_slice()),
        None => false,
    }
}

/// Discharge an obligation against the evidence: the witness, the keys whose signatures
/// verified, and the host's key and hash matching.
pub fn verify_o<V: Verifier>(
    o: &Obligation,
    env: &Env,
    root: &BTerm,
    w: &Witness,
    signers: &Vec<String>,
    verifier: &V,
    op: &OperationData,
    st: &Snapshot,
) -> (r: Result<bool, EvalError>)
    requires
        vterm_arity_ok(obligation_arg(o@)),
    ensures
        result_bool(r) == obligation_holds(
            o@,
            ctx(env@, root@, op@, st@),
            evidence(w@, text_set(signers@), host_key_hashes(verifier)),
        ),
{
    match o {
        Obligation::Pk(v) => match eval_v(v, env, root, op, st) {
            Err(e) => Err(e),
            Ok(Value::Key(k)) => Ok(has_text(signers, k.as_str())),
            Ok(_) => Err(EvalError::TypeMismatch("expected a key")),
        },
        Obligation::PkAny(v) => match eval_v(v, env, root, op, st) {
            Err(e) => Err(e),
            Ok(val) => match keys_in(&val) {
                Err(e) => Err(e),
                Ok(keys) => Ok(any_signed(&keys, signers)),
            },
        },
        Obligation::Multi(k, v) => match eval_v(v, env, root, op, st) {
            Err(e) => Err(e),
            Ok(val) => match keys_in(&val) {
                Err(e) => Err(e),
                Ok(keys) => Ok(count_distinct_signed(&keys, signers) >= *k),
            },
        },
        Obligation::PkH(v) => match eval_v(v, env, root, op, st) {
            Err(e) => Err(e),
            Ok(Value::Hash(h)) => {
                let r = signer_hashes_to(signers, &h, verifier);
                let ghost p = evidence(w@, text_set(signers@), host_key_hashes(verifier));
                assert(p.signed == text_set(signers@) && p.key_hashes == host_key_hashes(verifier));
                Ok(r)
            },
            Ok(_) => Err(EvalError::TypeMismatch("pk_h expects a key hash")),
        },
        Obligation::Hashlock(v) => match eval_v(v, env, root, op, st) {
            Err(e) => Err(e),
            Ok(Value::Hash(h)) => Ok(preimage_opens(w, &h)),
            Ok(_) => Err(EvalError::TypeMismatch("hashlock expects a hash")),
        },
        Obligation::Attest(v, _) => match eval_v(v, env, root, op, st) {
            Err(e) => Err(e),
            Ok(Value::Key(k)) => Ok(w.attestations.contains_key(k.as_str())),
            Ok(_) => Err(EvalError::TypeMismatch("expected a key")),
        },
    }
}

// ---------------------------------------------------------------------------------------------
// Terms
// ---------------------------------------------------------------------------------------------

/// `first_arm` is the index of the first arm tagged `sym` when no earlier arm is.
proof fn lemma_first_arm(arms: Seq<(Seq<char>, BTermV)>, sym: Seq<char>, i: int)
    requires
        0 <= i <= arms.len(),
        forall|j: int| 0 <= j < i ==> arms[j].0 != sym,
        i < arms.len() ==> arms[i].0 == sym,
    ensures
        first_arm(arms, sym) == i,
    decreases i,
{
    if i > 0 {
        lemma_first_arm(arms.drop_first(), sym, i - 1);
    }
}

/// A successful evaluation of a list of value terms has one value per term.
proof fn lemma_eval_args_len(args: Seq<VTermV>, c: EvalCtx)
    ensures
        eval_args(args, c) matches Ok(vals) ==> vals.len() == args.len(),
    decreases args.len(),
{
    if args.len() > 0 {
        lemma_eval_args_len(args.drop_first(), c);
    }
}

/// The values of a list of value terms, evaluated in order.
#[verifier::loop_isolation(false)]
fn eval_arg_values(args: &Vec<VTerm>, env: &Env, root: &BTerm, op: &OperationData, st: &Snapshot) -> (r:
    Result<Vec<Value>, EvalError>)
    requires
        vterms_arity_ok(vterms_view(args@)),
    ensures
        match r {
            Ok(vals) => eval_args(vterms_view(args@), ctx(env@, root@, op@, st@)) == Ok::<
                Seq<ValueV>,
                EvalErrorV,
            >(values_view(vals@)),
            Err(e) => eval_args(vterms_view(args@), ctx(env@, root@, op@, st@)) == Err::<
                Seq<ValueV>,
                EvalErrorV,
            >(e@),
        },
{
    let ghost c = ctx(env@, root@, op@, st@);
    let ghost vs = vterms_view(args@);
    proof {
        lemma_vterms_view(args@);
        lemma_vterms_arity(vs);
    }
    let mut out: Vec<Value> = Vec::new();
    let mut i: usize = 0;
    assert(vs.skip(0) =~= vs);
    assert(values_view(out@) =~= Seq::<ValueV>::empty());
    while i < args.len()
        invariant
            i <= args@.len(),
            eval_args(vs, c) == match eval_args(vs.skip(i as int), c) {
                Err(e) => Err(e),
                Ok(rest) => Ok(values_view(out@) + rest),
            },
        decreases args@.len() - i,
    {
        assert(vs.skip(i as int).drop_first() =~= vs.skip(i + 1));
        assert(vs.skip(i as int)[0] == vs[i as int]);
        let v = match eval_v(&args[i], env, root, op, st) {
            Err(e) => {
                assert(eval_args(vs.skip(i as int), c) == Err::<Seq<ValueV>, EvalErrorV>(e@));
                return Err(e);
            },
            Ok(v) => v,
        };
        assert(eval_args(vs.skip(i as int), c) == match eval_args(vs.skip(i + 1), c) {
            Err(e) => Err(e),
            Ok(rest) => Ok(seq![v@] + rest),
        });
        let ghost before_seq = out@;
        let ghost before = values_view(out@);
        out.push(v);
        proof {
            assert(out@.drop_last() =~= before_seq);
            assert(values_view(out@) == before.push(v@));
            assert forall|rest: Seq<ValueV>|
                before + (seq![v@] + rest) == #[trigger] (values_view(out@) + rest) by {
                assert(before + (seq![v@] + rest) =~= values_view(out@) + rest);
            }
        }
        i = i + 1;
    }
    Ok(out)
}

/// The verdict of a term against explicit evidence: `signers` are the keys whose signatures
/// verified and `verifier` decides which keys hash to which hashes; preimages and attestations
/// are read from the witness.
#[verifier::loop_isolation(false)]
pub fn eval_with<V: Verifier>(
    t: &BTerm,
    env: &Env,
    root: &BTerm,
    op: &OperationData,
    st: &Snapshot,
    w: &Witness,
    signers: &Vec<String>,
    verifier: &V,
) -> (r: Result<bool, EvalError>)
    requires
        term_arity_ok(t@),
    ensures
        result_bool(r) == eval_term(
            t@,
            ctx(env@, root@, op@, st@),
            evidence(w@, text_set(signers@), host_key_hashes(verifier)),
        ),
    decreases t, 1nat,
{
    match t {
        BTerm::Const(b) => Ok(*b),
        BTerm::And(bs) => eval_conj(bs, env, root, op, st, w, signers, verifier),
        BTerm::Or(bs) => eval_disj(bs, env, root, op, st, w, signers, verifier),
        BTerm::Thresh(k, bs) => match eval_count(bs, env, root, op, st, w, signers, verifier) {
            Err(e) => Err(e),
            Ok(n) => Ok(n >= *k),
        },
        BTerm::Not(b) => match eval_with(b, env, root, op, st, w, signers, verifier) {
            Err(e) => Err(e),
            Ok(x) => Ok(!x),
        },
        BTerm::If(c, t1, e) => match eval_with(c, env, root, op, st, w, signers, verifier) {
            Err(err) => Err(err),
            Ok(true) => eval_with(t1, env, root, op, st, w, signers, verifier),
            Ok(false) => eval_with(e, env, root, op, st, w, signers, verifier),
        },
        BTerm::Match { scrutinee, arms, default } => match eval_v(scrutinee, env, root, op, st) {
            Err(e) => Err(e),
            Ok(Value::Symbol(sym)) => {
                let ghost av = arms_view(arms@);
                proof {
                    lemma_arms_view(arms@);
                    lemma_arms_arity(av);
                }
                let mut i: usize = 0;
                while i < arms.len()
                    invariant
                        i <= arms@.len(),
                        av == arms_view(arms@),
                        av.len() == arms@.len(),
                        forall|j: int| 0 <= j < arms@.len() ==> #[trigger] av[j] == (arms@[j].0@, arms@[j].1@),
                        forall|j: int| 0 <= j < arms@.len() ==> #[trigger] term_arity_ok(av[j].1),
                        forall|j: int| 0 <= j < i ==> av[j].0 != sym@,
                    decreases arms@.len() - i,
                {
                    if arms[i].0.same(&sym) {
                        proof {
                            lemma_first_arm(av, sym@, i as int);
                            assert(av[i as int].1 == arms@[i as int].1@);
                            assert(term_arity_ok(av[i as int].1));
                        }
                        return eval_with(&arms[i].1, env, root, op, st, w, signers, verifier);
                    }
                    i = i + 1;
                }
                proof {
                    lemma_first_arm(av, sym@, av.len() as int);
                }
                eval_with(default, env, root, op, st, w, signers, verifier)
            },
            Ok(_) => Err(EvalError::TypeMismatch("match scrutinee not a symbol")),
        },
        BTerm::Cmp(o, a, b) => match eval_v(a, env, root, op, st) {
            Err(e) => Err(e),
            Ok(x) => match eval_v(b, env, root, op, st) {
                Err(e) => Err(e),
                Ok(y) => eval_comparison(*o, &x, &y),
            },
        },
        BTerm::State(p, args) => match eval_arg_values(args, env, root, op, st) {
            Err(e) => Err(e),
            Ok(vals) => {
                proof {
                    lemma_eval_args_len(vterms_view(args@), ctx(env@, root@, op@, st@));
                    lemma_vterms_view(args@);
                    lemma_values_view(vals@);
                }
                eval_state(*p, &vals, root, op, st)
            },
        },
        BTerm::Prove(o) => verify_o(o, env, root, w, signers, verifier, op, st),
    }
}

/// Conjunction: stops at the first child that does not hold.
#[verifier::loop_isolation(false)]
fn eval_conj<V: Verifier>(
    bs: &Vec<BTerm>,
    env: &Env,
    root: &BTerm,
    op: &OperationData,
    st: &Snapshot,
    w: &Witness,
    signers: &Vec<String>,
    verifier: &V,
) -> (r: Result<bool, EvalError>)
    requires
        terms_arity_ok(terms_view(bs@)),
    ensures
        result_bool(r) == eval_all(
            terms_view(bs@),
            ctx(env@, root@, op@, st@),
            evidence(w@, text_set(signers@), host_key_hashes(verifier)),
        ),
    decreases bs, 0nat,
{
    let ghost c = ctx(env@, root@, op@, st@);
    let ghost p = evidence(w@, text_set(signers@), host_key_hashes(verifier));
    let ghost vs = terms_view(bs@);
    proof {
        lemma_terms_view(bs@);
        lemma_terms_arity(vs);
    }
    let mut i: usize = 0;
    assert(vs.skip(0) =~= vs);
    while i < bs.len()
        invariant
            i <= bs@.len(),
            eval_all(vs, c, p) == eval_all(vs.skip(i as int), c, p),
        decreases bs@.len() - i,
    {
        assert(vs.skip(i as int).drop_first() =~= vs.skip(i + 1));
        assert(vs.skip(i as int)[0] == vs[i as int]);
        match eval_with(&bs[i], env, root, op, st, w, signers, verifier) {
            Err(e) => return Err(e),
            Ok(false) => return Ok(false),
            Ok(true) => {},
        }
        i = i + 1;
    }
    assert(vs.skip(i as int).len() == 0);
    Ok(true)
}

/// Disjunction: stops at the first child that holds.
#[verifier::loop_isolation(false)]
fn eval_disj<V: Verifier>(
    bs: &Vec<BTerm>,
    env: &Env,
    root: &BTerm,
    op: &OperationData,
    st: &Snapshot,
    w: &Witness,
    signers: &Vec<String>,
    verifier: &V,
) -> (r: Result<bool, EvalError>)
    requires
        terms_arity_ok(terms_view(bs@)),
    ensures
        result_bool(r) == eval_any(
            terms_view(bs@),
            ctx(env@, root@, op@, st@),
            evidence(w@, text_set(signers@), host_key_hashes(verifier)),
        ),
    decreases bs, 0nat,
{
    let ghost c = ctx(env@, root@, op@, st@);
    let ghost p = evidence(w@, text_set(signers@), host_key_hashes(verifier));
    let ghost vs = terms_view(bs@);
    proof {
        lemma_terms_view(bs@);
        lemma_terms_arity(vs);
    }
    let mut i: usize = 0;
    assert(vs.skip(0) =~= vs);
    while i < bs.len()
        invariant
            i <= bs@.len(),
            eval_any(vs, c, p) == eval_any(vs.skip(i as int), c, p),
        decreases bs@.len() - i,
    {
        assert(vs.skip(i as int).drop_first() =~= vs.skip(i + 1));
        assert(vs.skip(i as int)[0] == vs[i as int]);
        match eval_with(&bs[i], env, root, op, st, w, signers, verifier) {
            Err(e) => return Err(e),
            Ok(true) => return Ok(true),
            Ok(false) => {},
        }
        i = i + 1;
    }
    assert(vs.skip(i as int).len() == 0);
    Ok(false)
}

/// The number of children that hold; every child is evaluated.
#[verifier::loop_isolation(false)]
fn eval_count<V: Verifier>(
    bs: &Vec<BTerm>,
    env: &Env,
    root: &BTerm,
    op: &OperationData,
    st: &Snapshot,
    w: &Witness,
    signers: &Vec<String>,
    verifier: &V,
) -> (r: Result<usize, EvalError>)
    requires
        terms_arity_ok(terms_view(bs@)),
    ensures
        match r {
            Ok(n) => count_true(
                terms_view(bs@),
                ctx(env@, root@, op@, st@),
                evidence(w@, text_set(signers@), host_key_hashes(verifier)),
            ) == Ok::<nat, EvalErrorV>(n as nat),
            Err(e) => count_true(
                terms_view(bs@),
                ctx(env@, root@, op@, st@),
                evidence(w@, text_set(signers@), host_key_hashes(verifier)),
            ) == Err::<nat, EvalErrorV>(e@),
        },
    decreases bs, 0nat,
{
    let ghost c = ctx(env@, root@, op@, st@);
    let ghost p = evidence(w@, text_set(signers@), host_key_hashes(verifier));
    let ghost vs = terms_view(bs@);
    proof {
        lemma_terms_view(bs@);
        lemma_terms_arity(vs);
    }
    let mut count: usize = 0;
    let mut i: usize = 0;
    assert(vs.skip(0) =~= vs);
    while i < bs.len()
        invariant
            i <= bs@.len(),
            count <= i,
            count_true(vs, c, p) == match count_true(vs.skip(i as int), c, p) {
                Err(e) => Err(e),
                Ok(n) => Ok(n + count as nat),
            },
        decreases bs@.len() - i,
    {
        assert(vs.skip(i as int).drop_first() =~= vs.skip(i + 1));
        assert(vs.skip(i as int)[0] == vs[i as int]);
        match eval_with(&bs[i], env, root, op, st, w, signers, verifier) {
            Err(e) => {
                assert(count_true(vs.skip(i as int), c, p) == Err::<nat, EvalErrorV>(e@));
                return Err(e);
            },
            Ok(x) => {
                assert(count_true(vs.skip(i as int), c, p) == match count_true(vs.skip(i + 1), c, p) {
                    Err(e) => Err(e),
                    Ok(n) => Ok(n + if x { 1nat } else { 0nat }),
                });
                if x {
                    count = count + 1;
                }
            },
        }
        i = i + 1;
    }
    assert(vs.skip(i as int).len() == 0);
    Ok(count)
}

/// Evaluate a term: the witness's signatures are checked by `verifier` over the operation's
/// signing preimage, and the term is evaluated against what was established. `root` is the
/// term that `ast_ref`, `ast_shape_at` and `subtree_at` paths address.
pub fn eval_b<V: Verifier>(
    t: &BTerm,
    env: &Env,
    root: &BTerm,
    op: &OperationData,
    st: &Snapshot,
    w: &Witness,
    verifier: &V,
) -> (r: Result<bool, EvalError>)
    requires
        term_arity_ok(t@),
    ensures
        result_bool(r) == eval_term(
            t@,
            ctx(env@, root@, op@, st@),
            host_evidence(w@, verifier, op_preimage(op@)),
        ),
{
    let message = operation_preimage(op);
    let s = signers(w, verifier, message.as_slice());
    eval_with(t, env, root, op, st, w, &s, verifier)
}

/// Evaluate a descriptor's body against its constants: [`eval_b`] with the body as the root.
pub fn evaluate<V: Verifier>(
    d: &Descriptor,
    op: &OperationData,
    st: &Snapshot,
    w: &Witness,
    verifier: &V,
) -> (r: Result<bool, EvalError>)
    requires
        term_arity_ok(d@.body),
    ensures
        result_bool(r) == eval_term(
            d@.body,
            ctx(d@.constants, d@.body, op@, st@),
            host_evidence(w@, verifier, op_preimage(op@)),
        ),
{
    eval_b(&d.body, &d.constants, &d.body, op, st, w, verifier)
}

// ---------------------------------------------------------------------------------------------
// Arity checks
// ---------------------------------------------------------------------------------------------

/// The number of arguments a value function reads.
fn valuefn_arity(f: ValueFn) -> (r: usize)
    ensures
        r == value_fn_arity(f),
{
    match f {
        ValueFn::Add | ValueFn::Sub | ValueFn::Mul | ValueFn::Div | ValueFn::Min | ValueFn::Max
        | ValueFn::Pct | ValueFn::Bps | ValueFn::RollingWindow => 2,
        ValueFn::OperationArg | ValueFn::CumulativeSpentVia | ValueFn::AstRef
        | ValueFn::AstShapeAt => 1,
        _ => 0,
    }
}

/// The number of arguments a state predicate reads.
fn statepred_arity(p: StatePred) -> (r: usize)
    ensures
        r == state_pred_arity(p),
{
    match p {
        StatePred::AmountInRange | StatePred::RollingAmountBelow | StatePred::RollingAmountBelowPct
        | StatePred::SubtreeAt => 2,
        _ => 1,
    }
}

/// Whether every value function in a value term has the arguments it reads.
#[verifier::spinoff_prover]
pub fn vterm_well_applied(t: &VTerm) -> (r: bool)
    ensures
        r == vterm_arity_ok(t@),
    decreases t, 1nat,
{
    match t {
        VTerm::Op(f, args) => args.len() >= valuefn_arity(*f) && vterms_well_applied(args),
        _ => true,
    }
}

/// Whether every value term of a list has the arguments it reads.
#[verifier::spinoff_prover]
fn vterms_well_applied(s: &Vec<VTerm>) -> (r: bool)
    ensures
        r == vterms_arity_ok(vterms_view(s@)),
    decreases s, 0nat,
{
    let ghost vs = vterms_view(s@);
    proof {
        lemma_vterms_view(s@);
        lemma_vterms_arity(vs);
    }
    let mut i: usize = 0;
    while i < s.len()
        invariant
            i <= s@.len(),
            vs == vterms_view(s@),
            vs.len() == s@.len(),
            forall|j: int| 0 <= j < s@.len() ==> #[trigger] vs[j] == s@[j]@,
            forall|j: int| 0 <= j < i ==> vterm_arity_ok(#[trigger] vs[j]),
            vterms_arity_ok(vs) == forall|j: int| 0 <= j < vs.len() ==> #[trigger] vterm_arity_ok(vs[j]),
        decreases s@.len() - i,
    {
        if !vterm_well_applied(&s[i]) {
            assert(!vterm_arity_ok(vs[i as int]));
            return false;
        }
        i = i + 1;
    }
    true
}

/// Whether every term of a list has the arguments it reads.
fn terms_well_applied(s: &Vec<BTerm>) -> (r: bool)
    ensures
        r == terms_arity_ok(terms_view(s@)),
    decreases s, 0nat,
{
    let ghost vs = terms_view(s@);
    proof {
        lemma_terms_view(s@);
        lemma_terms_arity(vs);
    }
    let mut i: usize = 0;
    while i < s.len()
        invariant
            i <= s@.len(),
            vs == terms_view(s@),
            vs.len() == s@.len(),
            forall|j: int| 0 <= j < s@.len() ==> #[trigger] vs[j] == s@[j]@,
            forall|j: int| 0 <= j < i ==> term_arity_ok(#[trigger] vs[j]),
            terms_arity_ok(vs) == forall|j: int| 0 <= j < vs.len() ==> #[trigger] term_arity_ok(vs[j]),
        decreases s@.len() - i,
    {
        if !well_applied(&s[i]) {
            assert(!term_arity_ok(vs[i as int]));
            return false;
        }
        i = i + 1;
    }
    true
}

/// Whether every arm body of a list has the arguments it reads.
fn arms_well_applied(s: &Vec<(Symbol, BTerm)>) -> (r: bool)
    ensures
        r == arms_arity_ok(arms_view(s@)),
    decreases s, 0nat,
{
    let ghost vs = arms_view(s@);
    proof {
        lemma_arms_view(s@);
        lemma_arms_arity(vs);
    }
    let mut i: usize = 0;
    while i < s.len()
        invariant
            i <= s@.len(),
            vs == arms_view(s@),
            vs.len() == s@.len(),
            forall|j: int| 0 <= j < s@.len() ==> #[trigger] vs[j] == (s@[j].0@, s@[j].1@),
            forall|j: int| 0 <= j < i ==> term_arity_ok(#[trigger] vs[j].1),
            arms_arity_ok(vs) == forall|j: int| 0 <= j < vs.len() ==> #[trigger] term_arity_ok(vs[j].1),
        decreases s@.len() - i,
    {
        if !well_applied(&s[i].1) {
            assert(!term_arity_ok(vs[i as int].1));
            return false;
        }
        i = i + 1;
    }
    true
}

/// Whether the value term of an obligation has the arguments it reads.
fn obligation_well_applied(o: &Obligation) -> (r: bool)
    ensures
        r == vterm_arity_ok(obligation_arg(o@)),
{
    match o {
        Obligation::Pk(v) => vterm_well_applied(v),
        Obligation::PkH(v) => vterm_well_applied(v),
        Obligation::PkAny(v) => vterm_well_applied(v),
        Obligation::Multi(_, v) => vterm_well_applied(v),
        Obligation::Hashlock(v) => vterm_well_applied(v),
        Obligation::Attest(v, _) => vterm_well_applied(v),
    }
}

/// Whether every value function and state predicate in a term has the arguments it reads: the
/// terms the evaluator is defined on.
pub fn well_applied(t: &BTerm) -> (r: bool)
    ensures
        r == term_arity_ok(t@),
    decreases t, 1nat,
{
    match t {
        BTerm::Const(_) => true,
        BTerm::And(bs) => terms_well_applied(bs),
        BTerm::Or(bs) => terms_well_applied(bs),
        BTerm::Thresh(_, bs) => terms_well_applied(bs),
        BTerm::Not(b) => well_applied(b),
        BTerm::If(c, t1, e) => {
            let a = well_applied(c);
            let b = well_applied(t1);
            let d = well_applied(e);
            assert((a && b && d) == term_arity_ok(t@));
            a && b && d
        },
        BTerm::Match { scrutinee, arms, default } => {
            let a = vterm_well_applied(scrutinee);
            let b = arms_well_applied(arms);
            let c = well_applied(default);
            assert((a && b && c) == term_arity_ok(t@));
            a && b && c
        },
        BTerm::Cmp(_, a, b) => vterm_well_applied(a) && vterm_well_applied(b),
        BTerm::State(p, args) => {
            proof {
                lemma_vterms_view(args@);
            }
            args.len() >= statepred_arity(*p) && vterms_well_applied(args)
        },
        BTerm::Prove(o) => {
            let r = obligation_well_applied(o);
            assert(r == term_arity_ok(t@));
            r
        },
    }
}


/// A state predicate applied to integer literals.
pub open spec fn predicate_on(pr: StatePred, ns: Seq<i128>) -> BTermV {
    BTermV::State(pr, Seq::new(ns.len(), |i: int| VTermV::Lit(ValueV::Int(ns[i]))))
}

proof fn lemma_int_literals(ns: Seq<i128>, c: EvalCtx)
    ensures
        eval_args(Seq::new(ns.len(), |i: int| VTermV::Lit(ValueV::Int(ns[i]))), c) == Ok::<
            Seq<ValueV>,
            EvalErrorV,
        >(Seq::new(ns.len(), |i: int| ValueV::Int(ns[i]))),
    decreases ns.len(),
{
    let args = Seq::new(ns.len(), |i: int| VTermV::Lit(ValueV::Int(ns[i])));
    if ns.len() > 0 {
        lemma_int_literals(ns.drop_first(), c);
        assert(args.drop_first() =~= Seq::new(
            ns.drop_first().len(),
            |i: int| VTermV::Lit(ValueV::Int(ns.drop_first()[i])),
        ));
        assert(seq![ValueV::Int(ns[0])] + Seq::new(ns.drop_first().len(), |i: int| ValueV::Int(ns.drop_first()[i]))
            =~= Seq::new(ns.len(), |i: int| ValueV::Int(ns[i])));
        let rest = Seq::new(ns.drop_first().len(), |i: int| ValueV::Int(ns.drop_first()[i]));
        assert(eval_value(args[0], c) == Ok::<ValueV, EvalErrorV>(ValueV::Int(ns[0])));
        assert(eval_args(args, c) == Ok::<Seq<ValueV>, EvalErrorV>(seq![ValueV::Int(ns[0])] + rest));
    } else {
        assert(args.len() == 0);
        assert(Seq::new(ns.len(), |i: int| ValueV::Int(ns[i])) =~= Seq::<ValueV>::empty());
    }
}

/// The snapshot predicates on integer literals mean what their names say, whatever the
/// operation and the witness: `balance_at_most(n)` holds exactly when the balance is at most
/// `n`, `balance_at_least(n)` when it is at least `n`, `older(n)` when at least `n` blocks have
/// passed since the last activity, `after(n)` when the height is at least `n`, and so on for the
/// block counts since opening and since the last receipt.
pub proof fn lemma_snapshot_predicates(n: i128, c: EvalCtx, p: Evidence)
    ensures
        eval_term(predicate_on(StatePred::BalanceAtMost, seq![n]), c, p) == Ok::<bool, EvalErrorV>(
            c.st.balance <= n,
        ),
        eval_term(predicate_on(StatePred::BalanceAtLeast, seq![n]), c, p) == Ok::<bool, EvalErrorV>(
            c.st.balance >= n,
        ),
        eval_term(predicate_on(StatePred::Older, seq![n]), c, p) == Ok::<bool, EvalErrorV>(
            c.st.blocks_since_activity >= n,
        ),
        eval_term(predicate_on(StatePred::BlocksSinceActivityAtLeast, seq![n]), c, p) == Ok::<
            bool,
            EvalErrorV,
        >(c.st.blocks_since_activity >= n),
        eval_term(predicate_on(StatePred::After, seq![n]), c, p) == Ok::<bool, EvalErrorV>(
            c.st.height >= n,
        ),
        eval_term(predicate_on(StatePred::BlocksSinceOpenBelow, seq![n]), c, p) == Ok::<bool, EvalErrorV>(
            c.st.blocks_since_open < n,
        ),
        eval_term(predicate_on(StatePred::BlocksSinceOpenAtLeast, seq![n]), c, p) == Ok::<
            bool,
            EvalErrorV,
        >(c.st.blocks_since_open >= n),
        eval_term(predicate_on(StatePred::BlocksSinceReceivedAtLeast, seq![n]), c, p) == Ok::<
            bool,
            EvalErrorV,
        >(c.st.blocks_since_received >= n),
{
    lemma_int_literals(seq![n], c);
}

/// The amount predicates on integer literals, for an operation whose `amount` is `a`:
/// `amount_at_most(n)` holds exactly when `a <= n`, and `amount_in_range(lo, hi)` exactly when
/// `lo <= a <= hi`.
pub proof fn lemma_amount_predicates(n: i128, lo: i128, hi: i128, a: i128, c: EvalCtx, p: Evidence)
    requires
        lookup(c.op.args, "amount"@) == Some(ValueV::Int(a)),
    ensures
        eval_term(predicate_on(StatePred::AmountAtMost, seq![n]), c, p) == Ok::<bool, EvalErrorV>(a <= n),
        eval_term(predicate_on(StatePred::AmountInRange, seq![lo, hi]), c, p) == Ok::<bool, EvalErrorV>(
            lo <= a <= hi,
        ),
{
    lemma_int_literals(seq![n], c);
    lemma_int_literals(seq![lo, hi], c);
}


/// A comparison of two integer literals holds exactly when the integers stand in the relation
/// the operator names: `=`, `<`, `<=`, `>`, `>=`.
pub proof fn lemma_comparisons(x: i128, y: i128, c: EvalCtx, p: Evidence)
    ensures
        eval_term(BTermV::Cmp(CmpOp::Eq, VTermV::Lit(ValueV::Int(x)), VTermV::Lit(ValueV::Int(y))), c, p)
            == Ok::<bool, EvalErrorV>(x == y),
        eval_term(BTermV::Cmp(CmpOp::Lt, VTermV::Lit(ValueV::Int(x)), VTermV::Lit(ValueV::Int(y))), c, p)
            == Ok::<bool, EvalErrorV>(x < y),
        eval_term(BTermV::Cmp(CmpOp::Le, VTermV::Lit(ValueV::Int(x)), VTermV::Lit(ValueV::Int(y))), c, p)
            == Ok::<bool, EvalErrorV>(x <= y),
        eval_term(BTermV::Cmp(CmpOp::Gt, VTermV::Lit(ValueV::Int(x)), VTermV::Lit(ValueV::Int(y))), c, p)
            == Ok::<bool, EvalErrorV>(x > y),
        eval_term(BTermV::Cmp(CmpOp::Ge, VTermV::Lit(ValueV::Int(x)), VTermV::Lit(ValueV::Int(y))), c, p)
            == Ok::<bool, EvalErrorV>(x >= y),
{
}

/// The arithmetic value functions on integer literals: where the exact result fits, `add`,
/// `sub` and `mul` give the sum, difference and product, and `min` and `max` always give the
/// smaller and the larger argument.
pub proof fn lemma_arithmetic(x: i128, y: i128, c: EvalCtx)
    ensures
        i128::MIN <= x + y <= i128::MAX ==> eval_value(
            VTermV::Op(ValueFn::Add, seq![VTermV::Lit(ValueV::Int(x)), VTermV::Lit(ValueV::Int(y))]),
            c,
        ) == Ok::<ValueV, EvalErrorV>(ValueV::Int((x + y) as i128)),
        i128::MIN <= x - y <= i128::MAX ==> eval_value(
            VTermV::Op(ValueFn::Sub, seq![VTermV::Lit(ValueV::Int(x)), VTermV::Lit(ValueV::Int(y))]),
            c,
        ) == Ok::<ValueV, EvalErrorV>(ValueV::Int((x - y) as i128)),
        i128::MIN <= x * y <= i128::MAX ==> eval_value(
            VTermV::Op(ValueFn::Mul, seq![VTermV::Lit(ValueV::Int(x)), VTermV::Lit(ValueV::Int(y))]),
            c,
        ) == Ok::<ValueV, EvalErrorV>(ValueV::Int((x * y) as i128)),
        eval_value(
            VTermV::Op(ValueFn::Min, seq![VTermV::Lit(ValueV::Int(x)), VTermV::Lit(ValueV::Int(y))]),
            c,
        ) matches Ok(ValueV::Int(m)) && m <= x && m <= y && (m == x || m == y),
        eval_value(
            VTermV::Op(ValueFn::Max, seq![VTermV::Lit(ValueV::Int(x)), VTermV::Lit(ValueV::Int(y))]),
            c,
        ) matches Ok(ValueV::Int(m)) && m >= x && m >= y && (m == x || m == y),
{
    let args = seq![VTermV::Lit(ValueV::Int(x)), VTermV::Lit(ValueV::Int(y))];
    assert(int_pair(args, c) == Ok::<(i128, i128), EvalErrorV>((x, y)));
}

/// The key obligations on a key literal: `pk(k)` holds exactly when a signature by `k` over the
/// operation verified, and `attest(k, _)` exactly when `k` supplied an attestation.
pub proof fn lemma_key_obligations(k: Seq<char>, sc: Schema, c: EvalCtx, p: Evidence)
    ensures
        eval_term(BTermV::Prove(ObligationV::Pk(VTermV::Lit(ValueV::Key(k)))), c, p) == Ok::<bool, EvalErrorV>(
            p.signed.contains(k),
        ),
        eval_term(BTermV::Prove(ObligationV::Attest(VTermV::Lit(ValueV::Key(k)), sc)), c, p) == Ok::<
            bool,
            EvalErrorV,
        >(p.attested.contains(k)),
{
}

/// A `match` takes the first arm whose tag is the scrutinee's symbol: where arm `i` carries the
/// tag and no earlier arm does, the verdict is that of arm `i`'s body; where no arm carries it,
/// the verdict is the default's.
pub proof fn lemma_match_first_arm(
    sym: Seq<char>,
    arms: Seq<(Seq<char>, BTermV)>,
    dflt: BTermV,
    i: int,
    c: EvalCtx,
    p: Evidence,
)
    ensures
        0 <= i < arms.len() && arms[i].0 == sym && (forall|j: int| 0 <= j < i ==> arms[j].0 != sym)
            ==> eval_term(
            BTermV::Match(VTermV::Lit(ValueV::Symbol(sym)), arms, Box::new(dflt)),
            c,
            p,
        ) == eval_term(arms[i].1, c, p),
        (forall|j: int| 0 <= j < arms.len() ==> arms[j].0 != sym) ==> eval_term(
            BTermV::Match(VTermV::Lit(ValueV::Symbol(sym)), arms, Box::new(dflt)),
            c,
            p,
        ) == eval_term(dflt, c, p),
{
    if 0 <= i < arms.len() && arms[i].0 == sym && (forall|j: int| 0 <= j < i ==> arms[j].0 != sym) {
        lemma_first_arm_at(arms, sym, i);
    }
    if forall|j: int| 0 <= j < arms.len() ==> arms[j].0 != sym {
        lemma_first_arm_none(arms, sym);
    }
}

proof fn lemma_first_arm_at(arms: Seq<(Seq<char>, BTermV)>, sym: Seq<char>, i: int)
    requires
        0 <= i < arms.len(),
        arms[i].0 == sym,
        forall|j: int| 0 <= j < i ==> arms[j].0 != sym,
    ensures
        first_arm(arms, sym) == i,
    decreases arms.len(),
{
    if i > 0 {
        assert(arms[0].0 != sym);
        let rest = arms.drop_first();
        assert forall|j: int| 0 <= j < i - 1 implies rest[j].0 != sym by {
            assert(rest[j] == arms[j + 1]);
        }
        lemma_first_arm_at(rest, sym, i - 1);
    }
}

proof fn lemma_first_arm_none(arms: Seq<(Seq<char>, BTermV)>, sym: Seq<char>)
    requires
        forall|j: int| 0 <= j < arms.len() ==> arms[j].0 != sym,
    ensures
        first_arm(arms, sym) == arms.len(),
    decreases arms.len(),
{
    if arms.len() > 0 {
        let rest = arms.drop_first();
        assert(arms[0].0 != sym);
        assert forall|j: int| 0 <= j < rest.len() implies rest[j].0 != sym by {
            assert(rest[j] == arms[j + 1]);
        }
        lemma_first_arm_none(rest, sym);
    }
}


/// The value functions that read the snapshot or the operation give what their names say:
/// `deposit_balance()` the balance, `blocks_since_activity()`, `blocks_since_open()` and
/// `blocks_since_received()` the block counts, `operation_type()` the operation's type, and
/// `operation_arg(n)` the operation's argument named `n`, where it has one.
pub proof fn lemma_reading_functions(name: Seq<char>, c: EvalCtx)
    ensures
        eval_value(VTermV::Op(ValueFn::DepositBalance, seq![]), c) == Ok::<ValueV, EvalErrorV>(
            ValueV::Int(c.st.balance),
        ),
        eval_value(VTermV::Op(ValueFn::BlocksSinceActivity, seq![]), c) == Ok::<ValueV, EvalErrorV>(
            ValueV::Int(c.st.blocks_since_activity as i128),
        ),
        eval_value(VTermV::Op(ValueFn::BlocksSinceOpen, seq![]), c) == Ok::<ValueV, EvalErrorV>(
            ValueV::Int(c.st.blocks_since_open as i128),
        ),
        eval_value(VTermV::Op(ValueFn::BlocksSinceReceived, seq![]), c) == Ok::<ValueV, EvalErrorV>(
            ValueV::Int(c.st.blocks_since_received as i128),
        ),
        eval_value(VTermV::Op(ValueFn::OperationType, seq![]), c) == Ok::<ValueV, EvalErrorV>(
            ValueV::Symbol(c.op.op_type),
        ),
        lookup(c.op.args, name) is Some ==> eval_value(
            VTermV::Op(ValueFn::OperationArg, seq![VTermV::Lit(ValueV::Symbol(name))]),
            c,
        ) == Ok::<ValueV, EvalErrorV>(lookup(c.op.args, name)->Some_0),
{
    let args = seq![VTermV::Lit(ValueV::Symbol(name))];
    assert(args[0] == VTermV::Lit(ValueV::Symbol(name)));
    assert(eval_value(args[0], c) == Ok::<ValueV, EvalErrorV>(ValueV::Symbol(name)));
    assert(eval_value(VTermV::Op(ValueFn::OperationArg, args), c) == apply_fn(ValueFn::OperationArg, args, c));
}

/// The hash and key-list obligations on literals: `hashlock(h)` holds exactly when the witness
/// opened `h`, `pk_h(h)` exactly when some key that signed hashes to `h`, and `pk_any(ks)`
/// exactly when some key of the list signed.
pub proof fn lemma_other_obligations(h: HashV, ks: Seq<Seq<char>>, c: EvalCtx, p: Evidence)
    ensures
        eval_term(BTermV::Prove(ObligationV::Hashlock(VTermV::Lit(ValueV::Hash(h)))), c, p) == Ok::<
            bool,
            EvalErrorV,
        >(p.opened.contains(h)),
        eval_term(BTermV::Prove(ObligationV::PkH(VTermV::Lit(ValueV::Hash(h)))), c, p) == Ok::<
            bool,
            EvalErrorV,
        >(exists|k: Seq<char>| p.signed.contains(k) && p.key_hashes.contains((k, h))),
        eval_term(
            BTermV::Prove(
                ObligationV::PkAny(
                    VTermV::Lit(ValueV::List(Seq::new(ks.len(), |i: int| ValueV::Key(ks[i])))),
                ),
            ),
            c,
            p,
        ) == Ok::<bool, EvalErrorV>(exists|i: int| 0 <= i < ks.len() && p.signed.contains(ks[i])),
{
    let items = Seq::new(ks.len(), |i: int| ValueV::Key(ks[i]));
    assert(Seq::new(items.len(), |i: int| key_text(items[i])) =~= ks);
}

/// The operation predicates on literals, for an operation whose `amount` is `a` and whose
/// `destination` is `dst`: `amount_at_most_pct(n)` holds exactly when `a` is at most `n`
/// percent of the balance, `destination_is(x)` exactly when `dst` is `x`, and
/// `destination_in(xs)` exactly when `dst` is one of `xs`.
pub proof fn lemma_operation_predicates(
    n: i128,
    a: i128,
    dst: ValueV,
    x: ValueV,
    xs: Seq<ValueV>,
    c: EvalCtx,
    p: Evidence,
)
    requires
        lookup(c.op.args, "amount"@) == Some(ValueV::Int(a)),
        lookup(c.op.args, "destination"@) == Some(dst),
    ensures
        eval_term(predicate_on(StatePred::AmountAtMostPct, seq![n]), c, p) == Ok::<bool, EvalErrorV>(
            a <= pct_of(c.st.balance, n),
        ),
        eval_term(BTermV::State(StatePred::DestinationIs, seq![VTermV::Lit(x)]), c, p) == Ok::<
            bool,
            EvalErrorV,
        >(dst == x),
        eval_term(BTermV::State(StatePred::DestinationIn, seq![VTermV::Lit(ValueV::List(xs))]), c, p)
            == Ok::<bool, EvalErrorV>(xs.contains(dst)),
{
    lemma_int_literals(seq![n], c);
    assert(seq![VTermV::Lit(x)].drop_first() =~= Seq::<VTermV>::empty());
    assert(eval_args(Seq::<VTermV>::empty(), c) == Ok::<Seq<ValueV>, EvalErrorV>(Seq::empty()));
    assert(eval_args(seq![VTermV::Lit(x)], c) == Ok::<Seq<ValueV>, EvalErrorV>(seq![x] + Seq::empty()));
    assert(seq![x] + Seq::<ValueV>::empty() =~= seq![x]);
    assert(seq![VTermV::Lit(ValueV::List(xs))].drop_first() =~= Seq::<VTermV>::empty());
    assert(eval_args(seq![VTermV::Lit(ValueV::List(xs))], c) == Ok::<Seq<ValueV>, EvalErrorV>(
        seq![ValueV::List(xs)] + Seq::empty(),
    ));
    assert(seq![ValueV::List(xs)] + Seq::<ValueV>::empty() =~= seq![ValueV::List(xs)]);
}


/// `true` and `false` are verdicts of their own; `not` inverts the verdict of its term; `if`
/// takes the verdict of its second term where the condition holds and of its third where it
/// does not.
pub proof fn lemma_not_and_if(b: BTermV, cond: BTermV, t1: BTermV, e: BTermV, c: EvalCtx, p: Evidence)
    ensures
        eval_term(BTermV::Const(true), c, p) == Ok::<bool, EvalErrorV>(true),
        eval_term(BTermV::Const(false), c, p) == Ok::<bool, EvalErrorV>(false),
        eval_term(b, c, p) matches Ok(x) ==> eval_term(BTermV::Not(Box::new(b)), c, p) == Ok::<
            bool,
            EvalErrorV,
        >(!x),
        eval_term(cond, c, p) == Ok::<bool, EvalErrorV>(true) ==> eval_term(
            BTermV::If(Box::new(cond), Box::new(t1), Box::new(e)),
            c,
            p,
        ) == eval_term(t1, c, p),
        eval_term(cond, c, p) == Ok::<bool, EvalErrorV>(false) ==> eval_term(
            BTermV::If(Box::new(cond), Box::new(t1), Box::new(e)),
            c,
            p,
        ) == eval_term(e, c, p),
{
}

} // verus!
