//! Admission: the static checks a descriptor must pass before the protocol evaluates against
//! it, at deposit-open and after each modification.
//!
//! 1. Polarity: every proof obligation occurs in positive position. Negation poisons rather than
//!    flips parity, so an obligation under any `not`, or in an `if` condition, is rejected. This
//!    is what makes acceptance monotone in the witness.
//! 2. Capability: every value function, state predicate and obligation form is in the
//!    operator's declared set.
//! 3. Resolution: every `with(...)` reference is bound.
//! 4. Sorts: no position holds a literal or constant of a kind other than the one it is read
//!    as (an integer for a side of an ordered comparison, an arithmetic operand or a state
//!    predicate's integer argument, a symbol for a `match` scrutinee, a key, hash or key list
//!    for an obligation's argument).
//!
//! After admission no constant is unresolved, and a body that reads nothing from the operation
//! but its type, built from literals, constants and arithmetic, always evaluates to a verdict.
//! Outside that fragment evaluation can still fail on what only evaluation sees: an operation
//! without the `amount` a predicate reads, a path that addresses no subterm.
//!
//! The body's depth is bounded by [`MAX_DEPTH`] as well.
use vstd::prelude::*;

use crate::ast::{
    BTerm, BTermV, Obligation, ObligationV, VTerm, VTermV, Value, ValueV, arms_view, group_views,
    lemma_arms_view, lemma_terms_view, lemma_values_view, lemma_vterms_view, terms_view,
    values_view, vterms_view,
};
use crate::capability::{CapabilitySet, CapabilitySetV, ObligationKind, obligation_kind};
use crate::descriptor::{Descriptor, DescriptorV, Env};
use crate::eval::{
    Evidence, EvalCtx, EvalErrorV, ctx, eval_args, state_holds, state_pred_arity, eval_term, eval_value, first_arm, int_pair,
    lemma_connectives, obligation_arg,
};
use crate::host::OperationV;
use crate::snapshot::SnapshotV;
use crate::limits::MAX_DEPTH;
use crate::maps::lookup;
use crate::registry::{CmpOp, StatePred, ValueFn};
use crate::tree::{subterm_at, term_children, term_depth};

verus! {

broadcast use group_views;

/// A reason a descriptor was not admitted.
#[derive(Clone, PartialEq, Eq, Debug)]
pub enum AdmissionError {
    /// A proof obligation appears under `not` or in an `if` condition.
    NegativeProof,
    /// A value function the descriptor uses is not in the capability set.
    UncapableValueFn(ValueFn),
    /// A state predicate the descriptor uses is not in the capability set.
    UncapableStatePred(StatePred),
    /// An obligation form the descriptor uses is not in the capability set.
    UncapableObligation(ObligationKind),
    /// A `with(...)` reference that is not bound.
    UnresolvedVar(String),
    /// The descriptor's body is deeper than [`MAX_DEPTH`].
    TooDeep,
    /// A position holds a literal or constant of a kind other than the one it is read as.
    SortMismatch,
}

/// The view of an [`AdmissionError`].
pub enum AdmissionErrorV {
    NegativeProof,
    UncapableValueFn(ValueFn),
    UncapableStatePred(StatePred),
    UncapableObligation(ObligationKind),
    UnresolvedVar(Seq<char>),
    TooDeep,
    SortMismatch,
}

impl View for AdmissionError {
    type V = AdmissionErrorV;

    open spec fn view(&self) -> AdmissionErrorV {
        match self {
            AdmissionError::NegativeProof => AdmissionErrorV::NegativeProof,
            AdmissionError::UncapableValueFn(f) => AdmissionErrorV::UncapableValueFn(*f),
            AdmissionError::UncapableStatePred(p) => AdmissionErrorV::UncapableStatePred(*p),
            AdmissionError::UncapableObligation(o) => AdmissionErrorV::UncapableObligation(*o),
            AdmissionError::UnresolvedVar(n) => AdmissionErrorV::UnresolvedVar(n@),
            AdmissionError::TooDeep => AdmissionErrorV::TooDeep,
            AdmissionError::SortMismatch => AdmissionErrorV::SortMismatch,
        }
    }
}

/// The view of a check's outcome: `None` when it passed, else the reason it failed.
pub open spec fn outcome(r: Result<(), AdmissionError>) -> Option<AdmissionErrorV> {
    match r {
        Ok(()) => None,
        Err(e) => Some(e@),
    }
}

// ---------------------------------------------------------------------------------------------
// Polarity
// ---------------------------------------------------------------------------------------------

/// Whether every proof obligation in `t` occurs in positive position, when `t` itself stands in
/// a context of polarity `positive`.
pub open spec fn polarity_ok(t: BTermV, positive: bool) -> bool
    decreases t,
{
    match t {
        BTermV::Prove(_) => positive,
        BTermV::Not(b) => polarity_ok(*b, false),
        BTermV::If(c, t1, e) => polarity_ok(*c, false) && polarity_ok(*t1, positive) && polarity_ok(
            *e,
            positive,
        ),
        BTermV::And(bs) => polarity_all(bs, positive),
        BTermV::Or(bs) => polarity_all(bs, positive),
        BTermV::Thresh(_, bs) => polarity_all(bs, positive),
        BTermV::Match(_, arms, d) => polarity_arms(arms, positive) && polarity_ok(*d, positive),
        _ => true,
    }
}

/// [`polarity_ok`] for every term of a list.
pub open spec fn polarity_all(bs: Seq<BTermV>, positive: bool) -> bool
    decreases bs,
{
    if bs.len() == 0 {
        true
    } else {
        polarity_ok(bs[0], positive) && polarity_all(bs.drop_first(), positive)
    }
}

/// [`polarity_ok`] for every arm body of a list.
pub open spec fn polarity_arms(arms: Seq<(Seq<char>, BTermV)>, positive: bool) -> bool
    decreases arms,
{
    if arms.len() == 0 {
        true
    } else {
        polarity_ok(arms[0].1, positive) && polarity_arms(arms.drop_first(), positive)
    }
}

/// Check the polarity rule alone: every `prove` occurs in positive position. `positive` is the
/// polarity of the context enclosing `t`.
#[verifier::loop_isolation(false)]
pub fn check_polarity(t: &BTerm, positive: bool) -> (r: Result<(), AdmissionError>)
    ensures
        outcome(r) == if polarity_ok(t@, positive) {
            None
        } else {
            Some(AdmissionErrorV::NegativeProof)
        },
    decreases t,
{
    match t {
        BTerm::Prove(_) => if positive {
            Ok(())
        } else {
            Err(AdmissionError::NegativeProof)
        },
        BTerm::Not(b) => check_polarity(b, false),
        BTerm::If(c, t1, e) => {
            match check_polarity(c, false) {
                Err(err) => return Err(err),
                Ok(()) => {},
            }
            match check_polarity(t1, positive) {
                Err(err) => return Err(err),
                Ok(()) => {},
            }
            check_polarity(e, positive)
        },
        BTerm::And(bs) | BTerm::Or(bs) | BTerm::Thresh(_, bs) => {
            let ghost vs = terms_view(bs@);
            proof {
                lemma_terms_view(bs@);
            }
            let mut i: usize = 0;
            assert(vs.skip(0) =~= vs);
            while i < bs.len()
                invariant
                    i <= bs@.len(),
                    vs == terms_view(bs@),
                    vs.len() == bs@.len(),
                    forall|j: int| 0 <= j < bs@.len() ==> #[trigger] vs[j] == bs@[j]@,
                    polarity_all(vs, positive) == polarity_all(vs.skip(i as int), positive),
                decreases bs@.len() - i,
            {
                assert(vs.skip(i as int).drop_first() =~= vs.skip(i + 1));
                assert(vs.skip(i as int)[0] == vs[i as int]);
                match check_polarity(&bs[i], positive) {
                    Err(err) => return Err(err),
                    Ok(()) => {},
                }
                i = i + 1;
            }
            assert(vs.skip(i as int).len() == 0);
            Ok(())
        },
        BTerm::Match { arms, default, .. } => {
            let ghost av = arms_view(arms@);
            proof {
                lemma_arms_view(arms@);
            }
            let mut i: usize = 0;
            assert(av.skip(0) =~= av);
            while i < arms.len()
                invariant
                    i <= arms@.len(),
                    av == arms_view(arms@),
                    av.len() == arms@.len(),
                    forall|j: int| 0 <= j < arms@.len() ==> #[trigger] av[j] == (arms@[j].0@, arms@[j].1@),
                    polarity_arms(av, positive) == polarity_arms(av.skip(i as int), positive),
                decreases arms@.len() - i,
            {
                assert(av.skip(i as int).drop_first() =~= av.skip(i + 1));
                assert(av.skip(i as int)[0] == av[i as int]);
                match check_polarity(&arms[i].1, positive) {
                    Err(err) => return Err(err),
                    Ok(()) => {},
                }
                i = i + 1;
            }
            assert(av.skip(i as int).len() == 0);
            check_polarity(default, positive)
        },
        _ => Ok(()),
    }
}

// ---------------------------------------------------------------------------------------------
// Capability and resolution
// ---------------------------------------------------------------------------------------------

/// The first of two check outcomes that failed.
pub open spec fn first_failure(a: Option<AdmissionErrorV>, b: Option<AdmissionErrorV>) -> Option<
    AdmissionErrorV,
> {
    if a is Some {
        a
    } else {
        b
    }
}

/// The first capability or resolution failure in a value term, in left-to-right order.
pub open spec fn check_value_term(
    t: VTermV,
    caps: CapabilitySetV,
    env: Seq<(Seq<char>, ValueV)>,
) -> Option<AdmissionErrorV>
    decreases t,
{
    match t {
        VTermV::Lit(_) => None,
        VTermV::Var(n) => if lookup(env, n) is Some {
            None
        } else {
            Some(AdmissionErrorV::UnresolvedVar(n))
        },
        VTermV::Op(f, args) => if !caps.value_fns.contains(f) {
            Some(AdmissionErrorV::UncapableValueFn(f))
        } else {
            check_value_terms(args, caps, env)
        },
    }
}

/// The first failure among a list of value terms.
pub open spec fn check_value_terms(
    s: Seq<VTermV>,
    caps: CapabilitySetV,
    env: Seq<(Seq<char>, ValueV)>,
) -> Option<AdmissionErrorV>
    decreases s,
{
    if s.len() == 0 {
        None
    } else {
        first_failure(check_value_term(s[0], caps, env), check_value_terms(s.drop_first(), caps, env))
    }
}

/// The first capability or resolution failure in a term, in left-to-right order.
pub open spec fn check_term(t: BTermV, caps: CapabilitySetV, env: Seq<(Seq<char>, ValueV)>) -> Option<
    AdmissionErrorV,
>
    decreases t,
{
    match t {
        BTermV::Const(_) => None,
        BTermV::And(bs) => check_terms(bs, caps, env),
        BTermV::Or(bs) => check_terms(bs, caps, env),
        BTermV::Thresh(_, bs) => check_terms(bs, caps, env),
        BTermV::Not(b) => check_term(*b, caps, env),
        BTermV::If(c, t1, e) => first_failure(
            check_term(*c, caps, env),
            first_failure(check_term(*t1, caps, env), check_term(*e, caps, env)),
        ),
        BTermV::Match(s, arms, d) => first_failure(
            check_value_term(s, caps, env),
            first_failure(check_arms(arms, caps, env), check_term(*d, caps, env)),
        ),
        BTermV::Cmp(_, a, b) => first_failure(
            check_value_term(a, caps, env),
            check_value_term(b, caps, env),
        ),
        BTermV::State(p, args) => if !caps.state_preds.contains(p) {
            Some(AdmissionErrorV::UncapableStatePred(p))
        } else {
            check_value_terms(args, caps, env)
        },
        BTermV::Prove(o) => if !caps.obligations.contains(obligation_kind(o)) {
            Some(AdmissionErrorV::UncapableObligation(obligation_kind(o)))
        } else {
            check_value_term(obligation_arg(o), caps, env)
        },
    }
}

/// The first failure among a list of terms.
pub open spec fn check_terms(
    s: Seq<BTermV>,
    caps: CapabilitySetV,
    env: Seq<(Seq<char>, ValueV)>,
) -> Option<AdmissionErrorV>
    decreases s,
{
    if s.len() == 0 {
        None
    } else {
        first_failure(check_term(s[0], caps, env), check_terms(s.drop_first(), caps, env))
    }
}

/// The first failure among the bodies of a list of `match` arms.
pub open spec fn check_arms(
    s: Seq<(Seq<char>, BTermV)>,
    caps: CapabilitySetV,
    env: Seq<(Seq<char>, ValueV)>,
) -> Option<AdmissionErrorV>
    decreases s,
{
    if s.len() == 0 {
        None
    } else {
        first_failure(check_term(s[0].1, caps, env), check_arms(s.drop_first(), caps, env))
    }
}

/// Whether a value function reads its first two arguments as integers.
pub open spec fn reads_integers(f: ValueFn) -> bool {
    match f {
        ValueFn::Add | ValueFn::Sub | ValueFn::Mul | ValueFn::Div | ValueFn::Min | ValueFn::Max
        | ValueFn::Pct | ValueFn::Bps => true,
        _ => false,
    }
}

/// The value of a value term where it is known before evaluation: a literal, or a bound
/// constant.
pub open spec fn static_value(t: VTermV, env: Seq<(Seq<char>, ValueV)>) -> Option<ValueV> {
    match t {
        VTermV::Lit(v) => Some(v),
        VTermV::Var(n) => lookup(env, n),
        VTermV::Op(..) => None,
    }
}

/// Whether a value term is known before evaluation to give something other than an integer:
/// a literal of another kind, or a constant bound to one.
pub open spec fn known_non_integer(t: VTermV, env: Seq<(Seq<char>, ValueV)>) -> bool {
    static_value(t, env) matches Some(v) && !(v is Int)
}

/// Whether a value is a list of keys.
pub open spec fn is_key_list(v: ValueV) -> bool {
    v matches ValueV::List(items) && forall|i: int| 0 <= i < items.len() ==> #[trigger] items[i] is Key
}

/// Whether a value has the kind an obligation reads: a key for `pk` and `attest`, a hash for
/// `pk_h` and `hashlock`, a list of keys for `pk_any` and `multi`.
pub open spec fn fits_obligation(o: ObligationV, v: ValueV) -> bool {
    match o {
        ObligationV::Pk(_) => v is Key,
        ObligationV::Attest(..) => v is Key,
        ObligationV::PkH(_) => v is Hash,
        ObligationV::Hashlock(_) => v is Hash,
        ObligationV::PkAny(_) => is_key_list(v),
        ObligationV::Multi(..) => is_key_list(v),
    }
}

/// Whether an obligation's argument, where it is known before evaluation, has the kind the
/// obligation reads.
pub open spec fn obligation_sorted(o: ObligationV, env: Seq<(Seq<char>, ValueV)>) -> bool {
    static_value(obligation_arg(o), env) matches Some(v) ==> fits_obligation(o, v)
}

/// Whether a `match` scrutinee, where it is known before evaluation, is a symbol.
pub open spec fn scrutinee_sorted(t: VTermV, env: Seq<(Seq<char>, ValueV)>) -> bool {
    static_value(t, env) matches Some(v) ==> v is Symbol
}

/// Whether no operand of an arithmetic function in a value term is known to be a non-integer.
pub open spec fn sorts_value(t: VTermV, env: Seq<(Seq<char>, ValueV)>) -> bool
    decreases t,
{
    match t {
        VTermV::Op(f, args) => (reads_integers(f) ==> (args.len() > 0 ==> !known_non_integer(
            args[0],
            env,
        )) && (args.len() > 1 ==> !known_non_integer(args[1], env))) && sorts_values(args, env),
        _ => true,
    }
}

/// [`sorts_value`] for every term of a list.
pub open spec fn sorts_values(s: Seq<VTermV>, env: Seq<(Seq<char>, ValueV)>) -> bool
    decreases s,
{
    if s.len() == 0 {
        true
    } else {
        sorts_value(s[0], env) && sorts_values(s.drop_first(), env)
    }
}

/// How many leading arguments a state predicate reads as integers.
pub open spec fn state_int_args(p: StatePred) -> nat {
    match p {
        StatePred::AmountInRange | StatePred::RollingAmountBelow | StatePred::RollingAmountBelowPct => 2,
        StatePred::DestinationIs | StatePred::DestinationIn | StatePred::SubtreeAt => 0,
        _ => 1,
    }
}

/// Whether a state predicate's arguments, where they are known before evaluation, have the kinds
/// it reads: integers in its leading integer positions, a list for `destination_in`, a path as
/// the second argument of `subtree_at`.
pub open spec fn state_sorted(p: StatePred, args: Seq<VTermV>, env: Seq<(Seq<char>, ValueV)>) -> bool {
    &&& (state_int_args(p) > 0 && args.len() > 0 ==> !known_non_integer(args[0], env))
    &&& (state_int_args(p) > 1 && args.len() > 1 ==> !known_non_integer(args[1], env))
    &&& (p == StatePred::DestinationIn && args.len() > 0 ==> (static_value(args[0], env) matches Some(
        v,
    ) ==> v is List))
    &&& (p == StatePred::SubtreeAt && args.len() > 1 ==> (static_value(args[1], env) matches Some(
        v,
    ) ==> v is Path))
}

/// Whether no position of a term holds a literal or constant of a kind other than the one it
/// is read as: an integer for a side of an ordered comparison or an operand of an arithmetic
/// function or in a state predicate's integer positions, a symbol for a `match` scrutinee, and
/// for an obligation's or state predicate's other arguments the kind it reads.
pub open spec fn sorts_term(t: BTermV, env: Seq<(Seq<char>, ValueV)>) -> bool
    decreases t,
{
    match t {
        BTermV::Const(_) => true,
        BTermV::And(bs) => sorts_terms(bs, env),
        BTermV::Or(bs) => sorts_terms(bs, env),
        BTermV::Thresh(_, bs) => sorts_terms(bs, env),
        BTermV::Not(b) => sorts_term(*b, env),
        BTermV::If(c, t1, e) => sorts_term(*c, env) && sorts_term(*t1, env) && sorts_term(*e, env),
        BTermV::Match(sc, arms, d) => scrutinee_sorted(sc, env) && sorts_value(sc, env) && sorts_arms(
            arms,
            env,
        ) && sorts_term(*d, env),
        BTermV::Cmp(o, a, b) => (o != CmpOp::Eq ==> !known_non_integer(a, env)
            && !known_non_integer(b, env)) && sorts_value(a, env) && sorts_value(b, env),
        BTermV::State(p, args) => state_sorted(p, args, env) && sorts_values(args, env),
        BTermV::Prove(o) => obligation_sorted(o, env) && sorts_value(obligation_arg(o), env),
    }
}

/// [`sorts_term`] for every term of a list.
pub open spec fn sorts_terms(s: Seq<BTermV>, env: Seq<(Seq<char>, ValueV)>) -> bool
    decreases s,
{
    if s.len() == 0 {
        true
    } else {
        sorts_term(s[0], env) && sorts_terms(s.drop_first(), env)
    }
}

/// [`sorts_term`] for every arm body of a list.
pub open spec fn sorts_arms(s: Seq<(Seq<char>, BTermV)>, env: Seq<(Seq<char>, ValueV)>) -> bool
    decreases s,
{
    if s.len() == 0 {
        true
    } else {
        sorts_term(s[0].1, env) && sorts_arms(s.drop_first(), env)
    }
}

/// Why a descriptor is not admitted, if it is not: its body is too deep, breaks the polarity
/// rule, uses an unsupported primitive or unbound constant, or holds a literal or constant of a
/// kind other than the one its position is read as.
pub open spec fn admission(d: DescriptorV, caps: CapabilitySetV) -> Option<AdmissionErrorV> {
    if term_depth(d.body) > MAX_DEPTH {
        Some(AdmissionErrorV::TooDeep)
    } else if !polarity_ok(d.body, true) {
        Some(AdmissionErrorV::NegativeProof)
    } else if check_term(d.body, caps, d.constants) is Some {
        check_term(d.body, caps, d.constants)
    } else if !sorts_term(d.body, d.constants) {
        Some(AdmissionErrorV::SortMismatch)
    } else {
        None
    }
}

/// Check a value term's primitives and references.
pub fn check_v(t: &VTerm, caps: &CapabilitySet, env: &Env) -> (r: Result<(), AdmissionError>)
    ensures
        outcome(r) == check_value_term(t@, caps@, env@),
    decreases t, 1nat,
{
    match t {
        VTerm::Lit(_) => Ok(()),
        VTerm::Var(name) => if env.contains_key(name.as_str()) {
            Ok(())
        } else {
            Err(AdmissionError::UnresolvedVar(name.clone()))
        },
        VTerm::Op(f, args) => {
            if !caps.has_value_fn(*f) {
                return Err(AdmissionError::UncapableValueFn(*f));
            }
            check_vs(args, caps, env)
        },
    }
}

/// Check a list of value terms, in order.
fn check_vs(s: &Vec<VTerm>, caps: &CapabilitySet, env: &Env) -> (r: Result<(), AdmissionError>)
    ensures
        outcome(r) == check_value_terms(vterms_view(s@), caps@, env@),
    decreases s, 0nat,
{
    let ghost vs = vterms_view(s@);
    proof {
        lemma_vterms_view(s@);
    }
    let mut i: usize = 0;
    assert(vs.skip(0) =~= vs);
    while i < s.len()
        invariant
            i <= s@.len(),
            vs == vterms_view(s@),
            vs.len() == s@.len(),
            forall|j: int| 0 <= j < s@.len() ==> #[trigger] vs[j] == s@[j]@,
            check_value_terms(vs, caps@, env@) == check_value_terms(vs.skip(i as int), caps@, env@),
        decreases s@.len() - i,
    {
        assert(vs.skip(i as int).drop_first() =~= vs.skip(i + 1));
        assert(vs.skip(i as int)[0] == vs[i as int]);
        match check_v(&s[i], caps, env) {
            Err(e) => return Err(e),
            Ok(()) => {},
        }
        i = i + 1;
    }
    assert(vs.skip(i as int).len() == 0);
    Ok(())
}

/// Check an obligation's form and its value term.
pub fn check_o(o: &Obligation, caps: &CapabilitySet, env: &Env) -> (r: Result<(), AdmissionError>)
    ensures
        outcome(r) == check_term(crate::ast::BTermV::Prove(o@), caps@, env@),
{
    let kind = o.kind();
    if !caps.has_obligation(kind) {
        return Err(AdmissionError::UncapableObligation(kind));
    }
    match o {
        Obligation::Pk(v) | Obligation::PkH(v) | Obligation::PkAny(v) | Obligation::Multi(_, v)
        | Obligation::Hashlock(v) | Obligation::Attest(v, _) => check_v(v, caps, env),
    }
}

/// Check a term's primitives and references.
pub fn check_b(t: &BTerm, caps: &CapabilitySet, env: &Env) -> (r: Result<(), AdmissionError>)
    ensures
        outcome(r) == check_term(t@, caps@, env@),
    decreases t, 1nat,
{
    match t {
        BTerm::Const(_) => Ok(()),
        BTerm::And(bs) | BTerm::Or(bs) | BTerm::Thresh(_, bs) => check_bs(bs, caps, env),
        BTerm::Not(b) => check_b(b, caps, env),
        BTerm::If(c, t1, e) => {
            match check_b(c, caps, env) {
                Err(err) => return Err(err),
                Ok(()) => {},
            }
            match check_b(t1, caps, env) {
                Err(err) => return Err(err),
                Ok(()) => {},
            }
            check_b(e, caps, env)
        },
        BTerm::Match { scrutinee, arms, default } => {
            match check_v(scrutinee, caps, env) {
                Err(err) => return Err(err),
                Ok(()) => {},
            }
            match check_arm_bodies(arms, caps, env) {
                Err(err) => return Err(err),
                Ok(()) => {},
            }
            check_b(default, caps, env)
        },
        BTerm::Cmp(_, a, b) => {
            match check_v(a, caps, env) {
                Err(err) => return Err(err),
                Ok(()) => {},
            }
            check_v(b, caps, env)
        },
        BTerm::State(p, args) => {
            if !caps.has_state_pred(*p) {
                return Err(AdmissionError::UncapableStatePred(*p));
            }
            check_vs(args, caps, env)
        },
        BTerm::Prove(o) => check_o(o, caps, env),
    }
}

/// Check a list of terms, in order.
fn check_bs(s: &Vec<BTerm>, caps: &CapabilitySet, env: &Env) -> (r: Result<(), AdmissionError>)
    ensures
        outcome(r) == check_terms(terms_view(s@), caps@, env@),
    decreases s, 0nat,
{
    let ghost vs = terms_view(s@);
    proof {
        lemma_terms_view(s@);
    }
    let mut i: usize = 0;
    assert(vs.skip(0) =~= vs);
    while i < s.len()
        invariant
            i <= s@.len(),
            vs == terms_view(s@),
            vs.len() == s@.len(),
            forall|j: int| 0 <= j < s@.len() ==> #[trigger] vs[j] == s@[j]@,
            check_terms(vs, caps@, env@) == check_terms(vs.skip(i as int), caps@, env@),
        decreases s@.len() - i,
    {
        assert(vs.skip(i as int).drop_first() =~= vs.skip(i + 1));
        assert(vs.skip(i as int)[0] == vs[i as int]);
        match check_b(&s[i], caps, env) {
            Err(e) => return Err(e),
            Ok(()) => {},
        }
        i = i + 1;
    }
    assert(vs.skip(i as int).len() == 0);
    Ok(())
}

/// Check the bodies of a list of `match` arms, in order.
fn check_arm_bodies(
    s: &Vec<(crate::registry::Symbol, BTerm)>,
    caps: &CapabilitySet,
    env: &Env,
) -> (r: Result<(), AdmissionError>)
    ensures
        outcome(r) == check_arms(arms_view(s@), caps@, env@),
    decreases s, 0nat,
{
    let ghost vs = arms_view(s@);
    proof {
        lemma_arms_view(s@);
    }
    let mut i: usize = 0;
    assert(vs.skip(0) =~= vs);
    while i < s.len()
        invariant
            i <= s@.len(),
            vs == arms_view(s@),
            vs.len() == s@.len(),
            forall|j: int| 0 <= j < s@.len() ==> #[trigger] vs[j] == (s@[j].0@, s@[j].1@),
            check_arms(vs, caps@, env@) == check_arms(vs.skip(i as int), caps@, env@),
        decreases s@.len() - i,
    {
        assert(vs.skip(i as int).drop_first() =~= vs.skip(i + 1));
        assert(vs.skip(i as int)[0] == vs[i as int]);
        match check_b(&s[i].1, caps, env) {
            Err(e) => return Err(e),
            Ok(()) => {},
        }
        i = i + 1;
    }
    assert(vs.skip(i as int).len() == 0);
    Ok(())
}

/// Whether a value function reads its first two arguments as integers.
fn reads_integer_arguments(f: ValueFn) -> (r: bool)
    ensures
        r == reads_integers(f),
{
    match f {
        ValueFn::Add | ValueFn::Sub | ValueFn::Mul | ValueFn::Div | ValueFn::Min | ValueFn::Max
        | ValueFn::Pct | ValueFn::Bps => true,
        _ => false,
    }
}

/// The value of a value term where it is known before evaluation.
fn static_value_of<'a>(t: &'a VTerm, env: &'a Env) -> (r: Option<&'a Value>)
    ensures
        match static_value(t@, env@) {
            Some(v) => r matches Some(x) && x@ == v,
            None => r is None,
        },
{
    match t {
        VTerm::Lit(v) => Some(v),
        VTerm::Var(n) => env.get(n.as_str()),
        VTerm::Op(..) => None,
    }
}

/// Whether a value term is a literal or constant of a kind other than integer.
fn is_known_non_integer(t: &VTerm, env: &Env) -> (r: bool)
    ensures
        r == known_non_integer(t@, env@),
{
    match static_value_of(t, env) {
        Some(Value::Int(_)) => false,
        Some(_) => true,
        None => false,
    }
}

/// Whether a value is a list of keys.
fn key_list(v: &Value) -> (r: bool)
    ensures
        r == is_key_list(v@),
{
    match v {
        Value::List(items) => {
            proof {
                lemma_values_view(items@);
            }
            let mut i: usize = 0;
            while i < items.len()
                invariant
                    i <= items@.len(),
                    v@ == ValueV::List(values_view(items@)),
                    values_view(items@).len() == items@.len(),
                    forall|j: int| 0 <= j < items@.len() ==> #[trigger] values_view(items@)[j] == items@[j]@,
                    forall|j: int| 0 <= j < i ==> #[trigger] values_view(items@)[j] is Key,
                decreases items@.len() - i,
            {
                match &items[i] {
                    Value::Key(_) => {},
                    _ => {
                        assert(!(values_view(items@)[i as int] is Key));
                        return false;
                    },
                }
                i = i + 1;
            }
            true
        },
        _ => false,
    }
}

/// Whether an obligation's argument, where it is known before evaluation, has the kind the
/// obligation reads.
fn obligation_fits(o: &Obligation, env: &Env) -> (r: bool)
    ensures
        r == obligation_sorted(o@, env@),
{
    match o {
        Obligation::Pk(v) | Obligation::Attest(v, _) => match static_value_of(v, env) {
            Some(Value::Key(_)) => true,
            Some(_) => false,
            None => true,
        },
        Obligation::PkH(v) | Obligation::Hashlock(v) => match static_value_of(v, env) {
            Some(Value::Hash(_)) => true,
            Some(_) => false,
            None => true,
        },
        Obligation::PkAny(v) | Obligation::Multi(_, v) => match static_value_of(v, env) {
            Some(x) => key_list(x),
            None => true,
        },
    }
}

/// How many leading arguments a state predicate reads as integers.
fn state_int_arg_count(p: StatePred) -> (r: usize)
    ensures
        r == state_int_args(p),
{
    match p {
        StatePred::AmountInRange | StatePred::RollingAmountBelow | StatePred::RollingAmountBelowPct => 2,
        StatePred::DestinationIs | StatePred::DestinationIn | StatePred::SubtreeAt => 0,
        _ => 1,
    }
}

/// Whether a state predicate's arguments, where they are known before evaluation, have the kinds
/// it reads.
fn state_fits(p: StatePred, args: &Vec<VTerm>, env: &Env) -> (r: bool)
    ensures
        r == state_sorted(p, vterms_view(args@), env@),
{
    proof {
        lemma_vterms_view(args@);
    }
    let n = state_int_arg_count(p);
    if n > 0 && args.len() > 0 && is_known_non_integer(&args[0], env) {
        return false;
    }
    if n > 1 && args.len() > 1 && is_known_non_integer(&args[1], env) {
        return false;
    }
    match p {
        StatePred::DestinationIn => if args.len() > 0 {
            match static_value_of(&args[0], env) {
                Some(Value::List(_)) => {},
                Some(_) => return false,
                None => {},
            }
        },
        StatePred::SubtreeAt => if args.len() > 1 {
            match static_value_of(&args[1], env) {
                Some(Value::Path(_)) => {},
                Some(_) => return false,
                None => {},
            }
        },
        _ => {},
    }
    true
}

/// Whether a `match` scrutinee, where it is known before evaluation, is a symbol.
fn scrutinee_fits(t: &VTerm, env: &Env) -> (r: bool)
    ensures
        r == scrutinee_sorted(t@, env@),
{
    match static_value_of(t, env) {
        Some(Value::Symbol(_)) => true,
        Some(_) => false,
        None => true,
    }
}

/// Check the integer operands of the arithmetic functions in a value term.
pub fn sorts_v(t: &VTerm, env: &Env) -> (r: bool)
    ensures
        r == sorts_value(t@, env@),
    decreases t, 1nat,
{
    match t {
        VTerm::Op(f, args) => {
            proof {
                lemma_vterms_view(args@);
            }
            if reads_integer_arguments(*f) {
                if args.len() > 0 && is_known_non_integer(&args[0], env) {
                    return false;
                }
                if args.len() > 1 && is_known_non_integer(&args[1], env) {
                    return false;
                }
            }
            sorts_vs(args, env)
        },
        _ => true,
    }
}

/// Check a list of value terms, in order.
fn sorts_vs(s: &Vec<VTerm>, env: &Env) -> (r: bool)
    ensures
        r == sorts_values(vterms_view(s@), env@),
    decreases s, 0nat,
{
    let ghost vs = vterms_view(s@);
    proof {
        lemma_vterms_view(s@);
    }
    let mut i: usize = 0;
    assert(vs.skip(0) =~= vs);
    while i < s.len()
        invariant
            i <= s@.len(),
            vs == vterms_view(s@),
            vs.len() == s@.len(),
            forall|j: int| 0 <= j < s@.len() ==> #[trigger] vs[j] == s@[j]@,
            sorts_values(vs, env@) == sorts_values(vs.skip(i as int), env@),
        decreases s@.len() - i,
    {
        assert(vs.skip(i as int).drop_first() =~= vs.skip(i + 1));
        assert(vs.skip(i as int)[0] == vs[i as int]);
        if !sorts_v(&s[i], env) {
            return false;
        }
        i = i + 1;
    }
    assert(vs.skip(i as int).len() == 0);
    true
}

/// Check the positions of a term that are read as integers.
pub fn sorts_b(t: &BTerm, env: &Env) -> (r: bool)
    ensures
        r == sorts_term(t@, env@),
    decreases t, 1nat,
{
    match t {
        BTerm::Const(_) => true,
        BTerm::And(bs) | BTerm::Or(bs) | BTerm::Thresh(_, bs) => {
            let r = sorts_bs(bs, env);
            assert(r == sorts_term(t@, env@));
            r
        },
        BTerm::Not(b) => {
            let r = sorts_b(b, env);
            assert(r == sorts_term(t@, env@));
            r
        },
        BTerm::If(c, t1, e) => {
            let r = sorts_b(c, env) && sorts_b(t1, env) && sorts_b(e, env);
            assert(r == sorts_term(t@, env@));
            r
        },
        BTerm::Match { scrutinee, arms, default } => {
            let r = scrutinee_fits(scrutinee, env) && sorts_v(scrutinee, env) && sorts_arm_bodies(
                arms,
                env,
            ) && sorts_b(default, env);
            assert(r == sorts_term(t@, env@));
            r
        },
        BTerm::Cmp(o, a, b) => {
            let ordered = match o {
                CmpOp::Eq => false,
                _ => true,
            };
            assert(ordered == (*o != CmpOp::Eq));
            if ordered && (is_known_non_integer(a, env) || is_known_non_integer(b, env)) {
                return false;
            }
            let r = sorts_v(a, env) && sorts_v(b, env);
            assert(r == sorts_term(t@, env@));
            r
        },
        BTerm::State(p, args) => {
            let r = state_fits(*p, args, env) && sorts_vs(args, env);
            assert(r == sorts_term(t@, env@));
            r
        },
        BTerm::Prove(o) => {
            let v = match o {
                Obligation::Pk(v) => v,
                Obligation::PkH(v) => v,
                Obligation::PkAny(v) => v,
                Obligation::Multi(_, v) => v,
                Obligation::Hashlock(v) => v,
                Obligation::Attest(v, _) => v,
            };
            assert(v@ == obligation_arg(o@));
            obligation_fits(o, env) && sorts_v(v, env)
        },
    }
}

/// Check a list of terms, in order.
fn sorts_bs(s: &Vec<BTerm>, env: &Env) -> (r: bool)
    ensures
        r == sorts_terms(terms_view(s@), env@),
    decreases s, 0nat,
{
    let ghost vs = terms_view(s@);
    proof {
        lemma_terms_view(s@);
    }
    let mut i: usize = 0;
    assert(vs.skip(0) =~= vs);
    while i < s.len()
        invariant
            i <= s@.len(),
            vs == terms_view(s@),
            vs.len() == s@.len(),
            forall|j: int| 0 <= j < s@.len() ==> #[trigger] vs[j] == s@[j]@,
            sorts_terms(vs, env@) == sorts_terms(vs.skip(i as int), env@),
        decreases s@.len() - i,
    {
        assert(vs.skip(i as int).drop_first() =~= vs.skip(i + 1));
        assert(vs.skip(i as int)[0] == vs[i as int]);
        if !sorts_b(&s[i], env) {
            return false;
        }
        i = i + 1;
    }
    assert(vs.skip(i as int).len() == 0);
    true
}

/// Check the bodies of a list of `match` arms, in order.
fn sorts_arm_bodies(s: &Vec<(crate::registry::Symbol, BTerm)>, env: &Env) -> (r: bool)
    ensures
        r == sorts_arms(arms_view(s@), env@),
    decreases s, 0nat,
{
    let ghost vs = arms_view(s@);
    proof {
        lemma_arms_view(s@);
    }
    let mut i: usize = 0;
    assert(vs.skip(0) =~= vs);
    while i < s.len()
        invariant
            i <= s@.len(),
            vs == arms_view(s@),
            vs.len() == s@.len(),
            forall|j: int| 0 <= j < s@.len() ==> #[trigger] vs[j] == (s@[j].0@, s@[j].1@),
            sorts_arms(vs, env@) == sorts_arms(vs.skip(i as int), env@),
        decreases s@.len() - i,
    {
        assert(vs.skip(i as int).drop_first() =~= vs.skip(i + 1));
        assert(vs.skip(i as int)[0] == vs[i as int]);
        if !sorts_b(&s[i].1, env) {
            return false;
        }
        i = i + 1;
    }
    assert(vs.skip(i as int).len() == 0);
    true
}

/// Run all admission checks on a descriptor against an operator's capability set.
pub fn admit_descriptor(d: &Descriptor, caps: &CapabilitySet) -> (r: Result<(), AdmissionError>)
    ensures
        outcome(r) == admission(d@, caps@),
{
    if !d.body.has_depth_at_most(MAX_DEPTH) {
        return Err(AdmissionError::TooDeep);
    }
    match check_polarity(&d.body, true) {
        Err(e) => return Err(e),
        Ok(()) => {},
    }
    match check_b(&d.body, caps, &d.constants) {
        Err(e) => return Err(e),
        Ok(()) => {},
    }
    if !sorts_b(&d.body, &d.constants) {
        return Err(AdmissionError::SortMismatch);
    }
    Ok(())
}

proof fn lemma_value_checks_not_depth(t: VTermV, caps: CapabilitySetV, env: Seq<(Seq<char>, ValueV)>)
    ensures
        check_value_term(t, caps, env) != Some(AdmissionErrorV::TooDeep),
    decreases t,
{
    match t {
        VTermV::Op(f, args) => lemma_value_list_checks_not_depth(args, caps, env),
        _ => {},
    }
}

proof fn lemma_value_list_checks_not_depth(s: Seq<VTermV>, caps: CapabilitySetV, env: Seq<(Seq<char>, ValueV)>)
    ensures
        check_value_terms(s, caps, env) != Some(AdmissionErrorV::TooDeep),
    decreases s,
{
    if s.len() > 0 {
        lemma_value_checks_not_depth(s[0], caps, env);
        lemma_value_list_checks_not_depth(s.drop_first(), caps, env);
    }
}

proof fn lemma_term_checks_not_depth(t: BTermV, caps: CapabilitySetV, env: Seq<(Seq<char>, ValueV)>)
    ensures
        check_term(t, caps, env) != Some(AdmissionErrorV::TooDeep),
    decreases t,
{
    match t {
        BTermV::And(bs) => lemma_term_list_checks_not_depth(bs, caps, env),
        BTermV::Or(bs) => lemma_term_list_checks_not_depth(bs, caps, env),
        BTermV::Thresh(_, bs) => lemma_term_list_checks_not_depth(bs, caps, env),
        BTermV::Not(b) => lemma_term_checks_not_depth(*b, caps, env),
        BTermV::If(x, y, z) => {
            lemma_term_checks_not_depth(*x, caps, env);
            lemma_term_checks_not_depth(*y, caps, env);
            lemma_term_checks_not_depth(*z, caps, env);
        },
        BTermV::Match(sc, arms, d) => {
            lemma_value_checks_not_depth(sc, caps, env);
            lemma_arm_checks_not_depth(arms, caps, env);
            lemma_term_checks_not_depth(*d, caps, env);
        },
        BTermV::Cmp(_, a, b) => {
            lemma_value_checks_not_depth(a, caps, env);
            lemma_value_checks_not_depth(b, caps, env);
        },
        BTermV::State(_, args) => lemma_value_list_checks_not_depth(args, caps, env),
        BTermV::Prove(o) => lemma_value_checks_not_depth(obligation_arg(o), caps, env),
        _ => {},
    }
}

proof fn lemma_term_list_checks_not_depth(s: Seq<BTermV>, caps: CapabilitySetV, env: Seq<(Seq<char>, ValueV)>)
    ensures
        check_terms(s, caps, env) != Some(AdmissionErrorV::TooDeep),
    decreases s,
{
    if s.len() > 0 {
        lemma_term_checks_not_depth(s[0], caps, env);
        lemma_term_list_checks_not_depth(s.drop_first(), caps, env);
    }
}

proof fn lemma_arm_checks_not_depth(s: Seq<(Seq<char>, BTermV)>, caps: CapabilitySetV, env: Seq<(Seq<char>, ValueV)>)
    ensures
        check_arms(s, caps, env) != Some(AdmissionErrorV::TooDeep),
    decreases s,
{
    if s.len() > 0 {
        lemma_term_checks_not_depth(s[0].1, caps, env);
        lemma_arm_checks_not_depth(s.drop_first(), caps, env);
    }
}

/// Admission answers `TooDeep` exactly when the body is deeper than [`MAX_DEPTH`], whatever
/// its polarity, primitives and references.
pub proof fn lemma_too_deep_exactly(d: DescriptorV, caps: CapabilitySetV)
    ensures
        admission(d, caps) == Some(AdmissionErrorV::TooDeep) <==> term_depth(d.body) > MAX_DEPTH,
{
    lemma_term_checks_not_depth(d.body, caps, d.constants);
}

/// The primitives and constant references a term uses.
pub struct Uses {
    pub value_fns: Set<ValueFn>,
    pub state_preds: Set<StatePred>,
    pub obligations: Set<ObligationKind>,
    pub vars: Set<Seq<char>>,
}

/// Nothing used.
pub open spec fn no_uses() -> Uses {
    Uses { value_fns: Set::empty(), state_preds: Set::empty(), obligations: Set::empty(), vars: Set::empty() }
}

/// What either of two parts uses.
pub open spec fn both_uses(a: Uses, b: Uses) -> Uses {
    Uses {
        value_fns: a.value_fns.union(b.value_fns),
        state_preds: a.state_preds.union(b.state_preds),
        obligations: a.obligations.union(b.obligations),
        vars: a.vars.union(b.vars),
    }
}

/// The value functions and constant references of a value term.
pub open spec fn vterm_uses(t: VTermV) -> Uses
    decreases t,
{
    match t {
        VTermV::Lit(_) => no_uses(),
        VTermV::Var(n) => Uses { vars: set![n], ..no_uses() },
        VTermV::Op(f, args) => both_uses(Uses { value_fns: set![f], ..no_uses() }, vterms_uses(args)),
    }
}

/// [`vterm_uses`] of a list.
pub open spec fn vterms_uses(s: Seq<VTermV>) -> Uses
    decreases s,
{
    if s.len() == 0 {
        no_uses()
    } else {
        both_uses(vterm_uses(s[0]), vterms_uses(s.drop_first()))
    }
}

/// The primitives and constant references of a term.
pub open spec fn term_uses(t: BTermV) -> Uses
    decreases t,
{
    match t {
        BTermV::Const(_) => no_uses(),
        BTermV::And(bs) => terms_uses(bs),
        BTermV::Or(bs) => terms_uses(bs),
        BTermV::Thresh(_, bs) => terms_uses(bs),
        BTermV::Not(b) => term_uses(*b),
        BTermV::If(c, t1, e) => both_uses(term_uses(*c), both_uses(term_uses(*t1), term_uses(*e))),
        BTermV::Match(sc, arms, d) => both_uses(vterm_uses(sc), both_uses(arms_uses(arms), term_uses(*d))),
        BTermV::Cmp(_, a, b) => both_uses(vterm_uses(a), vterm_uses(b)),
        BTermV::State(p, args) => both_uses(Uses { state_preds: set![p], ..no_uses() }, vterms_uses(args)),
        BTermV::Prove(o) => both_uses(
            Uses { obligations: set![obligation_kind(o)], ..no_uses() },
            vterm_uses(obligation_arg(o)),
        ),
    }
}

/// [`term_uses`] of a list.
pub open spec fn terms_uses(s: Seq<BTermV>) -> Uses
    decreases s,
{
    if s.len() == 0 {
        no_uses()
    } else {
        both_uses(term_uses(s[0]), terms_uses(s.drop_first()))
    }
}

/// [`term_uses`] of each arm body of a list.
pub open spec fn arms_uses(s: Seq<(Seq<char>, BTermV)>) -> Uses
    decreases s,
{
    if s.len() == 0 {
        no_uses()
    } else {
        both_uses(term_uses(s[0].1), arms_uses(s.drop_first()))
    }
}

/// Whether everything used is in the capability set, and every constant reference is bound.
pub open spec fn allowed(u: Uses, caps: CapabilitySetV, env: Seq<(Seq<char>, ValueV)>) -> bool {
    &&& u.value_fns.subset_of(caps.value_fns)
    &&& u.state_preds.subset_of(caps.state_preds)
    &&& u.obligations.subset_of(caps.obligations)
    &&& forall|n: Seq<char>| #[trigger] u.vars.contains(n) ==> lookup(env, n) is Some
}

proof fn lemma_allowed_both(a: Uses, b: Uses, caps: CapabilitySetV, env: Seq<(Seq<char>, ValueV)>)
    ensures
        allowed(both_uses(a, b), caps, env) <==> allowed(a, caps, env) && allowed(b, caps, env),
{
    let u = both_uses(a, b);
    if allowed(a, caps, env) && allowed(b, caps, env) {
        assert forall|n: Seq<char>| #[trigger] u.vars.contains(n) implies lookup(env, n) is Some by {
            if a.vars.contains(n) {
            } else {
                assert(b.vars.contains(n));
            }
        }
    }
    if allowed(u, caps, env) {
        assert forall|n: Seq<char>| #[trigger] a.vars.contains(n) implies lookup(env, n) is Some by {
            assert(u.vars.contains(n));
        }
        assert forall|n: Seq<char>| #[trigger] b.vars.contains(n) implies lookup(env, n) is Some by {
            assert(u.vars.contains(n));
        }
    }
}

proof fn lemma_allowed_none(caps: CapabilitySetV, env: Seq<(Seq<char>, ValueV)>)
    ensures
        allowed(no_uses(), caps, env),
{
}

proof fn lemma_check_value_term_allowed(t: VTermV, caps: CapabilitySetV, env: Seq<(Seq<char>, ValueV)>)
    ensures
        check_value_term(t, caps, env) is None <==> allowed(vterm_uses(t), caps, env),
    decreases t,
{
    match t {
        VTermV::Var(n) => {
            let u = vterm_uses(t);
            if lookup(env, n) is Some {
                assert forall|m: Seq<char>| #[trigger] u.vars.contains(m) implies lookup(env, m) is Some by {
                    assert(m == n);
                }
            } else {
                assert(u.vars.contains(n));
            }
        },
        VTermV::Op(f, args) => {
            lemma_check_value_terms_allowed(args, caps, env);
            let head = Uses { value_fns: set![f], ..no_uses() };
            lemma_allowed_both(head, vterms_uses(args), caps, env);
            assert(head.value_fns.subset_of(caps.value_fns) <==> caps.value_fns.contains(f)) by {
                if caps.value_fns.contains(f) {
                    assert forall|g: ValueFn| head.value_fns.contains(g) implies caps.value_fns.contains(g) by {
                        assert(g == f);
                    }
                } else {
                    assert(head.value_fns.contains(f));
                }
            }
        },
        _ => {},
    }
}

proof fn lemma_check_value_terms_allowed(s: Seq<VTermV>, caps: CapabilitySetV, env: Seq<(Seq<char>, ValueV)>)
    ensures
        check_value_terms(s, caps, env) is None <==> allowed(vterms_uses(s), caps, env),
    decreases s,
{
    if s.len() > 0 {
        lemma_check_value_term_allowed(s[0], caps, env);
        lemma_check_value_terms_allowed(s.drop_first(), caps, env);
        lemma_allowed_both(vterm_uses(s[0]), vterms_uses(s.drop_first()), caps, env);
    }
}

#[verifier::spinoff_prover]
proof fn lemma_check_term_allowed(t: BTermV, caps: CapabilitySetV, env: Seq<(Seq<char>, ValueV)>)
    ensures
        check_term(t, caps, env) is None <==> allowed(term_uses(t), caps, env),
    decreases t,
{
    match t {
        BTermV::And(bs) => lemma_check_terms_allowed(bs, caps, env),
        BTermV::Or(bs) => lemma_check_terms_allowed(bs, caps, env),
        BTermV::Thresh(_, bs) => lemma_check_terms_allowed(bs, caps, env),
        BTermV::Not(b) => lemma_check_term_allowed(*b, caps, env),
        BTermV::If(c, t1, e) => {
            lemma_check_term_allowed(*c, caps, env);
            lemma_check_term_allowed(*t1, caps, env);
            lemma_check_term_allowed(*e, caps, env);
            lemma_allowed_both(term_uses(*t1), term_uses(*e), caps, env);
            lemma_allowed_both(term_uses(*c), both_uses(term_uses(*t1), term_uses(*e)), caps, env);
        },
        BTermV::Match(sc, arms, d) => {
            lemma_check_value_term_allowed(sc, caps, env);
            lemma_check_arms_allowed(arms, caps, env);
            lemma_check_term_allowed(*d, caps, env);
            lemma_allowed_both(arms_uses(arms), term_uses(*d), caps, env);
            lemma_allowed_both(vterm_uses(sc), both_uses(arms_uses(arms), term_uses(*d)), caps, env);
        },
        BTermV::Cmp(_, a, b) => {
            lemma_check_value_term_allowed(a, caps, env);
            lemma_check_value_term_allowed(b, caps, env);
            lemma_allowed_both(vterm_uses(a), vterm_uses(b), caps, env);
        },
        BTermV::State(p, args) => {
            lemma_check_value_terms_allowed(args, caps, env);
            let head = Uses { state_preds: set![p], ..no_uses() };
            lemma_allowed_both(head, vterms_uses(args), caps, env);
            assert(head.state_preds.subset_of(caps.state_preds) <==> caps.state_preds.contains(p)) by {
                if caps.state_preds.contains(p) {
                    assert forall|g: StatePred| head.state_preds.contains(g) implies caps.state_preds.contains(g) by {
                        assert(g == p);
                    }
                } else {
                    assert(head.state_preds.contains(p));
                }
            }
        },
        BTermV::Prove(o) => {
            lemma_check_value_term_allowed(obligation_arg(o), caps, env);
            let k = obligation_kind(o);
            let head = Uses { obligations: set![k], ..no_uses() };
            lemma_allowed_both(head, vterm_uses(obligation_arg(o)), caps, env);
            assert(head.obligations.subset_of(caps.obligations) <==> caps.obligations.contains(k)) by {
                if caps.obligations.contains(k) {
                    assert forall|g: ObligationKind| head.obligations.contains(g) implies caps.obligations.contains(g) by {
                        assert(g == k);
                    }
                } else {
                    assert(head.obligations.contains(k));
                }
            }
        },
        _ => {},
    }
}

proof fn lemma_check_terms_allowed(s: Seq<BTermV>, caps: CapabilitySetV, env: Seq<(Seq<char>, ValueV)>)
    ensures
        check_terms(s, caps, env) is None <==> allowed(terms_uses(s), caps, env),
    decreases s,
{
    if s.len() > 0 {
        lemma_check_term_allowed(s[0], caps, env);
        lemma_check_terms_allowed(s.drop_first(), caps, env);
        lemma_allowed_both(term_uses(s[0]), terms_uses(s.drop_first()), caps, env);
    }
}

proof fn lemma_check_arms_allowed(s: Seq<(Seq<char>, BTermV)>, caps: CapabilitySetV, env: Seq<(Seq<char>, ValueV)>)
    ensures
        check_arms(s, caps, env) is None <==> allowed(arms_uses(s), caps, env),
    decreases s,
{
    if s.len() > 0 {
        lemma_check_term_allowed(s[0].1, caps, env);
        lemma_check_arms_allowed(s.drop_first(), caps, env);
        lemma_allowed_both(term_uses(s[0].1), arms_uses(s.drop_first()), caps, env);
    }
}

/// Admission accepts a descriptor exactly when its body is within the depth limit, every proof
/// obligation stands in positive position, every value function, state predicate and obligation
/// form it uses is in the capability set, every constant it references is bound, and no
/// position holds a literal or constant of a kind other than the one it is read as.
pub proof fn lemma_admission_exactly(d: DescriptorV, caps: CapabilitySetV)
    ensures
        admission(d, caps) is None <==> (term_depth(d.body) <= MAX_DEPTH && polarity_ok(d.body, true)
            && allowed(term_uses(d.body), caps, d.constants) && sorts_term(d.body, d.constants)),
{
    lemma_check_term_allowed(d.body, caps, d.constants);
}

/// The polarity a path reaches when it starts in a context of polarity `positive`: a path
/// through a `not`, or into the condition of an `if`, reaches a non-positive position, and
/// stays there.
pub open spec fn path_positive(t: BTermV, path: Seq<usize>, positive: bool) -> bool
    decreases path.len(),
{
    if path.len() == 0 {
        positive
    } else if path[0] < term_children(t).len() {
        let next = match t {
            BTermV::Not(_) => false,
            BTermV::If(..) => if path[0] == 0 { false } else { positive },
            _ => positive,
        };
        path_positive(term_children(t)[path[0] as int], path.drop_first(), next)
    } else {
        positive
    }
}

/// Whether the subterm at a path is a proof obligation.
pub open spec fn proves_at(t: BTermV, path: Seq<usize>) -> bool {
    subterm_at(t, path) matches Some(BTermV::Prove(_))
}

/// The polarity a child of `t` stands in, when `t` stands in `positive`.
pub open spec fn child_polarity(t: BTermV, i: int, positive: bool) -> bool {
    match t {
        BTermV::Not(_) => false,
        BTermV::If(..) => if i == 0 { false } else { positive },
        _ => positive,
    }
}

proof fn lemma_polarity_children(t: BTermV, positive: bool)
    ensures
        polarity_ok(t, positive) <==> ((t is Prove ==> positive) && forall|i: int|
            0 <= i < term_children(t).len() ==> #[trigger] polarity_ok(
                term_children(t)[i],
                child_polarity(t, i, positive),
            )),
{
    match t {
        BTermV::And(bs) => {
            lemma_polarity_list_children(t, bs, positive);
        },
        BTermV::Or(bs) => {
            lemma_polarity_list_children(t, bs, positive);
        },
        BTermV::Thresh(_, bs) => {
            lemma_polarity_list_children(t, bs, positive);
        },
        BTermV::Not(b) => {
            let ch = term_children(t);
            assert(ch[0] == *b);
            assert(polarity_ok(ch[0], child_polarity(t, 0, positive)) == polarity_ok(*b, false));
        },
        BTermV::If(c, t1, e) => {
            let ch = term_children(t);
            assert(ch[0] == *c);
            assert(ch[1] == *t1);
            assert(ch[2] == *e);
            assert(polarity_ok(ch[0], child_polarity(t, 0, positive)) == polarity_ok(*c, false));
            assert(polarity_ok(ch[1], child_polarity(t, 1, positive)) == polarity_ok(*t1, positive));
            assert(polarity_ok(ch[2], child_polarity(t, 2, positive)) == polarity_ok(*e, positive));
        },
        BTermV::Match(sc, arms, d) => {
            lemma_polarity_arms_index(arms, positive);
            let ch = term_children(t);
            assert forall|i: int| 0 <= i < arms.len() implies ch[i] == arms[i].1 by {}
            assert(ch[arms.len() as int] == *d);
            if forall|i: int| 0 <= i < ch.len() ==> #[trigger] polarity_ok(ch[i], child_polarity(t, i, positive)) {
                assert forall|i: int| 0 <= i < arms.len() implies #[trigger] polarity_ok(arms[i].1, positive) by {
                    assert(polarity_ok(ch[i], child_polarity(t, i, positive)));
                }
                assert(polarity_ok(ch[arms.len() as int], child_polarity(t, arms.len() as int, positive)));
            }
        },
        _ => {},
    }
}

proof fn lemma_polarity_list_children(t: BTermV, bs: Seq<BTermV>, positive: bool)
    requires
        t is And || t is Or || t is Thresh,
        term_children(t) == bs,
    ensures
        polarity_all(bs, positive) <==> forall|i: int|
            0 <= i < term_children(t).len() ==> #[trigger] polarity_ok(
                term_children(t)[i],
                child_polarity(t, i, positive),
            ),
{
    lemma_polarity_all_index(bs, positive);
    if polarity_all(bs, positive) {
        assert forall|i: int| 0 <= i < term_children(t).len() implies #[trigger] polarity_ok(
            term_children(t)[i],
            child_polarity(t, i, positive),
        ) by {
            assert(polarity_ok(bs[i], positive));
        }
    }
    if forall|i: int| 0 <= i < term_children(t).len() ==> #[trigger] polarity_ok(
        term_children(t)[i],
        child_polarity(t, i, positive),
    ) {
        assert forall|i: int| 0 <= i < bs.len() implies #[trigger] polarity_ok(bs[i], positive) by {
            assert(polarity_ok(term_children(t)[i], child_polarity(t, i, positive)));
        }
    }
}

proof fn lemma_polarity_all_index(bs: Seq<BTermV>, positive: bool)
    ensures
        polarity_all(bs, positive) <==> forall|i: int| 0 <= i < bs.len() ==> #[trigger] polarity_ok(bs[i], positive),
    decreases bs.len(),
{
    if bs.len() > 0 {
        lemma_polarity_all_index(bs.drop_first(), positive);
        if forall|i: int| 0 <= i < bs.len() ==> #[trigger] polarity_ok(bs[i], positive) {
            assert(polarity_ok(bs[0], positive));
            assert forall|i: int| 0 <= i < bs.drop_first().len() implies #[trigger] polarity_ok(bs.drop_first()[i], positive) by {
                assert(bs.drop_first()[i] == bs[i + 1]);
            }
        }
        if polarity_all(bs, positive) {
            assert forall|i: int| 0 <= i < bs.len() implies #[trigger] polarity_ok(bs[i], positive) by {
                if i > 0 {
                    assert(bs.drop_first()[i - 1] == bs[i]);
                }
            }
        }
    }
}

proof fn lemma_polarity_arms_index(arms: Seq<(Seq<char>, BTermV)>, positive: bool)
    ensures
        polarity_arms(arms, positive) <==> forall|i: int| 0 <= i < arms.len() ==> #[trigger] polarity_ok(arms[i].1, positive),
    decreases arms.len(),
{
    if arms.len() > 0 {
        lemma_polarity_arms_index(arms.drop_first(), positive);
        if forall|i: int| 0 <= i < arms.len() ==> #[trigger] polarity_ok(arms[i].1, positive) {
            assert(polarity_ok(arms[0].1, positive));
            assert forall|i: int| 0 <= i < arms.drop_first().len() implies #[trigger] polarity_ok(arms.drop_first()[i].1, positive) by {
                assert(arms.drop_first()[i] == arms[i + 1]);
            }
        }
        if polarity_arms(arms, positive) {
            assert forall|i: int| 0 <= i < arms.len() implies #[trigger] polarity_ok(arms[i].1, positive) by {
                if i > 0 {
                    assert(arms.drop_first()[i - 1] == arms[i]);
                }
            }
        }
    }
}

/// Where the polarity rule holds, every proof obligation is reached along a positive path.
proof fn lemma_polarity_paths_sound(t: BTermV, positive: bool, path: Seq<usize>)
    requires
        polarity_ok(t, positive),
        proves_at(t, path),
    ensures
        path_positive(t, path, positive),
    decreases path.len(),
{
    lemma_polarity_children(t, positive);
    if path.len() > 0 {
        let i = path[0] as int;
        let c = term_children(t)[i];
        assert(polarity_ok(c, child_polarity(t, i, positive)));
        lemma_polarity_paths_sound(c, child_polarity(t, i, positive), path.drop_first());
    }
}

/// Whether paths can address every child of every subterm: no subterm has more children than a
/// path index can name, as holds of every term held in memory.
pub open spec fn paths_reach_all(t: BTermV) -> bool {
    forall|p: Seq<usize>| #[trigger] subterm_at(t, p) is Some ==> term_children(subterm_at(t, p)->Some_0).len() <= usize::MAX
}

/// Where every proof obligation is reached along a positive path, the polarity rule holds.
proof fn lemma_polarity_paths_complete(t: BTermV, positive: bool)
    requires
        paths_reach_all(t),
        forall|path: Seq<usize>| #[trigger] proves_at(t, path) ==> path_positive(t, path, positive),
    ensures
        polarity_ok(t, positive),
    decreases t,
{
    lemma_polarity_children(t, positive);
    if t is Prove {
        assert(proves_at(t, Seq::<usize>::empty()));
    }
    let ch = term_children(t);
    assert(subterm_at(t, Seq::<usize>::empty()) == Some(t));
    assert(ch.len() <= usize::MAX);
    assert forall|i: int| 0 <= i < ch.len() implies #[trigger] polarity_ok(ch[i], child_polarity(t, i, positive)) by {
        let c = ch[i];
        let cp = child_polarity(t, i, positive);
        let iu = i as usize;
        assert forall|q: Seq<usize>| #[trigger] proves_at(c, q) implies path_positive(c, q, cp) by {
            let path = seq![iu] + q;
            assert(path.drop_first() =~= q);
            assert(path[0] == iu);
            assert(subterm_at(t, path) == subterm_at(c, q));
            assert(proves_at(t, path));
        }
        assert forall|q: Seq<usize>| #[trigger] subterm_at(c, q) is Some implies term_children(subterm_at(c, q)->Some_0).len() <= usize::MAX by {
            let path = seq![iu] + q;
            assert(path.drop_first() =~= q);
            assert(path[0] == iu);
            assert(subterm_at(t, path) == subterm_at(c, q));
        }
        lemma_children_smaller(t, i);
        lemma_polarity_paths_complete(c, cp);
    }
}

proof fn lemma_children_smaller(t: BTermV, i: int)
    requires
        0 <= i < term_children(t).len(),
    ensures
        decreases_to!(t => term_children(t)[i]),
{
    match t {
        BTermV::And(bs) => {
            assert(decreases_to!(bs => bs[i]));
        },
        BTermV::Or(bs) => {
            assert(decreases_to!(bs => bs[i]));
        },
        BTermV::Thresh(_, bs) => {
            assert(decreases_to!(bs => bs[i]));
        },
        BTermV::Match(sc, arms, d) => {
            if i < arms.len() {
                assert(decreases_to!(arms => arms[i]));
                assert(decreases_to!(arms[i] => arms[i].1));
            }
        },
        _ => {},
    }
}

/// The polarity rule, by paths: `check_polarity` accepts exactly when every proof obligation is
/// reached from the root along a positive path, one that passes through no `not` and into no
/// `if` condition (and starts positive).
pub proof fn lemma_polarity_by_paths(t: BTermV, positive: bool)
    requires
        paths_reach_all(t),
    ensures
        polarity_ok(t, positive) <==> forall|path: Seq<usize>| #[trigger] proves_at(t, path) ==> path_positive(
            t,
            path,
            positive,
        ),
{
    if polarity_ok(t, positive) {
        assert forall|path: Seq<usize>| #[trigger] proves_at(t, path) implies path_positive(t, path, positive) by {
            lemma_polarity_paths_sound(t, positive, path);
        }
    }
    if forall|path: Seq<usize>| #[trigger] proves_at(t, path) ==> path_positive(t, path, positive) {
        lemma_polarity_paths_complete(t, positive);
    }
}


proof fn lemma_checks_reach_list(
    s: Seq<BTermV>,
    caps: CapabilitySetV,
    env: Seq<(Seq<char>, ValueV)>,
    i: int,
)
    requires
        check_terms(s, caps, env) is None,
        sorts_terms(s, env),
        0 <= i < s.len(),
    ensures
        check_term(s[i], caps, env) is None,
        sorts_term(s[i], env),
    decreases s.len(),
{
    if i > 0 {
        lemma_checks_reach_list(s.drop_first(), caps, env, i - 1);
        assert(s.drop_first()[i - 1] == s[i]);
    }
}

proof fn lemma_checks_reach_arms(
    s: Seq<(Seq<char>, BTermV)>,
    caps: CapabilitySetV,
    env: Seq<(Seq<char>, ValueV)>,
    i: int,
)
    requires
        check_arms(s, caps, env) is None,
        sorts_arms(s, env),
        0 <= i < s.len(),
    ensures
        check_term(s[i].1, caps, env) is None,
        sorts_term(s[i].1, env),
    decreases s.len(),
{
    if i > 0 {
        lemma_checks_reach_arms(s.drop_first(), caps, env, i - 1);
        assert(s.drop_first()[i - 1] == s[i]);
    }
}

/// What admission checks of a term, it checks of each child.
proof fn lemma_checks_reach_children(
    t: BTermV,
    caps: CapabilitySetV,
    env: Seq<(Seq<char>, ValueV)>,
    i: int,
)
    requires
        check_term(t, caps, env) is None,
        sorts_term(t, env),
        0 <= i < term_children(t).len(),
    ensures
        check_term(term_children(t)[i], caps, env) is None,
        sorts_term(term_children(t)[i], env),
{
    match t {
        BTermV::And(bs) => lemma_checks_reach_list(bs, caps, env, i),
        BTermV::Or(bs) => lemma_checks_reach_list(bs, caps, env, i),
        BTermV::Thresh(_, bs) => lemma_checks_reach_list(bs, caps, env, i),
        BTermV::Match(_, arms, d) => {
            if i < arms.len() {
                lemma_checks_reach_arms(arms, caps, env, i);
                assert(term_children(t)[i] == arms[i].1);
            } else {
                assert(term_children(t)[i] == *d);
            }
        },
        _ => {},
    }
}

/// What admission checks of a term, it checks of each subterm.
proof fn lemma_checks_reach_path(
    t: BTermV,
    caps: CapabilitySetV,
    env: Seq<(Seq<char>, ValueV)>,
    path: Seq<usize>,
)
    requires
        check_term(t, caps, env) is None,
        sorts_term(t, env),
        subterm_at(t, path) is Some,
    ensures
        check_term(subterm_at(t, path)->Some_0, caps, env) is None,
        sorts_term(subterm_at(t, path)->Some_0, env),
    decreases path.len(),
{
    if path.len() > 0 {
        let i = path[0] as int;
        lemma_checks_reach_children(t, caps, env, i);
        lemma_checks_reach_path(term_children(t)[i], caps, env, path.drop_first());
    }
}

/// Whether a value term reads nothing from the operation or the snapshot: a literal, a
/// constant, or an arithmetic function of two such terms.
pub open spec fn pure_value(t: VTermV) -> bool
    decreases t,
{
    match t {
        VTermV::Lit(_) => true,
        VTermV::Var(_) => true,
        VTermV::Op(f, args) => reads_integers(f) && args.len() >= 2 && pure_value(args[0]) && pure_value(
            args[1],
        ),
    }
}

proof fn lemma_value_checks_reach(s: Seq<VTermV>, caps: CapabilitySetV, env: Seq<(Seq<char>, ValueV)>, i: int)
    requires
        check_value_terms(s, caps, env) is None,
        sorts_values(s, env),
        0 <= i < s.len(),
    ensures
        check_value_term(s[i], caps, env) is None,
        sorts_value(s[i], env),
    decreases s.len(),
{
    if i > 0 {
        lemma_value_checks_reach(s.drop_first(), caps, env, i - 1);
        assert(s.drop_first()[i - 1] == s[i]);
    }
}

/// A value term that passes the checks of admission and reads nothing from the operation or the
/// snapshot evaluates to a value; to an integer where admission does not know it to be a
/// non-integer.
proof fn lemma_pure_value(t: VTermV, caps: CapabilitySetV, c: EvalCtx)
    requires
        pure_value(t),
        check_value_term(t, caps, c.env) is None,
        sorts_value(t, c.env),
    ensures
        eval_value(t, c) is Ok,
        !known_non_integer(t, c.env) ==> eval_value(t, c) matches Ok(ValueV::Int(_)),
    decreases t,
{
    if let VTermV::Op(f, args) = t {
        lemma_value_checks_reach(args, caps, c.env, 0);
        lemma_value_checks_reach(args, caps, c.env, 1);
        lemma_pure_value(args[0], caps, c);
        lemma_pure_value(args[1], caps, c);
        assert(int_pair(args, c) is Ok);
    }
}

/// Whether a term is a comparison of two values that read nothing from the operation or the
/// snapshot (literals, constants, arithmetic on them), or an obligation on a literal or
/// constant.
pub open spec fn simple_leaf(t: BTermV) -> bool {
    match t {
        BTermV::Cmp(_, a, b) => pure_value(a) && pure_value(b),
        BTermV::Prove(o) => obligation_arg(o) is Lit || obligation_arg(o) is Var,
        _ => false,
    }
}

/// A comparison of two literals or constants, or an obligation on one, that passes the checks
/// of admission evaluates to a verdict.
proof fn lemma_leaf_total(u: BTermV, caps: CapabilitySetV, c: EvalCtx, p: Evidence)
    requires
        check_term(u, caps, c.env) is None,
        sorts_term(u, c.env),
        simple_leaf(u),
    ensures
        eval_term(u, c, p) is Ok,
{
    match u {
        BTermV::Cmp(o, a, b) => {
            assert(first_failure(check_value_term(a, caps, c.env), check_value_term(b, caps, c.env)) is None);
            lemma_pure_value(a, caps, c);
            lemma_pure_value(b, caps, c);
        },
        BTermV::Prove(o) => {
            let v = obligation_arg(o);
            assert(check_value_term(v, caps, c.env) is None);
            assert(eval_value(v, c) == Ok::<ValueV, EvalErrorV>(static_value(v, c.env)->Some_0));
            assert(fits_obligation(o, static_value(v, c.env)->Some_0));
        },
        _ => {},
    }
}

/// In an admitted descriptor, a comparison of two values built from literals, constants and
/// arithmetic, and an obligation whose argument is a literal or constant, evaluate to a
/// verdict, never to an error, whatever the operation, snapshot and witness: admission has
/// bound every constant they name and seen that each has the kind its position is read as.
pub proof fn lemma_admitted_leaf_total(
    d: DescriptorV,
    caps: CapabilitySetV,
    path: Seq<usize>,
    op: OperationV,
    st: SnapshotV,
    p: Evidence,
)
    requires
        admission(d, caps) is None,
        subterm_at(d.body, path) matches Some(u) && simple_leaf(u),
    ensures
        eval_term(subterm_at(d.body, path)->Some_0, ctx(d.constants, d.body, op, st), p) is Ok,
{
    lemma_checks_reach_path(d.body, caps, d.constants, path);
    lemma_leaf_total(subterm_at(d.body, path)->Some_0, caps, ctx(d.constants, d.body, op, st), p);
}

/// Whether a term reads nothing from the operation but its type: it is built from constants,
/// connectives, `if`, `match` on a literal, a constant or the operation type, comparisons of literals, constants and
/// arithmetic on them, obligations on literals and constants, and state predicates that read
/// the snapshot alone, applied to such values.
pub open spec fn operation_free(t: BTermV) -> bool
    decreases t,
{
    match t {
        BTermV::Const(_) => true,
        BTermV::And(bs) => operation_free_list(bs),
        BTermV::Or(bs) => operation_free_list(bs),
        BTermV::Thresh(_, bs) => operation_free_list(bs),
        BTermV::Not(b) => operation_free(*b),
        BTermV::If(c, t1, e) => operation_free(*c) && operation_free(*t1) && operation_free(*e),
        BTermV::Match(sc, arms, d) => (sc is Lit || sc is Var || sc matches VTermV::Op(
            ValueFn::OperationType,
            _,
        )) && operation_free_arms(arms) && operation_free(*d),
        BTermV::Cmp(..) => simple_leaf(t),
        BTermV::Prove(_) => simple_leaf(t),
        BTermV::State(pr, args) => reads_snapshot_only(pr) && args.len() >= state_int_args(pr) && forall|
            i: int,
        |
            0 <= i < args.len() ==> #[trigger] pure_value(args[i]),
    }
}

/// Whether a state predicate reads the snapshot alone, never the operation.
pub open spec fn reads_snapshot_only(p: StatePred) -> bool {
    match p {
        StatePred::AmountAtMost | StatePred::AmountInRange | StatePred::AmountAtMostPct
        | StatePred::DestinationIs | StatePred::DestinationIn | StatePred::SubtreeAt => false,
        _ => true,
    }
}

/// The arguments of a state predicate that pass the checks of admission and read nothing from
/// the operation or the snapshot evaluate, one value each.
proof fn lemma_pure_args(args: Seq<VTermV>, caps: CapabilitySetV, c: EvalCtx)
    requires
        check_value_terms(args, caps, c.env) is None,
        sorts_values(args, c.env),
        forall|i: int| 0 <= i < args.len() ==> #[trigger] pure_value(args[i]),
    ensures
        eval_args(args, c) is Ok,
        eval_args(args, c)->Ok_0.len() == args.len(),
        forall|i: int| 0 <= i < args.len() ==> #[trigger] eval_args(args, c)->Ok_0[i] == eval_value(args[i], c)->Ok_0,
    decreases args.len(),
{
    if args.len() > 0 {
        let rest = args.drop_first();
        assert forall|i: int| 0 <= i < rest.len() implies #[trigger] pure_value(rest[i]) by {
            assert(rest[i] == args[i + 1]);
            assert(pure_value(args[i + 1]));
        }
        lemma_pure_args(rest, caps, c);
        lemma_value_checks_reach(args, caps, c.env, 0);
        assert(pure_value(args[0]));
        lemma_pure_value(args[0], caps, c);
        let vals = eval_args(args, c)->Ok_0;
        assert forall|i: int| 0 <= i < args.len() implies #[trigger] vals[i] == eval_value(args[i], c)->Ok_0 by {
            if i > 0 {
                assert(rest[i - 1] == args[i]);
            }
        }
    }
}

/// [`operation_free`] for every term of a list.
pub open spec fn operation_free_list(s: Seq<BTermV>) -> bool
    decreases s,
{
    if s.len() == 0 {
        true
    } else {
        operation_free(s[0]) && operation_free_list(s.drop_first())
    }
}

/// [`operation_free`] for every arm body of a list.
pub open spec fn operation_free_arms(s: Seq<(Seq<char>, BTermV)>) -> bool
    decreases s,
{
    if s.len() == 0 {
        true
    } else {
        operation_free(s[0].1) && operation_free_arms(s.drop_first())
    }
}

proof fn lemma_operation_free_children(t: BTermV, i: int)
    requires
        operation_free(t),
        !(t is If),
        0 <= i < term_children(t).len(),
    ensures
        operation_free(term_children(t)[i]),
{
    match t {
        BTermV::And(bs) => lemma_operation_free_list(bs, i),
        BTermV::Or(bs) => lemma_operation_free_list(bs, i),
        BTermV::Thresh(_, bs) => lemma_operation_free_list(bs, i),
        BTermV::Match(_, arms, d) => {
            if i < arms.len() {
                lemma_operation_free_arms(arms, i);
                assert(term_children(t)[i] == arms[i].1);
            } else {
                assert(term_children(t)[i] == *d);
            }
        },
        _ => {},
    }
}

proof fn lemma_operation_free_list(s: Seq<BTermV>, i: int)
    requires
        operation_free_list(s),
        0 <= i < s.len(),
    ensures
        operation_free(s[i]),
    decreases s.len(),
{
    if i > 0 {
        lemma_operation_free_list(s.drop_first(), i - 1);
        assert(s.drop_first()[i - 1] == s[i]);
    }
}

proof fn lemma_operation_free_arms(s: Seq<(Seq<char>, BTermV)>, i: int)
    requires
        operation_free_arms(s),
        0 <= i < s.len(),
    ensures
        operation_free(s[i].1),
    decreases s.len(),
{
    if i > 0 {
        lemma_operation_free_arms(s.drop_first(), i - 1);
        assert(s.drop_first()[i - 1] == s[i]);
    }
}

/// A term that passes the checks of admission and reads nothing from the operation but its type
/// evaluates to a verdict.
proof fn lemma_operation_free_total(t: BTermV, caps: CapabilitySetV, c: EvalCtx, p: Evidence)
    requires
        check_term(t, caps, c.env) is None,
        sorts_term(t, c.env),
        operation_free(t),
    ensures
        eval_term(t, c, p) is Ok,
    decreases t,
{
    match t {
        BTermV::And(bs) => {
            lemma_operation_free_list_total(t, bs, caps, c, p);
            lemma_connectives(bs, c, p);
        },
        BTermV::Or(bs) => {
            lemma_operation_free_list_total(t, bs, caps, c, p);
            lemma_connectives(bs, c, p);
        },
        BTermV::Thresh(_, bs) => {
            lemma_operation_free_list_total(t, bs, caps, c, p);
            lemma_connectives(bs, c, p);
        },
        BTermV::Not(b) => {
            lemma_operation_free_total(*b, caps, c, p);
        },
        BTermV::If(cond, t1, e) => {
            lemma_operation_free_total(*cond, caps, c, p);
            lemma_operation_free_total(*t1, caps, c, p);
            lemma_operation_free_total(*e, caps, c, p);
        },
        BTermV::Match(sc, arms, d) => {
            assert(check_value_term(sc, caps, c.env) is None);
            let sym = if sc is Op {
                c.op.op_type
            } else {
                assert(eval_value(sc, c) == Ok::<ValueV, EvalErrorV>(static_value(sc, c.env)->Some_0));
                static_value(sc, c.env)->Some_0->Symbol_0
            };
            assert(eval_value(sc, c) == Ok::<ValueV, EvalErrorV>(ValueV::Symbol(sym)));
            let i = first_arm(arms, sym) as int;
            if i < arms.len() {
                lemma_checks_reach_children(t, caps, c.env, i);
                lemma_operation_free_children(t, i);
                lemma_children_smaller(t, i);
                assert(term_children(t)[i] == arms[i].1);
                lemma_operation_free_total(term_children(t)[i], caps, c, p);
            } else {
                lemma_operation_free_total(*d, caps, c, p);
            }
        },
        BTermV::Cmp(..) => lemma_leaf_total(t, caps, c, p),
        BTermV::Prove(_) => lemma_leaf_total(t, caps, c, p),
        BTermV::State(pr, args) => {
            lemma_pure_args(args, caps, c);
            let vals = eval_args(args, c)->Ok_0;
            lemma_value_checks_reach(args, caps, c.env, 0);
            assert(pure_value(args[0]));
            lemma_pure_value(args[0], caps, c);
            assert(vals[0] is Int);
            if state_int_args(pr) > 1 {
                lemma_value_checks_reach(args, caps, c.env, 1);
                assert(pure_value(args[1]));
                lemma_pure_value(args[1], caps, c);
                assert(vals[1] is Int);
            }
        },
        _ => {},
    }
}

/// Every child of a connective that passes the checks of admission and reads nothing from the
/// operation but its type evaluates to a verdict.
proof fn lemma_operation_free_list_total(t: BTermV, bs: Seq<BTermV>, caps: CapabilitySetV, c: EvalCtx, p: Evidence)
    requires
        t is And || t is Or || t is Thresh,
        term_children(t) == bs,
        check_term(t, caps, c.env) is None,
        sorts_term(t, c.env),
        operation_free(t),
    ensures
        forall|i: int| 0 <= i < bs.len() ==> #[trigger] eval_term(bs[i], c, p) is Ok,
    decreases t, 0nat,
{
    assert forall|i: int| 0 <= i < bs.len() implies #[trigger] eval_term(bs[i], c, p) is Ok by {
        lemma_checks_reach_children(t, caps, c.env, i);
        lemma_operation_free_children(t, i);
        lemma_children_smaller(t, i);
        lemma_operation_free_total(bs[i], caps, c, p);
    }
}

/// Evaluation of an admitted descriptor whose body reads nothing from the operation but its type
/// (see [`operation_free`]) always gives a verdict, never an error, whatever the operation,
/// snapshot and witness.
pub proof fn lemma_admitted_operation_free_total(
    d: DescriptorV,
    caps: CapabilitySetV,
    op: OperationV,
    st: SnapshotV,
    p: Evidence,
)
    requires
        admission(d, caps) is None,
        operation_free(d.body),
    ensures
        eval_term(d.body, ctx(d.constants, d.body, op, st), p) is Ok,
{
    lemma_operation_free_total(d.body, caps, ctx(d.constants, d.body, op, st), p);
}


/// Admission's sort rule for a state predicate is exact: where every argument is a literal or
/// constant, admission finds the arguments well sorted exactly when the predicate evaluates
/// without error, for an operation that carries a destination and the largest amount (so that
/// each argument is read).
pub proof fn lemma_state_sorts_exact(
    pr: StatePred,
    args: Seq<VTermV>,
    env: Seq<(Seq<char>, ValueV)>,
    vals: Seq<ValueV>,
    root: BTermV,
    op: OperationV,
    st: SnapshotV,
)
    requires
        args.len() == vals.len(),
        args.len() >= state_pred_arity(pr),
        forall|i: int| 0 <= i < args.len() ==> #[trigger] static_value(args[i], env) == Some(vals[i]),
        lookup(op.args, "amount"@) == Some(ValueV::Int(i128::MAX)),
        lookup(op.args, "destination"@) is Some,
    ensures
        state_sorted(pr, args, env) <==> state_holds(pr, vals, root, op, st) is Ok,
{
    assert(static_value(args[0], env) == Some(vals[0]));
    if args.len() > 1 {
        assert(static_value(args[1], env) == Some(vals[1]));
    }
}

} // verus!
