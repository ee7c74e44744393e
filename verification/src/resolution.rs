//! Admission rules out unresolved constants: evaluating an admitted descriptor never fails
//! with [`EvalErrorV::UnresolvedVar`], whatever the operation, the snapshot and the evidence.
use vstd::prelude::*;

use crate::admission::{admission, check_arms, check_term, check_terms, check_value_term, check_value_terms};
use crate::ast::{BTermV, ObligationV, VTermV, ValueV};
use crate::capability::CapabilitySetV;
use crate::descriptor::DescriptorV;
use crate::eval::{
    EvalCtx, EvalErrorV, Evidence, apply_fn, count_true, ctx, eval_all, eval_any, eval_args,
    eval_indices, eval_term, eval_value, obligation_arg, obligation_holds,
};
use crate::host::OperationV;
use crate::registry::ValueFn;
use crate::snapshot::SnapshotV;

verus! {

/// Whether a result is not a failure to resolve a constant.
pub open spec fn resolved<T>(r: Result<T, EvalErrorV>) -> bool {
    !(r matches Err(EvalErrorV::UnresolvedVar(_)))
}

proof fn lemma_indices_resolved(args: Seq<VTermV>, c: EvalCtx)
    requires
        forall|i: int| 0 <= i < args.len() ==> resolved(#[trigger] eval_value(args[i], c)),
    ensures
        resolved(eval_indices(args, c)),
    decreases args.len(),
{
    if args.len() > 0 {
        assert(resolved(eval_value(args[0], c)));
        assert forall|i: int| 0 <= i < args.drop_first().len() implies resolved(
            #[trigger] eval_value(args.drop_first()[i], c),
        ) by {
            assert(args.drop_first()[i] == args[i + 1]);
            assert(resolved(eval_value(args[i + 1], c)));
        }
        lemma_indices_resolved(args.drop_first(), c);
    }
}

proof fn lemma_args_resolved(args: Seq<VTermV>, c: EvalCtx)
    requires
        forall|i: int| 0 <= i < args.len() ==> resolved(#[trigger] eval_value(args[i], c)),
    ensures
        resolved(eval_args(args, c)),
    decreases args.len(),
{
    if args.len() > 0 {
        assert(resolved(eval_value(args[0], c)));
        assert forall|i: int| 0 <= i < args.drop_first().len() implies resolved(
            #[trigger] eval_value(args.drop_first()[i], c),
        ) by {
            assert(args.drop_first()[i] == args[i + 1]);
            assert(resolved(eval_value(args[i + 1], c)));
        }
        lemma_args_resolved(args.drop_first(), c);
    }
}

#[verifier::spinoff_prover]
#[verifier::rlimit(50)]
proof fn lemma_apply_resolved(f: ValueFn, args: Seq<VTermV>, c: EvalCtx)
    requires
        forall|i: int| 0 <= i < args.len() ==> resolved(#[trigger] eval_value(args[i], c)),
    ensures
        resolved(apply_fn(f, args, c)),
{
    if args.len() > 0 {
        assert(resolved(eval_value(args[0], c)));
    }
    if args.len() > 1 {
        assert(resolved(eval_value(args[1], c)));
    }
    if f == ValueFn::Path {
        lemma_indices_resolved(args, c);
    }
}

/// A value term whose constant references all resolve evaluates without an unresolved
/// constant.
pub proof fn lemma_value_resolved(t: VTermV, caps: CapabilitySetV, c: EvalCtx)
    requires
        check_value_term(t, caps, c.env) is None,
    ensures
        resolved(eval_value(t, c)),
    decreases t,
{
    match t {
        VTermV::Op(f, args) => {
            lemma_values_resolved(args, caps, c);
            lemma_apply_resolved(f, args, c);
        },
        _ => {},
    }
}

proof fn lemma_values_resolved(args: Seq<VTermV>, caps: CapabilitySetV, c: EvalCtx)
    requires
        check_value_terms(args, caps, c.env) is None,
    ensures
        forall|i: int| 0 <= i < args.len() ==> resolved(#[trigger] eval_value(args[i], c)),
    decreases args,
{
    if args.len() > 0 {
        lemma_value_resolved(args[0], caps, c);
        lemma_values_resolved(args.drop_first(), caps, c);
        assert forall|i: int| 0 <= i < args.len() implies resolved(#[trigger] eval_value(args[i], c)) by {
            if i > 0 {
                assert(args.drop_first()[i - 1] == args[i]);
            }
        }
    }
}

/// A term whose constant references all resolve evaluates without an unresolved constant,
/// under any evidence.
#[verifier::spinoff_prover]
pub proof fn lemma_term_resolved(t: BTermV, caps: CapabilitySetV, c: EvalCtx, p: Evidence)
    requires
        check_term(t, caps, c.env) is None,
    ensures
        resolved(eval_term(t, c, p)),
    decreases t,
{
    match t {
        BTermV::And(bs) => {
            lemma_all_resolved(bs, caps, c, p);
            assert(eval_term(t, c, p) == eval_all(bs, c, p));
        },
        BTermV::Or(bs) => {
            lemma_all_resolved(bs, caps, c, p);
            assert(eval_term(t, c, p) == eval_any(bs, c, p));
        },
        BTermV::Thresh(_, bs) => {
            lemma_all_resolved(bs, caps, c, p);
        },
        BTermV::Not(b) => lemma_term_resolved(*b, caps, c, p),
        BTermV::If(x, y, z) => {
            lemma_term_resolved(*x, caps, c, p);
            lemma_term_resolved(*y, caps, c, p);
            lemma_term_resolved(*z, caps, c, p);
        },
        BTermV::Match(s, arms, d) => {
            lemma_value_resolved(s, caps, c);
            lemma_arms_resolved(arms, caps, c, p);
            lemma_term_resolved(*d, caps, c, p);
            match eval_value(s, c) {
                Ok(ValueV::Symbol(sym)) => {
                    let i = crate::eval::first_arm(arms, sym);
                    if i < arms.len() {
                        assert(resolved(eval_term(arms[i as int].1, c, p)));
                    }
                },
                _ => {},
            }
        },
        BTermV::Cmp(_, a, b) => {
            lemma_value_resolved(a, caps, c);
            lemma_value_resolved(b, caps, c);
        },
        BTermV::State(_, args) => {
            lemma_values_resolved(args, caps, c);
            lemma_args_resolved(args, c);
        },
        BTermV::Prove(o) => {
            lemma_value_resolved(obligation_arg(o), caps, c);
        },
        _ => {},
    }
}

proof fn lemma_all_resolved(bs: Seq<BTermV>, caps: CapabilitySetV, c: EvalCtx, p: Evidence)
    requires
        check_terms(bs, caps, c.env) is None,
    ensures
        resolved(eval_all(bs, c, p)),
        resolved(eval_any(bs, c, p)),
        resolved(count_true(bs, c, p)),
    decreases bs,
{
    if bs.len() > 0 {
        lemma_term_resolved(bs[0], caps, c, p);
        lemma_all_resolved(bs.drop_first(), caps, c, p);
    }
}

proof fn lemma_arms_resolved(arms: Seq<(Seq<char>, BTermV)>, caps: CapabilitySetV, c: EvalCtx, p: Evidence)
    requires
        check_arms(arms, caps, c.env) is None,
    ensures
        forall|i: int| 0 <= i < arms.len() ==> resolved(#[trigger] eval_term(arms[i].1, c, p)),
    decreases arms,
{
    if arms.len() > 0 {
        lemma_term_resolved(arms[0].1, caps, c, p);
        lemma_arms_resolved(arms.drop_first(), caps, c, p);
        assert forall|i: int| 0 <= i < arms.len() implies resolved(#[trigger] eval_term(arms[i].1, c, p)) by {
            if i > 0 {
                assert(arms.drop_first()[i - 1] == arms[i]);
            }
        }
    }
}

/// Evaluating an admitted descriptor never fails with an unresolved constant, whatever the
/// operation, the snapshot and the evidence.
pub proof fn lemma_admitted_resolves(
    d: DescriptorV,
    caps: CapabilitySetV,
    op: OperationV,
    st: SnapshotV,
    p: Evidence,
)
    requires
        admission(d, caps) is None,
    ensures
        resolved(eval_term(d.body, ctx(d.constants, d.body, op, st), p)),
{
    lemma_term_resolved(d.body, caps, ctx(d.constants, d.body, op, st), p);
}

} // verus!
