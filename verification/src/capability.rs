//! Operator capability declarations.
//!
//! An operator advertises which extended primitives it implements. A descriptor may be admitted
//! only if every value function, state predicate and proof-obligation form it uses is in the
//! operator's set. The boolean connectives are the always-on core and are never gated.
use vstd::prelude::*;

use crate::ast::{Obligation, ObligationV};
use crate::registry::{StatePred, ValueFn};

verus! {

/// The form of a proof obligation, independent of its arguments.
#[derive(Copy, Clone, PartialEq, Eq, Debug, Structural)]
pub enum ObligationKind {
    /// `pk`.
    Pk,
    /// `pk_h`.
    PkH,
    /// `pk_any`.
    PkAny,
    /// `multi`.
    Multi,
    /// `hashlock`.
    Hashlock,
    /// `attest`.
    Attest,
}

/// The capability-relevant form of an obligation.
pub open spec fn obligation_kind(o: ObligationV) -> ObligationKind {
    match o {
        ObligationV::Pk(_) => ObligationKind::Pk,
        ObligationV::PkH(_) => ObligationKind::PkH,
        ObligationV::PkAny(_) => ObligationKind::PkAny,
        ObligationV::Multi(_, _) => ObligationKind::Multi,
        ObligationV::Hashlock(_) => ObligationKind::Hashlock,
        ObligationV::Attest(_, _) => ObligationKind::Attest,
    }
}

impl Obligation {
    /// The capability-relevant form of this obligation.
    pub fn kind(&self) -> (r: ObligationKind)
        ensures
            r == obligation_kind(self@),
    {
        match self {
            Obligation::Pk(_) => ObligationKind::Pk,
            Obligation::PkH(_) => ObligationKind::PkH,
            Obligation::PkAny(_) => ObligationKind::PkAny,
            Obligation::Multi(_, _) => ObligationKind::Multi,
            Obligation::Hashlock(_) => ObligationKind::Hashlock,
            Obligation::Attest(_, _) => ObligationKind::Attest,
        }
    }
}

/// A declared capability set.
#[derive(Clone, PartialEq, Eq, Debug)]
pub struct CapabilitySet {
    /// Supported value functions.
    pub value_fns: Vec<ValueFn>,
    /// Supported state predicates.
    pub state_preds: Vec<StatePred>,
    /// Supported proof-obligation forms.
    pub obligations: Vec<ObligationKind>,
}

/// The view of a [`CapabilitySet`]: three sets.
pub struct CapabilitySetV {
    pub value_fns: Set<ValueFn>,
    pub state_preds: Set<StatePred>,
    pub obligations: Set<ObligationKind>,
}

impl View for CapabilitySet {
    type V = CapabilitySetV;

    open spec fn view(&self) -> CapabilitySetV {
        CapabilitySetV {
            value_fns: self.value_fns@.to_set(),
            state_preds: self.state_preds@.to_set(),
            obligations: self.obligations@.to_set(),
        }
    }
}

impl CapabilitySet {
    /// The empty capability set: only the always-on boolean core is usable.
    pub fn empty() -> (r: Self)
        ensures
            r@.value_fns == Set::<ValueFn>::empty(),
            r@.state_preds == Set::<StatePred>::empty(),
            r@.obligations == Set::<ObligationKind>::empty(),
    {
        let r = CapabilitySet { value_fns: Vec::new(), state_preds: Vec::new(), obligations: Vec::new() };
        assert(r@.value_fns =~= Set::<ValueFn>::empty());
        assert(r@.state_preds =~= Set::<StatePred>::empty());
        assert(r@.obligations =~= Set::<ObligationKind>::empty());
        r
    }

    /// The protocol-mandated minimum every operator implements: `pk`, `pk_h`, `hashlock`,
    /// `older` and `after`.
    pub fn minimum() -> (r: Self)
        ensures
            r@.value_fns == Set::<ValueFn>::empty(),
            r@.state_preds == set![StatePred::Older, StatePred::After],
            r@.obligations == set![ObligationKind::Pk, ObligationKind::PkH, ObligationKind::Hashlock],
    {
        let c = Self::empty();
        let c = c.with_obligation(ObligationKind::Pk);
        let c = c.with_obligation(ObligationKind::PkH);
        let c = c.with_obligation(ObligationKind::Hashlock);
        let c = c.with_state_pred(StatePred::Older);
        let c = c.with_state_pred(StatePred::After);
        assert(c@.state_preds =~= set![StatePred::Older, StatePred::After]);
        assert(c@.obligations =~= set![ObligationKind::Pk, ObligationKind::PkH, ObligationKind::Hashlock]);
        c
    }

    /// A capability set containing every declared primitive.
    pub fn everything() -> (r: Self)
        ensures
            r@.value_fns == Set::<ValueFn>::full(),
            r@.state_preds == Set::<StatePred>::full(),
            r@.obligations == Set::<ObligationKind>::full(),
    {
        let value_fns = vec![
            ValueFn::Add, ValueFn::Sub, ValueFn::Mul, ValueFn::Div, ValueFn::Min, ValueFn::Max,
            ValueFn::Pct, ValueFn::Bps, ValueFn::OperationType, ValueFn::OperationArg,
            ValueFn::OperationPath, ValueFn::OperationSubtree, ValueFn::BlocksSinceActivity,
            ValueFn::BlocksSinceOpen, ValueFn::DepositBalance, ValueFn::RollingWindow,
            ValueFn::CumulativeSpentVia, ValueFn::AstRef, ValueFn::AstShapeAt, ValueFn::Path,
            ValueFn::BlocksSinceReceived,
        ];
        let state_preds = vec![
            StatePred::Older, StatePred::After, StatePred::AmountAtMost, StatePred::AmountInRange,
            StatePred::AmountAtMostPct, StatePred::DestinationIs, StatePred::DestinationIn,
            StatePred::BalanceAtLeast, StatePred::BalanceAtMost,
            StatePred::BlocksSinceActivityAtLeast, StatePred::BlocksSinceOpenBelow,
            StatePred::RollingAmountBelow, StatePred::RollingAmountBelowPct, StatePred::SubtreeAt,
            StatePred::BlocksSinceOpenAtLeast, StatePred::BlocksSinceReceivedAtLeast,
        ];
        let obligations = vec![
            ObligationKind::Pk, ObligationKind::PkH, ObligationKind::PkAny, ObligationKind::Multi,
            ObligationKind::Hashlock, ObligationKind::Attest,
        ];
        let r = CapabilitySet { value_fns, state_preds, obligations };
        proof {
            assert forall|f: ValueFn| #[trigger] r@.value_fns.contains(f) by {
                match f {
                    ValueFn::Add => assert(r.value_fns@[0] == f),
                    ValueFn::Sub => assert(r.value_fns@[1] == f),
                    ValueFn::Mul => assert(r.value_fns@[2] == f),
                    ValueFn::Div => assert(r.value_fns@[3] == f),
                    ValueFn::Min => assert(r.value_fns@[4] == f),
                    ValueFn::Max => assert(r.value_fns@[5] == f),
                    ValueFn::Pct => assert(r.value_fns@[6] == f),
                    ValueFn::Bps => assert(r.value_fns@[7] == f),
                    ValueFn::OperationType => assert(r.value_fns@[8] == f),
                    ValueFn::OperationArg => assert(r.value_fns@[9] == f),
                    ValueFn::OperationPath => assert(r.value_fns@[10] == f),
                    ValueFn::OperationSubtree => assert(r.value_fns@[11] == f),
                    ValueFn::BlocksSinceActivity => assert(r.value_fns@[12] == f),
                    ValueFn::BlocksSinceOpen => assert(r.value_fns@[13] == f),
                    ValueFn::DepositBalance => assert(r.value_fns@[14] == f),
                    ValueFn::RollingWindow => assert(r.value_fns@[15] == f),
                    ValueFn::CumulativeSpentVia => assert(r.value_fns@[16] == f),
                    ValueFn::AstRef => assert(r.value_fns@[17] == f),
                    ValueFn::AstShapeAt => assert(r.value_fns@[18] == f),
                    ValueFn::Path => assert(r.value_fns@[19] == f),
                    ValueFn::BlocksSinceReceived => assert(r.value_fns@[20] == f),
                }
            }
            assert forall|p: StatePred| #[trigger] r@.state_preds.contains(p) by {
                match p {
                    StatePred::Older => assert(r.state_preds@[0] == p),
                    StatePred::After => assert(r.state_preds@[1] == p),
                    StatePred::AmountAtMost => assert(r.state_preds@[2] == p),
                    StatePred::AmountInRange => assert(r.state_preds@[3] == p),
                    StatePred::AmountAtMostPct => assert(r.state_preds@[4] == p),
                    StatePred::DestinationIs => assert(r.state_preds@[5] == p),
                    StatePred::DestinationIn => assert(r.state_preds@[6] == p),
                    StatePred::BalanceAtLeast => assert(r.state_preds@[7] == p),
                    StatePred::BalanceAtMost => assert(r.state_preds@[8] == p),
                    StatePred::BlocksSinceActivityAtLeast => assert(r.state_preds@[9] == p),
                    StatePred::BlocksSinceOpenBelow => assert(r.state_preds@[10] == p),
                    StatePred::RollingAmountBelow => assert(r.state_preds@[11] == p),
                    StatePred::RollingAmountBelowPct => assert(r.state_preds@[12] == p),
                    StatePred::SubtreeAt => assert(r.state_preds@[13] == p),
                    StatePred::BlocksSinceOpenAtLeast => assert(r.state_preds@[14] == p),
                    StatePred::BlocksSinceReceivedAtLeast => assert(r.state_preds@[15] == p),
                }
            }
            assert forall|o: ObligationKind| #[trigger] r@.obligations.contains(o) by {
                match o {
                    ObligationKind::Pk => assert(r.obligations@[0] == o),
                    ObligationKind::PkH => assert(r.obligations@[1] == o),
                    ObligationKind::PkAny => assert(r.obligations@[2] == o),
                    ObligationKind::Multi => assert(r.obligations@[3] == o),
                    ObligationKind::Hashlock => assert(r.obligations@[4] == o),
                    ObligationKind::Attest => assert(r.obligations@[5] == o),
                }
            }
            assert(r@.value_fns =~= Set::<ValueFn>::full());
            assert(r@.state_preds =~= Set::<StatePred>::full());
            assert(r@.obligations =~= Set::<ObligationKind>::full());
        }
        r
    }

    /// Add a value function.
    pub fn with_value_fn(self, f: ValueFn) -> (r: Self)
        ensures
            r@.value_fns == self@.value_fns.insert(f),
            r@.state_preds == self@.state_preds,
            r@.obligations == self@.obligations,
    {
        let mut c = self;
        c.value_fns.push(f);
        proof {
            assert forall|x| #[trigger] c.value_fns@.contains(x) == (self.value_fns@.contains(x) || x == f) by {
                if x == f {
                    assert(c.value_fns@[c.value_fns@.len() - 1] == x);
                }
                if self.value_fns@.contains(x) {
                    let j = choose|j: int| 0 <= j < self.value_fns@.len() && self.value_fns@[j] == x;
                    assert(c.value_fns@[j] == x);
                }
            }
        }
        assert(c@.value_fns =~= self@.value_fns.insert(f));
        c
    }

    /// Add a state predicate.
    pub fn with_state_pred(self, p: StatePred) -> (r: Self)
        ensures
            r@.state_preds == self@.state_preds.insert(p),
            r@.value_fns == self@.value_fns,
            r@.obligations == self@.obligations,
    {
        let mut c = self;
        c.state_preds.push(p);
        proof {
            assert forall|x| #[trigger] c.state_preds@.contains(x) == (self.state_preds@.contains(x) || x == p) by {
                if x == p {
                    assert(c.state_preds@[c.state_preds@.len() - 1] == x);
                }
                if self.state_preds@.contains(x) {
                    let j = choose|j: int| 0 <= j < self.state_preds@.len() && self.state_preds@[j] == x;
                    assert(c.state_preds@[j] == x);
                }
            }
        }
        assert(c@.state_preds =~= self@.state_preds.insert(p));
        c
    }

    /// Add a proof-obligation form.
    pub fn with_obligation(self, o: ObligationKind) -> (r: Self)
        ensures
            r@.obligations == self@.obligations.insert(o),
            r@.value_fns == self@.value_fns,
            r@.state_preds == self@.state_preds,
    {
        let mut c = self;
        c.obligations.push(o);
        proof {
            assert forall|x| #[trigger] c.obligations@.contains(x) == (self.obligations@.contains(x) || x == o) by {
                if x == o {
                    assert(c.obligations@[c.obligations@.len() - 1] == x);
                }
                if self.obligations@.contains(x) {
                    let j = choose|j: int| 0 <= j < self.obligations@.len() && self.obligations@[j] == x;
                    assert(c.obligations@[j] == x);
                }
            }
        }
        assert(c@.obligations =~= self@.obligations.insert(o));
        c
    }

    /// Whether a value function is supported.
    pub fn has_value_fn(&self, f: ValueFn) -> (r: bool)
        ensures
            r == self@.value_fns.contains(f),
    {
        let mut i: usize = 0;
        while i < self.value_fns.len()
            invariant
                i <= self.value_fns@.len(),
                forall|j: int| 0 <= j < i ==> self.value_fns@[j] != f,
            decreases self.value_fns@.len() - i,
        {
            if self.value_fns[i] == f {
                return true;
            }
            i = i + 1;
        }
        false
    }

    /// Whether a state predicate is supported.
    pub fn has_state_pred(&self, p: StatePred) -> (r: bool)
        ensures
            r == self@.state_preds.contains(p),
    {
        let mut i: usize = 0;
        while i < self.state_preds.len()
            invariant
                i <= self.state_preds@.len(),
                forall|j: int| 0 <= j < i ==> self.state_preds@[j] != p,
            decreases self.state_preds@.len() - i,
        {
            if self.state_preds[i] == p {
                return true;
            }
            i = i + 1;
        }
        false
    }

    /// Whether a proof-obligation form is supported.
    pub fn has_obligation(&self, o: ObligationKind) -> (r: bool)
        ensures
            r == self@.obligations.contains(o),
    {
        let mut i: usize = 0;
        while i < self.obligations.len()
            invariant
                i <= self.obligations@.len(),
                forall|j: int| 0 <= j < i ==> self.obligations@[j] != o,
            decreases self.obligations@.len() - i,
        {
            if self.obligations[i] == o {
                return true;
            }
            i = i + 1;
        }
        false
    }
}

} // verus!
