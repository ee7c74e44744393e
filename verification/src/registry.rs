//! The fixed signatures of comparison operators, value functions, state predicates and
//! symbols.
//!
//! These enumerations are the only avenue by which the calculus names operations on the
//! environment. They are fixed at the protocol level; an operator advertises which subset it
//! implements through a capability declaration.
use vstd::prelude::*;

use crate::bytes::str_equal;

verus! {

/// Comparison operators usable in `cmp(...)`.
#[derive(Copy, Clone, PartialEq, Eq, Debug, Structural)]
pub enum CmpOp {
    /// `=`
    Eq,
    /// `<`
    Lt,
    /// `<=`
    Le,
    /// `>`
    Gt,
    /// `>=`
    Ge,
}

impl CmpOp {
    /// The source name, as a spec value.
    pub open spec fn spec_name(self) -> Seq<char> {
        match self {
            CmpOp::Eq => "="@,
            CmpOp::Lt => "<"@,
            CmpOp::Le => "<="@,
            CmpOp::Gt => ">"@,
            CmpOp::Ge => ">="@,
        }
    }

    /// The source name of this item.
    pub fn name(self) -> (r: &'static str)
        ensures
            r@ == self.spec_name(),
    {
        match self {
            CmpOp::Eq => "=",
            CmpOp::Lt => "<",
            CmpOp::Le => "<=",
            CmpOp::Gt => ">",
            CmpOp::Ge => ">=",
        }
    }

    /// The item with a source name, if any.
    pub open spec fn spec_from_name(s: Seq<char>) -> Option<Self> {
        if s == "="@ {
            Some(CmpOp::Eq)
        } else if s == "<"@ {
            Some(CmpOp::Lt)
        } else if s == "<="@ {
            Some(CmpOp::Le)
        } else if s == ">"@ {
            Some(CmpOp::Gt)
        } else if s == ">="@ {
            Some(CmpOp::Ge)
        } else {
            None
        }
    }

    /// Look an item up by its source name.
    pub fn from_name(s: &str) -> (r: Option<Self>)
        ensures
            r matches Some(x) ==> x.spec_name() == s@,
            r == Self::spec_from_name(s@),
            r is None ==> forall|x: CmpOp| x.spec_name() != s@,
    {
        if str_equal(s, "=") {
            return Some(CmpOp::Eq);
        }
        if str_equal(s, "<") {
            return Some(CmpOp::Lt);
        }
        if str_equal(s, "<=") {
            return Some(CmpOp::Le);
        }
        if str_equal(s, ">") {
            return Some(CmpOp::Gt);
        }
        if str_equal(s, ">=") {
            return Some(CmpOp::Ge);
        }
        proof {
            assert forall|x: CmpOp| x.spec_name() != s@ by {
                match x {
                    CmpOp::Eq => {}
                    CmpOp::Lt => {}
                    CmpOp::Le => {}
                    CmpOp::Gt => {}
                    CmpOp::Ge => {}
                }
            }
        }
        None
    }

}
/// Value-producing functions (sort `V`): total, deterministic functions of the operation
/// and ledger state that never read the witness.
#[derive(Copy, Clone, PartialEq, Eq, Debug, Structural)]
pub enum ValueFn {
    /// Saturating addition.
    Add,
    /// Saturating subtraction.
    Sub,
    /// Saturating multiplication.
    Mul,
    /// Floor division; division by zero yields zero.
    Div,
    /// Minimum.
    Min,
    /// Maximum.
    Max,
    /// `pct(n, p) = div(mul(n, p), 100)`.
    Pct,
    /// `bps(n, bp) = div(mul(n, bp), 10000)`.
    Bps,
    /// The operation's type, as a symbol.
    OperationType,
    /// A named argument of the operation.
    OperationArg,
    /// The ast path targeted by a modification operation.
    OperationPath,
    /// The subtree introduced by an `insert` or `replace` operation.
    OperationSubtree,
    /// Blocks since the deposit's last authorized operation.
    BlocksSinceActivity,
    /// Blocks since the deposit was opened.
    BlocksSinceOpen,
    /// The deposit's current balance.
    DepositBalance,
    /// Cumulative `field` over a rolling window of `period` blocks.
    RollingWindow,
    /// Lifetime spend authorized via a descriptor path.
    CumulativeSpentVia,
    /// The subtree at a path in the current descriptor.
    AstRef,
    /// The head constructor at a path in the current descriptor.
    AstShapeAt,
    /// Construct a path value from a sequence of indices.
    Path,
    /// Blocks since the deposit last received a payment.
    BlocksSinceReceived,
}

impl ValueFn {
    /// The source name, as a spec value.
    pub open spec fn spec_name(self) -> Seq<char> {
        match self {
            ValueFn::Add => "add"@,
            ValueFn::Sub => "sub"@,
            ValueFn::Mul => "mul"@,
            ValueFn::Div => "div"@,
            ValueFn::Min => "min"@,
            ValueFn::Max => "max"@,
            ValueFn::Pct => "pct"@,
            ValueFn::Bps => "bps"@,
            ValueFn::OperationType => "operation_type"@,
            ValueFn::OperationArg => "operation_arg"@,
            ValueFn::OperationPath => "operation_path"@,
            ValueFn::OperationSubtree => "operation_subtree"@,
            ValueFn::BlocksSinceActivity => "blocks_since_activity"@,
            ValueFn::BlocksSinceOpen => "blocks_since_open"@,
            ValueFn::DepositBalance => "deposit_balance"@,
            ValueFn::RollingWindow => "rolling_window"@,
            ValueFn::CumulativeSpentVia => "cumulative_spent_via"@,
            ValueFn::AstRef => "ast_ref"@,
            ValueFn::AstShapeAt => "ast_shape_at"@,
            ValueFn::Path => "path"@,
            ValueFn::BlocksSinceReceived => "blocks_since_received"@,
        }
    }

    /// The source name of this item.
    pub fn name(self) -> (r: &'static str)
        ensures
            r@ == self.spec_name(),
    {
        match self {
            ValueFn::Add => "add",
            ValueFn::Sub => "sub",
            ValueFn::Mul => "mul",
            ValueFn::Div => "div",
            ValueFn::Min => "min",
            ValueFn::Max => "max",
            ValueFn::Pct => "pct",
            ValueFn::Bps => "bps",
            ValueFn::OperationType => "operation_type",
            ValueFn::OperationArg => "operation_arg",
            ValueFn::OperationPath => "operation_path",
            ValueFn::OperationSubtree => "operation_subtree",
            ValueFn::BlocksSinceActivity => "blocks_since_activity",
            ValueFn::BlocksSinceOpen => "blocks_since_open",
            ValueFn::DepositBalance => "deposit_balance",
            ValueFn::RollingWindow => "rolling_window",
            ValueFn::CumulativeSpentVia => "cumulative_spent_via",
            ValueFn::AstRef => "ast_ref",
            ValueFn::AstShapeAt => "ast_shape_at",
            ValueFn::Path => "path",
            ValueFn::BlocksSinceReceived => "blocks_since_received",
        }
    }

    /// The item with a source name, if any.
    pub open spec fn spec_from_name(s: Seq<char>) -> Option<Self> {
        if s == "add"@ {
            Some(ValueFn::Add)
        } else if s == "sub"@ {
            Some(ValueFn::Sub)
        } else if s == "mul"@ {
            Some(ValueFn::Mul)
        } else if s == "div"@ {
            Some(ValueFn::Div)
        } else if s == "min"@ {
            Some(ValueFn::Min)
        } else if s == "max"@ {
            Some(ValueFn::Max)
        } else if s == "pct"@ {
            Some(ValueFn::Pct)
        } else if s == "bps"@ {
            Some(ValueFn::Bps)
        } else if s == "operation_type"@ {
            Some(ValueFn::OperationType)
        } else if s == "operation_arg"@ {
            Some(ValueFn::OperationArg)
        } else if s == "operation_path"@ {
            Some(ValueFn::OperationPath)
        } else if s == "operation_subtree"@ {
            Some(ValueFn::OperationSubtree)
        } else if s == "blocks_since_activity"@ {
            Some(ValueFn::BlocksSinceActivity)
        } else if s == "blocks_since_open"@ {
            Some(ValueFn::BlocksSinceOpen)
        } else if s == "deposit_balance"@ {
            Some(ValueFn::DepositBalance)
        } else if s == "rolling_window"@ {
            Some(ValueFn::RollingWindow)
        } else if s == "cumulative_spent_via"@ {
            Some(ValueFn::CumulativeSpentVia)
        } else if s == "ast_ref"@ {
            Some(ValueFn::AstRef)
        } else if s == "ast_shape_at"@ {
            Some(ValueFn::AstShapeAt)
        } else if s == "path"@ {
            Some(ValueFn::Path)
        } else if s == "blocks_since_received"@ {
            Some(ValueFn::BlocksSinceReceived)
        } else {
            None
        }
    }

    /// Look an item up by its source name.
    pub fn from_name(s: &str) -> (r: Option<Self>)
        ensures
            r matches Some(x) ==> x.spec_name() == s@,
            r == Self::spec_from_name(s@),
            r is None ==> forall|x: ValueFn| x.spec_name() != s@,
    {
        if str_equal(s, "add") {
            return Some(ValueFn::Add);
        }
        if str_equal(s, "sub") {
            return Some(ValueFn::Sub);
        }
        if str_equal(s, "mul") {
            return Some(ValueFn::Mul);
        }
        if str_equal(s, "div") {
            return Some(ValueFn::Div);
        }
        if str_equal(s, "min") {
            return Some(ValueFn::Min);
        }
        if str_equal(s, "max") {
            return Some(ValueFn::Max);
        }
        if str_equal(s, "pct") {
            return Some(ValueFn::Pct);
        }
        if str_equal(s, "bps") {
            return Some(ValueFn::Bps);
        }
        if str_equal(s, "operation_type") {
            return Some(ValueFn::OperationType);
        }
        if str_equal(s, "operation_arg") {
            return Some(ValueFn::OperationArg);
        }
        if str_equal(s, "operation_path") {
            return Some(ValueFn::OperationPath);
        }
        if str_equal(s, "operation_subtree") {
            return Some(ValueFn::OperationSubtree);
        }
        if str_equal(s, "blocks_since_activity") {
            return Some(ValueFn::BlocksSinceActivity);
        }
        if str_equal(s, "blocks_since_open") {
            return Some(ValueFn::BlocksSinceOpen);
        }
        if str_equal(s, "deposit_balance") {
            return Some(ValueFn::DepositBalance);
        }
        if str_equal(s, "rolling_window") {
            return Some(ValueFn::RollingWindow);
        }
        if str_equal(s, "cumulative_spent_via") {
            return Some(ValueFn::CumulativeSpentVia);
        }
        if str_equal(s, "ast_ref") {
            return Some(ValueFn::AstRef);
        }
        if str_equal(s, "ast_shape_at") {
            return Some(ValueFn::AstShapeAt);
        }
        if str_equal(s, "path") {
            return Some(ValueFn::Path);
        }
        if str_equal(s, "blocks_since_received") {
            return Some(ValueFn::BlocksSinceReceived);
        }
        proof {
            assert forall|x: ValueFn| x.spec_name() != s@ by {
                match x {
                    ValueFn::Add => {}
                    ValueFn::Sub => {}
                    ValueFn::Mul => {}
                    ValueFn::Div => {}
                    ValueFn::Min => {}
                    ValueFn::Max => {}
                    ValueFn::Pct => {}
                    ValueFn::Bps => {}
                    ValueFn::OperationType => {}
                    ValueFn::OperationArg => {}
                    ValueFn::OperationPath => {}
                    ValueFn::OperationSubtree => {}
                    ValueFn::BlocksSinceActivity => {}
                    ValueFn::BlocksSinceOpen => {}
                    ValueFn::DepositBalance => {}
                    ValueFn::RollingWindow => {}
                    ValueFn::CumulativeSpentVia => {}
                    ValueFn::AstRef => {}
                    ValueFn::AstShapeAt => {}
                    ValueFn::Path => {}
                    ValueFn::BlocksSinceReceived => {}
                }
            }
        }
        None
    }

}
/// Boolean state predicates: total, deterministic functions of the operation and ledger
/// state, constant in the witness. They may appear under negation and as `if` conditions.
#[derive(Copy, Clone, PartialEq, Eq, Debug, Structural)]
pub enum StatePred {
    /// `older(n)`: at least `n` blocks since the deposit's last activity.
    Older,
    /// `after(n)`: an absolute height has been reached.
    After,
    /// The operation amount is at most `n`.
    AmountAtMost,
    /// The operation amount is between `low` and `high`.
    AmountInRange,
    /// The operation amount is at most `p` percent of the deposit balance.
    AmountAtMostPct,
    /// The operation destination equals an id.
    DestinationIs,
    /// The operation destination is in a set.
    DestinationIn,
    /// The balance is at least `n`.
    BalanceAtLeast,
    /// The balance is at most `n`.
    BalanceAtMost,
    /// At least `n` blocks since last activity.
    BlocksSinceActivityAtLeast,
    /// Fewer than `n` blocks since deposit open.
    BlocksSinceOpenBelow,
    /// Rolling-window amount over `period` is at most `n`.
    RollingAmountBelow,
    /// Rolling-window amount over `period` is at most `p` percent of balance.
    RollingAmountBelowPct,
    /// Structural equality of a value with the subtree at a path.
    SubtreeAt,
    /// At least `n` blocks since deposit open.
    BlocksSinceOpenAtLeast,
    /// At least `n` blocks since the deposit last received a payment.
    BlocksSinceReceivedAtLeast,
}

impl StatePred {
    /// The source name, as a spec value.
    pub open spec fn spec_name(self) -> Seq<char> {
        match self {
            StatePred::Older => "older"@,
            StatePred::After => "after"@,
            StatePred::AmountAtMost => "amount_at_most"@,
            StatePred::AmountInRange => "amount_in_range"@,
            StatePred::AmountAtMostPct => "amount_at_most_pct"@,
            StatePred::DestinationIs => "destination_is"@,
            StatePred::DestinationIn => "destination_in"@,
            StatePred::BalanceAtLeast => "balance_at_least"@,
            StatePred::BalanceAtMost => "balance_at_most"@,
            StatePred::BlocksSinceActivityAtLeast => "blocks_since_activity_at_least"@,
            StatePred::BlocksSinceOpenBelow => "blocks_since_open_below"@,
            StatePred::RollingAmountBelow => "rolling_amount_below"@,
            StatePred::RollingAmountBelowPct => "rolling_amount_below_pct"@,
            StatePred::SubtreeAt => "subtree_at"@,
            StatePred::BlocksSinceOpenAtLeast => "blocks_since_open_at_least"@,
            StatePred::BlocksSinceReceivedAtLeast => "blocks_since_received_at_least"@,
        }
    }

    /// The source name of this item.
    pub fn name(self) -> (r: &'static str)
        ensures
            r@ == self.spec_name(),
    {
        match self {
            StatePred::Older => "older",
            StatePred::After => "after",
            StatePred::AmountAtMost => "amount_at_most",
            StatePred::AmountInRange => "amount_in_range",
            StatePred::AmountAtMostPct => "amount_at_most_pct",
            StatePred::DestinationIs => "destination_is",
            StatePred::DestinationIn => "destination_in",
            StatePred::BalanceAtLeast => "balance_at_least",
            StatePred::BalanceAtMost => "balance_at_most",
            StatePred::BlocksSinceActivityAtLeast => "blocks_since_activity_at_least",
            StatePred::BlocksSinceOpenBelow => "blocks_since_open_below",
            StatePred::RollingAmountBelow => "rolling_amount_below",
            StatePred::RollingAmountBelowPct => "rolling_amount_below_pct",
            StatePred::SubtreeAt => "subtree_at",
            StatePred::BlocksSinceOpenAtLeast => "blocks_since_open_at_least",
            StatePred::BlocksSinceReceivedAtLeast => "blocks_since_received_at_least",
        }
    }

    /// The item with a source name, if any.
    pub open spec fn spec_from_name(s: Seq<char>) -> Option<Self> {
        if s == "older"@ {
            Some(StatePred::Older)
        } else if s == "after"@ {
            Some(StatePred::After)
        } else if s == "amount_at_most"@ {
            Some(StatePred::AmountAtMost)
        } else if s == "amount_in_range"@ {
            Some(StatePred::AmountInRange)
        } else if s == "amount_at_most_pct"@ {
            Some(StatePred::AmountAtMostPct)
        } else if s == "destination_is"@ {
            Some(StatePred::DestinationIs)
        } else if s == "destination_in"@ {
            Some(StatePred::DestinationIn)
        } else if s == "balance_at_least"@ {
            Some(StatePred::BalanceAtLeast)
        } else if s == "balance_at_most"@ {
            Some(StatePred::BalanceAtMost)
        } else if s == "blocks_since_activity_at_least"@ {
            Some(StatePred::BlocksSinceActivityAtLeast)
        } else if s == "blocks_since_open_below"@ {
            Some(StatePred::BlocksSinceOpenBelow)
        } else if s == "rolling_amount_below"@ {
            Some(StatePred::RollingAmountBelow)
        } else if s == "rolling_amount_below_pct"@ {
            Some(StatePred::RollingAmountBelowPct)
        } else if s == "subtree_at"@ {
            Some(StatePred::SubtreeAt)
        } else if s == "blocks_since_open_at_least"@ {
            Some(StatePred::BlocksSinceOpenAtLeast)
        } else if s == "blocks_since_received_at_least"@ {
            Some(StatePred::BlocksSinceReceivedAtLeast)
        } else {
            None
        }
    }

    /// Look an item up by its source name.
    pub fn from_name(s: &str) -> (r: Option<Self>)
        ensures
            r matches Some(x) ==> x.spec_name() == s@,
            r == Self::spec_from_name(s@),
            r is None ==> forall|x: StatePred| x.spec_name() != s@,
    {
        if str_equal(s, "older") {
            return Some(StatePred::Older);
        }
        if str_equal(s, "after") {
            return Some(StatePred::After);
        }
        if str_equal(s, "amount_at_most") {
            return Some(StatePred::AmountAtMost);
        }
        if str_equal(s, "amount_in_range") {
            return Some(StatePred::AmountInRange);
        }
        if str_equal(s, "amount_at_most_pct") {
            return Some(StatePred::AmountAtMostPct);
        }
        if str_equal(s, "destination_is") {
            return Some(StatePred::DestinationIs);
        }
        if str_equal(s, "destination_in") {
            return Some(StatePred::DestinationIn);
        }
        if str_equal(s, "balance_at_least") {
            return Some(StatePred::BalanceAtLeast);
        }
        if str_equal(s, "balance_at_most") {
            return Some(StatePred::BalanceAtMost);
        }
        if str_equal(s, "blocks_since_activity_at_least") {
            return Some(StatePred::BlocksSinceActivityAtLeast);
        }
        if str_equal(s, "blocks_since_open_below") {
            return Some(StatePred::BlocksSinceOpenBelow);
        }
        if str_equal(s, "rolling_amount_below") {
            return Some(StatePred::RollingAmountBelow);
        }
        if str_equal(s, "rolling_amount_below_pct") {
            return Some(StatePred::RollingAmountBelowPct);
        }
        if str_equal(s, "subtree_at") {
            return Some(StatePred::SubtreeAt);
        }
        if str_equal(s, "blocks_since_open_at_least") {
            return Some(StatePred::BlocksSinceOpenAtLeast);
        }
        if str_equal(s, "blocks_since_received_at_least") {
            return Some(StatePred::BlocksSinceReceivedAtLeast);
        }
        proof {
            assert forall|x: StatePred| x.spec_name() != s@ by {
                match x {
                    StatePred::Older => {}
                    StatePred::After => {}
                    StatePred::AmountAtMost => {}
                    StatePred::AmountInRange => {}
                    StatePred::AmountAtMostPct => {}
                    StatePred::DestinationIs => {}
                    StatePred::DestinationIn => {}
                    StatePred::BalanceAtLeast => {}
                    StatePred::BalanceAtMost => {}
                    StatePred::BlocksSinceActivityAtLeast => {}
                    StatePred::BlocksSinceOpenBelow => {}
                    StatePred::RollingAmountBelow => {}
                    StatePred::RollingAmountBelowPct => {}
                    StatePred::SubtreeAt => {}
                    StatePred::BlocksSinceOpenAtLeast => {}
                    StatePred::BlocksSinceReceivedAtLeast => {}
                }
            }
        }
        None
    }

}
/// A symbol: an operation-type tag or a `match` branch tag (e.g. `spend`, `insert`).
#[derive(Clone, PartialEq, Eq, Debug)]
pub struct Symbol(pub String);

impl View for Symbol {
    type V = Seq<char>;

    open spec fn view(&self) -> Seq<char> {
        self.0@
    }
}

impl Symbol {
    /// Construct a symbol from a string.
    pub fn new(s: &str) -> (r: Symbol)
        ensures
            r@ == s@,
    {
        Symbol(s.to_owned())
    }

    /// The symbol's text.
    pub fn as_str(&self) -> (r: &str)
        ensures
            r@ == self@,
    {
        self.0.as_str()
    }

    /// Whether two symbols have the same text.
    pub fn same(&self, other: &Symbol) -> (r: bool)
        ensures
            r == (self@ == other@),
    {
        str_equal(self.0.as_str(), other.0.as_str())
    }
}

/// A comparison operator's source name looks it up, and a name looks up only the operator it
/// names.
pub proof fn lemma_cmp_op_names(o: CmpOp, s: Seq<char>)
    ensures
        CmpOp::spec_from_name(o.spec_name()) == Some(o),
        CmpOp::spec_from_name(s) == Some(o) ==> o.spec_name() == s,
{
    reveal_strlit("=");
    reveal_strlit("<");
    reveal_strlit("<=");
    reveal_strlit(">");
    reveal_strlit(">=");
    assert("="@ != "<"@ && "="@ != ">"@ && "<"@ != ">"@) by {
        assert("="@[0] != "<"@[0] && "="@[0] != ">"@[0] && "<"@[0] != ">"@[0]);
    }
    assert("<="@ != ">="@) by {
        assert("<="@[0] != ">="@[0]);
    }
    assert("="@.len() != "<="@.len() && "="@.len() != ">="@.len());
    assert("<"@.len() != "<="@.len() && "<"@.len() != ">="@.len());
    assert(">"@.len() != "<="@.len() && ">"@.len() != ">="@.len());
}

/// A value function's source name looks it up, and a name looks up only the function it names.
pub proof fn lemma_value_fn_names(f: ValueFn, s: Seq<char>)
    ensures
        ValueFn::spec_from_name(f.spec_name()) == Some(f),
        ValueFn::spec_from_name(s) == Some(f) ==> f.spec_name() == s,
{
    crate::source_laws::lemma_value_fn_facts(f);
}

/// A state predicate's source name looks it up, and a name looks up only the predicate it
/// names.
pub proof fn lemma_state_pred_names(p: StatePred, s: Seq<char>)
    ensures
        StatePred::spec_from_name(p.spec_name()) == Some(p),
        StatePred::spec_from_name(s) == Some(p) ==> p.spec_name() == s,
{
    crate::source_laws::lemma_state_pred_facts(p);
}

} // verus!
