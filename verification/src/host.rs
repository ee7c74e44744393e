//! The operation under authorization.
//!
//! [`Operation`] is the interface a host implements; [`OperationData`] is the concrete,
//! transmittable operation the calculus evaluates against and a fraud proof carries.
use vstd::prelude::*;

use crate::ast::{BTerm, BTermV, Value, ValueV, copy_path, copy_term, copy_value};
use crate::maps::{NameMap, lookup};
use crate::registry::Symbol;

verus! {

/// The operation currently being authorized, as a host exposes it.
pub trait Operation {
    /// The operation's type, as a symbol (`spend`, `insert`, ...).
    fn op_type(&self) -> Symbol;

    /// A named argument of the operation (`amount`, `destination`, ...), if present.
    fn arg(&self, name: &str) -> Option<Value>;

    /// The ast path targeted by a modification operation, if this is one.
    fn path(&self) -> Option<Vec<usize>>;

    /// The subtree introduced by an `insert` or `replace`, if this is one.
    fn subtree(&self) -> Option<BTerm>;

    /// The deposit's 32-byte id, which makes signatures non-replayable across deposits.
    fn deposit_id(&self) -> [u8; 32];

    /// The operation's nonce.
    fn nonce(&self) -> u64;

    /// The block height after which a signature over this operation is invalid.
    fn expiry(&self) -> u32;
}

/// A concrete operation: its type, named arguments, deposit id, nonce and expiry. Modification
/// operations carry their target in the `path` argument and their new subtree in `subtree`.
#[derive(Debug, PartialEq, Eq)]
pub struct OperationData {
    /// The operation's type.
    pub op_type: Symbol,
    /// Named arguments, sorted by name.
    pub args: NameMap<Value>,
    /// The deposit's id.
    pub deposit_id: [u8; 32],
    /// The operation's nonce.
    pub nonce: u64,
    /// The height after which a signature over this operation is invalid.
    pub expiry: u32,
}

/// The view of an [`OperationData`].
pub struct OperationV {
    pub op_type: Seq<char>,
    pub args: Seq<(Seq<char>, ValueV)>,
    pub deposit_id: Seq<u8>,
    pub nonce: u64,
    pub expiry: u32,
}

impl View for OperationData {
    type V = OperationV;

    open spec fn view(&self) -> OperationV {
        OperationV {
            op_type: self.op_type@,
            args: self.args@,
            deposit_id: self.deposit_id@,
            nonce: self.nonce,
            expiry: self.expiry,
        }
    }
}

/// The path a modification operation targets: its `path` argument, when that is a path.
pub open spec fn op_path(o: OperationV) -> Option<Seq<usize>> {
    match lookup(o.args, "path"@) {
        Some(ValueV::Path(p)) => Some(p),
        _ => None,
    }
}

/// The subtree a modification introduces: its `subtree` argument, when that is a subtree.
pub open spec fn op_subtree(o: OperationV) -> Option<BTermV> {
    match lookup(o.args, "subtree"@) {
        Some(ValueV::Subtree(t)) => Some(*t),
        _ => None,
    }
}

impl OperationData {
    /// The argument named `name`, if present.
    pub fn get_arg(&self, name: &str) -> (r: Option<Value>)
        ensures
            match lookup(self@.args, name@) {
                Some(v) => r matches Some(x) && x@ == v,
                None => r is None,
            },
    {
        match self.args.get(name) {
            Some(v) => Some(copy_value(v)),
            None => None,
        }
    }

    /// The path a modification targets.
    pub fn get_path(&self) -> (r: Option<Vec<usize>>)
        ensures
            match op_path(self@) {
                Some(p) => r matches Some(x) && x@ == p,
                None => r is None,
            },
    {
        match self.args.get("path") {
            Some(Value::Path(p)) => Some(copy_path(p)),
            _ => None,
        }
    }

    /// The subtree a modification introduces.
    pub fn get_subtree(&self) -> (r: Option<BTerm>)
        ensures
            match op_subtree(self@) {
                Some(t) => r matches Some(x) && x@ == t,
                None => r is None,
            },
    {
        match self.args.get("subtree") {
            Some(Value::Subtree(t)) => Some(copy_term(t)),
            _ => None,
        }
    }
}

impl Operation for OperationData {
    fn op_type(&self) -> (r: Symbol)
        ensures
            r@ == self@.op_type,
    {
        Symbol(self.op_type.0.clone())
    }

    fn arg(&self, name: &str) -> (r: Option<Value>)
        ensures
            match lookup(self@.args, name@) {
                Some(v) => r matches Some(x) && x@ == v,
                None => r is None,
            },
    {
        self.get_arg(name)
    }

    fn path(&self) -> (r: Option<Vec<usize>>)
        ensures
            match op_path(self@) {
                Some(p) => r matches Some(x) && x@ == p,
                None => r is None,
            },
    {
        self.get_path()
    }

    fn subtree(&self) -> (r: Option<BTerm>)
        ensures
            match op_subtree(self@) {
                Some(t) => r matches Some(x) && x@ == t,
                None => r is None,
            },
    {
        self.get_subtree()
    }

    fn deposit_id(&self) -> (r: [u8; 32])
        ensures
            r@ == self@.deposit_id,
    {
        self.deposit_id
    }

    fn nonce(&self) -> (r: u64)
        ensures
            r == self@.nonce,
    {
        self.nonce
    }

    fn expiry(&self) -> (r: u32)
        ensures
            r == self@.expiry,
    {
        self.expiry
    }
}

} // verus!
