//! The sort-indexed term calculus and the values it computes with.
//!
//! The three sorts are three separate types: [`BTerm`] (authorization decisions), [`VTerm`]
//! (values) and [`Obligation`] (proof obligations, injected into `B` by [`BTerm::Prove`]). Because
//! `cmp`, `state` and the `match` scrutinee hold [`VTerm`] children, which cannot contain a
//! [`BTerm::Prove`], "`prove` never appears in a value position" holds by construction.
//!
//! Each executable type has a mathematical view (the `*V` types below) over which contracts are
//! stated.
use vstd::prelude::*;

use crate::registry::{CmpOp, StatePred, Symbol, ValueFn};

verus! {

/// A hash value, tagged with the hash function that produced it.
#[derive(Clone, Copy, PartialEq, Eq, Debug)]
pub enum HashValue {
    /// SHA-256.
    Sha256([u8; 32]),
    /// Double SHA-256.
    Hash256([u8; 32]),
    /// RIPEMD-160.
    Ripemd160([u8; 20]),
    /// SHA-256 followed by RIPEMD-160.
    Hash160([u8; 20]),
}

/// The hash functions a [`HashValue`] may be tagged with.
#[derive(Clone, Copy, PartialEq, Eq, Debug, Structural)]
pub enum HashFn {
    /// SHA-256.
    Sha256,
    /// Double SHA-256.
    Hash256,
    /// RIPEMD-160.
    Ripemd160,
    /// SHA-256 followed by RIPEMD-160.
    Hash160,
}

/// The view of a hash value: its function and its digest.
pub struct HashV {
    pub func: HashFn,
    pub digest: Seq<u8>,
}

impl View for HashValue {
    type V = HashV;

    open spec fn view(&self) -> HashV {
        match self {
            HashValue::Sha256(d) => HashV { func: HashFn::Sha256, digest: d@ },
            HashValue::Hash256(d) => HashV { func: HashFn::Hash256, digest: d@ },
            HashValue::Ripemd160(d) => HashV { func: HashFn::Ripemd160, digest: d@ },
            HashValue::Hash160(d) => HashV { func: HashFn::Hash160, digest: d@ },
        }
    }
}

/// The digest length of each hash function.
pub open spec fn digest_len(f: HashFn) -> nat {
    match f {
        HashFn::Sha256 | HashFn::Hash256 => 32,
        HashFn::Ripemd160 | HashFn::Hash160 => 20,
    }
}

/// An attestation schema: the second argument of `attest(oracle, schema)`.
#[derive(Clone, Copy, PartialEq, Eq, Debug, Structural)]
pub enum Schema {
    /// A price attestation that must match the operation amount within `tolerance_bps` basis
    /// points. Written `price_schema(tolerance_bps)` in source.
    PriceWithinBps {
        /// Tolerance in basis points.
        tolerance_bps: u32,
    },
}

impl View for Schema {
    type V = Schema;

    open spec fn view(&self) -> Schema {
        *self
    }
}

/// A runtime value (sort `V`).
#[derive(PartialEq, Eq, Debug)]
pub enum Value {
    /// A bounded integer.
    Int(i128),
    /// A public key, by its textual form.
    Key(String),
    /// A tagged hash.
    Hash(HashValue),
    /// Opaque bytes: destinations, deposit ids and other identifiers.
    Bytes(Vec<u8>),
    /// A path into a term.
    Path(Vec<usize>),
    /// A subtree reified as data.
    Subtree(Box<BTerm>),
    /// A list of values.
    List(Vec<Value>),
    /// A symbol (an operation-type or branch tag).
    Symbol(Symbol),
}

/// A term of sort `B`: an authorization decision.
#[derive(PartialEq, Eq, Debug)]
pub enum BTerm {
    /// `true` (trivially satisfied) or `false` (unsatisfiable).
    Const(bool),
    /// Holds when every child holds.
    And(Vec<BTerm>),
    /// Holds when some child holds.
    Or(Vec<BTerm>),
    /// Holds when at least `k` children hold.
    Thresh(usize, Vec<BTerm>),
    /// Negation. The argument may not contain a proof obligation.
    Not(Box<BTerm>),
    /// Conditional. The condition may not contain a proof obligation.
    If(Box<BTerm>, Box<BTerm>, Box<BTerm>),
    /// Multi-way dispatch on a value, with a mandatory default branch.
    Match {
        /// The value matched against the branch tags.
        scrutinee: VTerm,
        /// Tagged branches.
        arms: Vec<(Symbol, BTerm)>,
        /// The `else` branch, taken when no tag matches.
        default: Box<BTerm>,
    },
    /// Comparison of two values.
    Cmp(CmpOp, VTerm, VTerm),
    /// A state predicate applied to value arguments.
    State(StatePred, Vec<VTerm>),
    /// A proof obligation, discharged by the witness.
    Prove(Obligation),
}

/// A term of sort `V`: a value expression, never reading the witness.
#[derive(PartialEq, Eq, Debug)]
pub enum VTerm {
    /// A literal value.
    Lit(Value),
    /// A reference to a `with(...)` constant.
    Var(String),
    /// A value function applied to value arguments.
    Op(ValueFn, Vec<VTerm>),
}

/// A term of sort `O`: a proof obligation, the only construct that reads the witness.
#[derive(PartialEq, Eq, Debug)]
pub enum Obligation {
    /// Signed by a key.
    Pk(VTerm),
    /// Signed by a key whose hash is given (the witness reveals the key).
    PkH(VTerm),
    /// Signed by at least one key in a list.
    PkAny(VTerm),
    /// Signed by at least `k` distinct keys in a list.
    Multi(usize, VTerm),
    /// A preimage of a hash is revealed.
    Hashlock(VTerm),
    /// An oracle attestation matching a schema is supplied. Only the oracle's presence in the
    /// witness is checked; the attestation payload is not verified.
    Attest(VTerm, Schema),
}

// ---------------------------------------------------------------------------------------------
// Views
// ---------------------------------------------------------------------------------------------

/// The view of a [`Value`].
pub enum ValueV {
    Int(i128),
    Key(Seq<char>),
    Hash(HashV),
    Bytes(Seq<u8>),
    Path(Seq<usize>),
    Subtree(Box<BTermV>),
    List(Seq<ValueV>),
    Symbol(Seq<char>),
}

/// The view of a [`BTerm`].
pub enum BTermV {
    Const(bool),
    And(Seq<BTermV>),
    Or(Seq<BTermV>),
    Thresh(usize, Seq<BTermV>),
    Not(Box<BTermV>),
    If(Box<BTermV>, Box<BTermV>, Box<BTermV>),
    Match(VTermV, Seq<(Seq<char>, BTermV)>, Box<BTermV>),
    Cmp(CmpOp, VTermV, VTermV),
    State(StatePred, Seq<VTermV>),
    Prove(ObligationV),
}

/// The view of a [`VTerm`].
pub enum VTermV {
    Lit(ValueV),
    Var(Seq<char>),
    Op(ValueFn, Seq<VTermV>),
}

/// The view of an [`Obligation`].
pub enum ObligationV {
    Pk(VTermV),
    PkH(VTermV),
    PkAny(VTermV),
    Multi(usize, VTermV),
    Hashlock(VTermV),
    Attest(VTermV, Schema),
}

pub open spec fn value_view(v: Value) -> ValueV
    decreases v,
{
    match v {
        Value::Int(n) => ValueV::Int(n),
        Value::Key(k) => ValueV::Key(k@),
        Value::Hash(h) => ValueV::Hash(h@),
        Value::Bytes(b) => ValueV::Bytes(b@),
        Value::Path(p) => ValueV::Path(p@),
        Value::Subtree(t) => ValueV::Subtree(Box::new(term_view(*t))),
        Value::List(items) => ValueV::List(values_view(items@)),
        Value::Symbol(s) => ValueV::Symbol(s@),
    }
}

pub open spec fn values_view(s: Seq<Value>) -> Seq<ValueV>
    decreases s,
{
    if s.len() == 0 {
        Seq::empty()
    } else {
        values_view(s.drop_last()).push(value_view(s.last()))
    }
}

pub open spec fn term_view(t: BTerm) -> BTermV
    decreases t,
{
    match t {
        BTerm::Const(b) => BTermV::Const(b),
        BTerm::And(bs) => BTermV::And(terms_view(bs@)),
        BTerm::Or(bs) => BTermV::Or(terms_view(bs@)),
        BTerm::Thresh(k, bs) => BTermV::Thresh(k, terms_view(bs@)),
        BTerm::Not(b) => BTermV::Not(Box::new(term_view(*b))),
        BTerm::If(c, t1, e) => BTermV::If(
            Box::new(term_view(*c)),
            Box::new(term_view(*t1)),
            Box::new(term_view(*e)),
        ),
        BTerm::Match { scrutinee, arms, default } => BTermV::Match(
            vterm_view(scrutinee),
            arms_view(arms@),
            Box::new(term_view(*default)),
        ),
        BTerm::Cmp(op, a, b) => BTermV::Cmp(op, vterm_view(a), vterm_view(b)),
        BTerm::State(p, args) => BTermV::State(p, vterms_view(args@)),
        BTerm::Prove(o) => BTermV::Prove(obligation_view(o)),
    }
}

pub open spec fn terms_view(s: Seq<BTerm>) -> Seq<BTermV>
    decreases s,
{
    if s.len() == 0 {
        Seq::empty()
    } else {
        terms_view(s.drop_last()).push(term_view(s.last()))
    }
}

pub open spec fn arms_view(s: Seq<(Symbol, BTerm)>) -> Seq<(Seq<char>, BTermV)>
    decreases s,
{
    if s.len() == 0 {
        Seq::empty()
    } else {
        arms_view(s.drop_last()).push((s.last().0@, term_view(s.last().1)))
    }
}

pub open spec fn vterm_view(t: VTerm) -> VTermV
    decreases t,
{
    match t {
        VTerm::Lit(v) => VTermV::Lit(value_view(v)),
        VTerm::Var(name) => VTermV::Var(name@),
        VTerm::Op(f, args) => VTermV::Op(f, vterms_view(args@)),
    }
}

pub open spec fn vterms_view(s: Seq<VTerm>) -> Seq<VTermV>
    decreases s,
{
    if s.len() == 0 {
        Seq::empty()
    } else {
        vterms_view(s.drop_last()).push(vterm_view(s.last()))
    }
}

pub open spec fn obligation_view(o: Obligation) -> ObligationV
    decreases o,
{
    match o {
        Obligation::Pk(v) => ObligationV::Pk(vterm_view(v)),
        Obligation::PkH(v) => ObligationV::PkH(vterm_view(v)),
        Obligation::PkAny(v) => ObligationV::PkAny(vterm_view(v)),
        Obligation::Multi(k, v) => ObligationV::Multi(k, vterm_view(v)),
        Obligation::Hashlock(v) => ObligationV::Hashlock(vterm_view(v)),
        Obligation::Attest(v, s) => ObligationV::Attest(vterm_view(v), s),
    }
}

impl View for Value {
    type V = ValueV;

    open spec fn view(&self) -> ValueV {
        value_view(*self)
    }
}

impl View for BTerm {
    type V = BTermV;

    open spec fn view(&self) -> BTermV {
        term_view(*self)
    }
}

impl View for VTerm {
    type V = VTermV;

    open spec fn view(&self) -> VTermV {
        vterm_view(*self)
    }
}

impl View for Obligation {
    type V = ObligationV;

    open spec fn view(&self) -> ObligationV {
        obligation_view(*self)
    }
}

pub broadcast proof fn lemma_values_view(s: Seq<Value>)
    ensures
        #[trigger] values_view(s).len() == s.len(),
        forall|i: int| 0 <= i < s.len() ==> #[trigger] values_view(s)[i] == value_view(s[i]),
    decreases s.len(),
{
    if s.len() > 0 {
        lemma_values_view(s.drop_last());
    }
}

pub broadcast proof fn lemma_terms_view(s: Seq<BTerm>)
    ensures
        #[trigger] terms_view(s).len() == s.len(),
        forall|i: int| 0 <= i < s.len() ==> #[trigger] terms_view(s)[i] == term_view(s[i]),
    decreases s.len(),
{
    if s.len() > 0 {
        lemma_terms_view(s.drop_last());
    }
}

pub broadcast proof fn lemma_arms_view(s: Seq<(Symbol, BTerm)>)
    ensures
        #[trigger] arms_view(s).len() == s.len(),
        forall|i: int|
            0 <= i < s.len() ==> #[trigger] arms_view(s)[i] == (s[i].0@, term_view(s[i].1)),
    decreases s.len(),
{
    if s.len() > 0 {
        lemma_arms_view(s.drop_last());
    }
}

pub broadcast proof fn lemma_vterms_view(s: Seq<VTerm>)
    ensures
        #[trigger] vterms_view(s).len() == s.len(),
        forall|i: int| 0 <= i < s.len() ==> #[trigger] vterms_view(s)[i] == vterm_view(s[i]),
    decreases s.len(),
{
    if s.len() > 0 {
        lemma_vterms_view(s.drop_last());
    }
}

pub broadcast group group_views {
    lemma_values_view,
    lemma_terms_view,
    lemma_arms_view,
    lemma_vterms_view,
}

// ---------------------------------------------------------------------------------------------
// Copies
// ---------------------------------------------------------------------------------------------

/// A copy of a value, with the same view.
pub fn copy_value(v: &Value) -> (r: Value)
    ensures
        r@ == v@,
    decreases v,
{
    match v {
        Value::Int(n) => Value::Int(*n),
        Value::Key(k) => Value::Key(k.clone()),
        Value::Hash(h) => Value::Hash(*h),
        Value::Bytes(b) => Value::Bytes(copy_bytes(b)),
        Value::Path(p) => Value::Path(copy_path(p)),
        Value::Subtree(t) => Value::Subtree(Box::new(copy_term(t))),
        Value::List(items) => Value::List(copy_values(items)),
        Value::Symbol(s) => Value::Symbol(Symbol(s.0.clone())),
    }
}

/// A copy of a byte vector.
pub fn copy_bytes(b: &Vec<u8>) -> (r: Vec<u8>)
    ensures
        r@ == b@,
{
    let mut out: Vec<u8> = Vec::new();
    let mut i: usize = 0;
    while i < b.len()
        invariant
            i <= b.len(),
            out@ == b@.take(i as int),
        decreases b.len() - i,
    {
        out.push(b[i]);
        i = i + 1;
        assert(out@ =~= b@.take(i as int));
    }
    assert(b@.take(b.len() as int) =~= b@);
    out
}

/// A copy of a path.
pub fn copy_path(b: &Vec<usize>) -> (r: Vec<usize>)
    ensures
        r@ == b@,
{
    let mut out: Vec<usize> = Vec::new();
    let mut i: usize = 0;
    while i < b.len()
        invariant
            i <= b.len(),
            out@ == b@.take(i as int),
        decreases b.len() - i,
    {
        out.push(b[i]);
        i = i + 1;
        assert(out@ =~= b@.take(i as int));
    }
    assert(b@.take(b.len() as int) =~= b@);
    out
}

/// A copy of a list of values.
pub fn copy_values(s: &Vec<Value>) -> (r: Vec<Value>)
    ensures
        values_view(r@) == values_view(s@),
    decreases s,
{
    broadcast use group_views;

    let mut out: Vec<Value> = Vec::new();
    let mut i: usize = 0;
    while i < s.len()
        invariant
            i <= s.len(),
            out@.len() == i,
            forall|j: int| 0 <= j < i ==> #[trigger] value_view(out@[j]) == value_view(s@[j]),
        decreases s.len() - i,
    {
        let c = copy_value(&s[i]);
        out.push(c);
        i = i + 1;
    }
    assert(values_view(out@) =~= values_view(s@));
    out
}

/// A copy of a term, with the same view.
pub fn copy_term(t: &BTerm) -> (r: BTerm)
    ensures
        r@ == t@,
    decreases t,
{
    match t {
        BTerm::Const(b) => BTerm::Const(*b),
        BTerm::And(bs) => BTerm::And(copy_terms(bs)),
        BTerm::Or(bs) => BTerm::Or(copy_terms(bs)),
        BTerm::Thresh(k, bs) => BTerm::Thresh(*k, copy_terms(bs)),
        BTerm::Not(b) => BTerm::Not(Box::new(copy_term(b))),
        BTerm::If(c, t1, e) => BTerm::If(
            Box::new(copy_term(c)),
            Box::new(copy_term(t1)),
            Box::new(copy_term(e)),
        ),
        BTerm::Match { scrutinee, arms, default } => BTerm::Match {
            scrutinee: copy_vterm(scrutinee),
            arms: copy_arms(arms),
            default: Box::new(copy_term(default)),
        },
        BTerm::Cmp(op, a, b) => BTerm::Cmp(*op, copy_vterm(a), copy_vterm(b)),
        BTerm::State(p, args) => BTerm::State(*p, copy_vterms(args)),
        BTerm::Prove(o) => BTerm::Prove(copy_obligation(o)),
    }
}

/// A copy of a list of terms.
pub fn copy_terms(s: &Vec<BTerm>) -> (r: Vec<BTerm>)
    ensures
        terms_view(r@) == terms_view(s@),
    decreases s,
{
    broadcast use group_views;

    let mut out: Vec<BTerm> = Vec::new();
    let mut i: usize = 0;
    while i < s.len()
        invariant
            i <= s.len(),
            out@.len() == i,
            forall|j: int| 0 <= j < i ==> #[trigger] term_view(out@[j]) == term_view(s@[j]),
        decreases s.len() - i,
    {
        let c = copy_term(&s[i]);
        out.push(c);
        i = i + 1;
    }
    assert(terms_view(out@) =~= terms_view(s@));
    out
}

/// A copy of a list of `match` arms.
pub fn copy_arms(s: &Vec<(Symbol, BTerm)>) -> (r: Vec<(Symbol, BTerm)>)
    ensures
        arms_view(r@) == arms_view(s@),
    decreases s,
{
    broadcast use group_views;

    let mut out: Vec<(Symbol, BTerm)> = Vec::new();
    let mut i: usize = 0;
    while i < s.len()
        invariant
            i <= s.len(),
            out@.len() == i,
            forall|j: int|
                0 <= j < i ==> #[trigger] out@[j].0@ == s@[j].0@ && term_view(out@[j].1)
                    == term_view(s@[j].1),
        decreases s.len() - i,
    {
        let tag = Symbol(s[i].0.0.clone());
        let body = copy_term(&s[i].1);
        out.push((tag, body));
        i = i + 1;
    }
    assert(arms_view(out@) =~= arms_view(s@));
    out
}

/// A copy of a value term.
pub fn copy_vterm(t: &VTerm) -> (r: VTerm)
    ensures
        r@ == t@,
    decreases t,
{
    match t {
        VTerm::Lit(v) => VTerm::Lit(copy_value(v)),
        VTerm::Var(name) => VTerm::Var(name.clone()),
        VTerm::Op(f, args) => VTerm::Op(*f, copy_vterms(args)),
    }
}

/// A copy of a list of value terms.
pub fn copy_vterms(s: &Vec<VTerm>) -> (r: Vec<VTerm>)
    ensures
        vterms_view(r@) == vterms_view(s@),
    decreases s,
{
    broadcast use group_views;

    let mut out: Vec<VTerm> = Vec::new();
    let mut i: usize = 0;
    while i < s.len()
        invariant
            i <= s.len(),
            out@.len() == i,
            forall|j: int| 0 <= j < i ==> #[trigger] vterm_view(out@[j]) == vterm_view(s@[j]),
        decreases s.len() - i,
    {
        let c = copy_vterm(&s[i]);
        out.push(c);
        i = i + 1;
    }
    assert(vterms_view(out@) =~= vterms_view(s@));
    out
}

/// A copy of an obligation.
pub fn copy_obligation(o: &Obligation) -> (r: Obligation)
    ensures
        r@ == o@,
    decreases o,
{
    match o {
        Obligation::Pk(v) => Obligation::Pk(copy_vterm(v)),
        Obligation::PkH(v) => Obligation::PkH(copy_vterm(v)),
        Obligation::PkAny(v) => Obligation::PkAny(copy_vterm(v)),
        Obligation::Multi(k, v) => Obligation::Multi(*k, copy_vterm(v)),
        Obligation::Hashlock(v) => Obligation::Hashlock(copy_vterm(v)),
        Obligation::Attest(v, s) => Obligation::Attest(copy_vterm(v), *s),
    }
}

impl Clone for Value {
    fn clone(&self) -> (r: Value)
        ensures
            r@ == self@,
    {
        copy_value(self)
    }
}

impl Clone for BTerm {
    fn clone(&self) -> (r: BTerm)
        ensures
            r@ == self@,
    {
        copy_term(self)
    }
}

impl Clone for VTerm {
    fn clone(&self) -> (r: VTerm)
        ensures
            r@ == self@,
    {
        copy_vterm(self)
    }
}

impl Clone for Obligation {
    fn clone(&self) -> (r: Obligation)
        ensures
            r@ == self@,
    {
        copy_obligation(self)
    }
}

} // verus!
