//! Structural equality of values and terms, decided on their views.
use vstd::prelude::*;

use crate::ast::{
    BTerm, HashValue, Obligation, Value, VTerm, arms_view, group_views, lemma_arms_view,
    lemma_terms_view, lemma_values_view, lemma_vterms_view, term_view, terms_view, value_view,
    values_view, vterm_view, vterms_view,
};
use crate::bytes::{bytes_equal, str_equal};
use crate::registry::Symbol;

verus! {

broadcast use group_views;

/// Whether two hash values are equal.
pub fn hash_eq(a: &HashValue, b: &HashValue) -> (r: bool)
    ensures
        r == (a@ == b@),
{
    match (a, b) {
        (HashValue::Sha256(x), HashValue::Sha256(y)) => bytes_equal(x.as_slice(), y.as_slice()),
        (HashValue::Hash256(x), HashValue::Hash256(y)) => bytes_equal(x.as_slice(), y.as_slice()),
        (HashValue::Ripemd160(x), HashValue::Ripemd160(y)) => bytes_equal(
            x.as_slice(),
            y.as_slice(),
        ),
        (HashValue::Hash160(x), HashValue::Hash160(y)) => bytes_equal(x.as_slice(), y.as_slice()),
        _ => false,
    }
}

/// Whether two paths are equal.
pub fn path_eq(a: &[usize], b: &[usize]) -> (r: bool)
    ensures
        r == (a@ == b@),
{
    if a.len() != b.len() {
        return false;
    }
    let mut i: usize = 0;
    while i < a.len()
        invariant
            i <= a.len(),
            a.len() == b.len(),
            forall|j: int| 0 <= j < i ==> a@[j] == b@[j],
        decreases a.len() - i,
    {
        if a[i] != b[i] {
            return false;
        }
        i = i + 1;
    }
    assert(a@ =~= b@);
    true
}

/// Whether two symbols are equal.
pub fn symbol_eq(a: &Symbol, b: &Symbol) -> (r: bool)
    ensures
        r == (a@ == b@),
{
    a.same(b)
}

/// Whether two values are equal.
pub fn value_eq(a: &Value, b: &Value) -> (r: bool)
    ensures
        r == (a@ == b@),
    decreases a,
{
    match (a, b) {
        (Value::Int(x), Value::Int(y)) => *x == *y,
        (Value::Key(x), Value::Key(y)) => str_equal(x.as_str(), y.as_str()),
        (Value::Hash(x), Value::Hash(y)) => hash_eq(x, y),
        (Value::Bytes(x), Value::Bytes(y)) => bytes_equal(x.as_slice(), y.as_slice()),
        (Value::Path(x), Value::Path(y)) => path_eq(x.as_slice(), y.as_slice()),
        (Value::Subtree(x), Value::Subtree(y)) => term_eq(x, y),
        (Value::List(x), Value::List(y)) => values_eq(x, y),
        (Value::Symbol(x), Value::Symbol(y)) => symbol_eq(x, y),
        _ => false,
    }
}

/// Whether two lists of values are equal.
pub fn values_eq(a: &Vec<Value>, b: &Vec<Value>) -> (r: bool)
    ensures
        r == (values_view(a@) == values_view(b@)),
    decreases a,
{
    proof {
        lemma_values_view(a@);
        lemma_values_view(b@);
    }
    if a.len() != b.len() {
        return false;
    }
    let mut i: usize = 0;
    while i < a.len()
        invariant
            i <= a.len(),
            a.len() == b.len(),
            forall|j: int| 0 <= j < i ==> #[trigger] value_view(a@[j]) == value_view(b@[j]),
        decreases a.len() - i,
    {
        proof {
            lemma_values_view(a@);
            lemma_values_view(b@);
        }
        if !value_eq(&a[i], &b[i]) {
            assert(values_view(a@)[i as int] != values_view(b@)[i as int]);
            return false;
        }
        i = i + 1;
    }
    assert(values_view(a@) =~= values_view(b@));
    true
}

/// Whether two terms are equal.
pub fn term_eq(a: &BTerm, b: &BTerm) -> (r: bool)
    ensures
        r == (a@ == b@),
    decreases a,
{
    match (a, b) {
        (BTerm::Const(x), BTerm::Const(y)) => *x == *y,
        (BTerm::And(x), BTerm::And(y)) => terms_eq(x, y),
        (BTerm::Or(x), BTerm::Or(y)) => terms_eq(x, y),
        (BTerm::Thresh(k, x), BTerm::Thresh(l, y)) => *k == *l && terms_eq(x, y),
        (BTerm::Not(x), BTerm::Not(y)) => term_eq(x, y),
        (BTerm::If(c, t, e), BTerm::If(c2, t2, e2)) => term_eq(c, c2) && term_eq(t, t2)
            && term_eq(e, e2),
        (
            BTerm::Match { scrutinee: s, arms: x, default: d },
            BTerm::Match { scrutinee: s2, arms: y, default: d2 },
        ) => vterm_eq(s, s2) && arms_eq(x, y) && term_eq(d, d2),
        (BTerm::Cmp(o, x, y), BTerm::Cmp(o2, x2, y2)) => *o == *o2 && vterm_eq(x, x2) && vterm_eq(
            y,
            y2,
        ),
        (BTerm::State(p, x), BTerm::State(p2, y)) => *p == *p2 && vterms_eq(x, y),
        (BTerm::Prove(x), BTerm::Prove(y)) => obligation_eq(x, y),
        _ => false,
    }
}

/// Whether two lists of terms are equal.
pub fn terms_eq(a: &Vec<BTerm>, b: &Vec<BTerm>) -> (r: bool)
    ensures
        r == (terms_view(a@) == terms_view(b@)),
    decreases a,
{
    proof {
        lemma_terms_view(a@);
        lemma_terms_view(b@);
    }
    if a.len() != b.len() {
        return false;
    }
    let mut i: usize = 0;
    while i < a.len()
        invariant
            i <= a.len(),
            a.len() == b.len(),
            forall|j: int| 0 <= j < i ==> #[trigger] term_view(a@[j]) == term_view(b@[j]),
        decreases a.len() - i,
    {
        proof {
            lemma_terms_view(a@);
            lemma_terms_view(b@);
        }
        if !term_eq(&a[i], &b[i]) {
            assert(terms_view(a@)[i as int] != terms_view(b@)[i as int]);
            return false;
        }
        i = i + 1;
    }
    assert(terms_view(a@) =~= terms_view(b@));
    true
}

/// Whether two lists of `match` arms are equal.
pub fn arms_eq(a: &Vec<(Symbol, BTerm)>, b: &Vec<(Symbol, BTerm)>) -> (r: bool)
    ensures
        r == (arms_view(a@) == arms_view(b@)),
    decreases a,
{
    proof {
        lemma_arms_view(a@);
        lemma_arms_view(b@);
    }
    if a.len() != b.len() {
        return false;
    }
    let mut i: usize = 0;
    while i < a.len()
        invariant
            i <= a.len(),
            a.len() == b.len(),
            forall|j: int|
                0 <= j < i ==> #[trigger] arms_view(a@)[j] == arms_view(b@)[j],
        decreases a.len() - i,
    {
        proof {
            lemma_arms_view(a@);
            lemma_arms_view(b@);
        }
        if !symbol_eq(&a[i].0, &b[i].0) || !term_eq(&a[i].1, &b[i].1) {
            assert(arms_view(a@)[i as int] != arms_view(b@)[i as int]);
            return false;
        }
        i = i + 1;
    }
    assert(arms_view(a@) =~= arms_view(b@));
    true
}

/// Whether two value terms are equal.
pub fn vterm_eq(a: &VTerm, b: &VTerm) -> (r: bool)
    ensures
        r == (a@ == b@),
    decreases a,
{
    match (a, b) {
        (VTerm::Lit(x), VTerm::Lit(y)) => value_eq(x, y),
        (VTerm::Var(x), VTerm::Var(y)) => str_equal(x.as_str(), y.as_str()),
        (VTerm::Op(f, x), VTerm::Op(g, y)) => *f == *g && vterms_eq(x, y),
        _ => false,
    }
}

/// Whether two lists of value terms are equal.
pub fn vterms_eq(a: &Vec<VTerm>, b: &Vec<VTerm>) -> (r: bool)
    ensures
        r == (vterms_view(a@) == vterms_view(b@)),
    decreases a,
{
    proof {
        lemma_vterms_view(a@);
        lemma_vterms_view(b@);
    }
    if a.len() != b.len() {
        return false;
    }
    let mut i: usize = 0;
    while i < a.len()
        invariant
            i <= a.len(),
            a.len() == b.len(),
            forall|j: int| 0 <= j < i ==> #[trigger] vterm_view(a@[j]) == vterm_view(b@[j]),
        decreases a.len() - i,
    {
        proof {
            lemma_vterms_view(a@);
            lemma_vterms_view(b@);
        }
        if !vterm_eq(&a[i], &b[i]) {
            assert(vterms_view(a@)[i as int] != vterms_view(b@)[i as int]);
            return false;
        }
        i = i + 1;
    }
    assert(vterms_view(a@) =~= vterms_view(b@));
    true
}

/// Whether two obligations are equal.
pub fn obligation_eq(a: &Obligation, b: &Obligation) -> (r: bool)
    ensures
        r == (a@ == b@),
    decreases a,
{
    match (a, b) {
        (Obligation::Pk(x), Obligation::Pk(y)) => vterm_eq(x, y),
        (Obligation::PkH(x), Obligation::PkH(y)) => vterm_eq(x, y),
        (Obligation::PkAny(x), Obligation::PkAny(y)) => vterm_eq(x, y),
        (Obligation::Multi(k, x), Obligation::Multi(l, y)) => *k == *l && vterm_eq(x, y),
        (Obligation::Hashlock(x), Obligation::Hashlock(y)) => vterm_eq(x, y),
        (Obligation::Attest(x, s), Obligation::Attest(y, s2)) => *s == *s2 && vterm_eq(x, y),
        _ => false,
    }
}

} // verus!
