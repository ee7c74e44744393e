//! Modification: the candidate descriptor an `insert`, `replace` or `delete` produces, and its
//! admission.
//!
//! A modification targets a path into the descriptor's body. The candidate is computed
//! functionally from the current descriptor and the operation's arguments, then re-run through
//! admission; the deposit binds to it only if admission passes. This keeps every descriptor a
//! deposit ever holds witness-monotone.
use vstd::prelude::*;

use crate::admission::{AdmissionError, AdmissionErrorV, admission, admit_descriptor};
use crate::ast::{
    BTerm, BTermV, arms_view, copy_arms, copy_term, copy_terms, copy_vterm, group_views,
    lemma_arms_view, lemma_terms_view, terms_view,
};
use crate::bytes::str_equal;
use crate::capability::CapabilitySet;
use crate::descriptor::{Descriptor, DescriptorV, copy_env};
use crate::host::{OperationData, OperationV, op_path, op_subtree};
use crate::limits::MAX_DEPTH;
use crate::maps::SortedMap;
use crate::tree::{subterm_at, term_children};

verus! {

broadcast use group_views;

/// A modification that cannot be applied to the term.
#[derive(Clone, PartialEq, Eq, Debug)]
pub enum ModifyError {
    /// The path does not address an existing position.
    PathOutOfRange,
    /// `insert` or `delete` targeted a position that is not a variadic container child.
    NotAContainer,
    /// `insert` or `delete` was given an empty path: there is no parent to modify.
    EmptyPath,
    /// The operation type is not a modification.
    NotAModification(String),
    /// A required operation argument was absent.
    MissingArg(&'static str),
    /// The path is longer than [`MAX_DEPTH`].
    PathTooDeep,
}

/// The view of a [`ModifyError`].
pub enum ModifyErrorV {
    PathOutOfRange,
    NotAContainer,
    EmptyPath,
    NotAModification(Seq<char>),
    MissingArg(Seq<char>),
    PathTooDeep,
}

impl View for ModifyError {
    type V = ModifyErrorV;

    open spec fn view(&self) -> ModifyErrorV {
        match self {
            ModifyError::PathOutOfRange => ModifyErrorV::PathOutOfRange,
            ModifyError::NotAContainer => ModifyErrorV::NotAContainer,
            ModifyError::EmptyPath => ModifyErrorV::EmptyPath,
            ModifyError::NotAModification(s) => ModifyErrorV::NotAModification(s@),
            ModifyError::MissingArg(s) => ModifyErrorV::MissingArg(s@),
            ModifyError::PathTooDeep => ModifyErrorV::PathTooDeep,
        }
    }
}

/// A modification rejected at admission time.
#[derive(Clone, PartialEq, Eq, Debug)]
pub enum ModificationRejected {
    /// The candidate could not be constructed from the term and arguments.
    Malformed(ModifyError),
    /// The candidate was constructed but failed admission.
    Inadmissible(AdmissionError),
}

/// The view of a [`ModificationRejected`].
pub enum ModificationRejectedV {
    Malformed(ModifyErrorV),
    Inadmissible(AdmissionErrorV),
}

impl View for ModificationRejected {
    type V = ModificationRejectedV;

    open spec fn view(&self) -> ModificationRejectedV {
        match self {
            ModificationRejected::Malformed(e) => ModificationRejectedV::Malformed(e@),
            ModificationRejected::Inadmissible(e) => ModificationRejectedV::Inadmissible(e@),
        }
    }
}

/// The view of a modification result.
pub open spec fn term_result(r: Result<BTerm, ModifyError>) -> Result<BTermV, ModifyErrorV> {
    match r {
        Ok(t) => Ok(t@),
        Err(e) => Err(e@),
    }
}

// ---------------------------------------------------------------------------------------------
// Specification
// ---------------------------------------------------------------------------------------------

/// An edit applied at the end of a path.
pub enum Edit {
    /// Put a term in place of the addressed one.
    Replace(BTermV),
    /// Remove the child at an index of the addressed container.
    Delete(usize),
    /// Insert a term at an index of the addressed container.
    Insert(usize, BTermV),
}

/// `t` with its `i`-th boolean child (in path-index order) replaced by `c`.
pub open spec fn set_child(t: BTermV, i: int, c: BTermV) -> BTermV {
    match t {
        BTermV::And(bs) => BTermV::And(bs.update(i, c)),
        BTermV::Or(bs) => BTermV::Or(bs.update(i, c)),
        BTermV::Thresh(k, bs) => BTermV::Thresh(k, bs.update(i, c)),
        BTermV::Not(_) => BTermV::Not(Box::new(c)),
        BTermV::If(x, y, z) => if i == 0 {
            BTermV::If(Box::new(c), y, z)
        } else if i == 1 {
            BTermV::If(x, Box::new(c), z)
        } else {
            BTermV::If(x, y, Box::new(c))
        },
        BTermV::Match(s, arms, d) => if i < arms.len() {
            BTermV::Match(s, arms.update(i, (arms[i].0, c)), d)
        } else {
            BTermV::Match(s, arms, Box::new(c))
        },
        _ => t,
    }
}

/// The result of removing the child at `idx` from a container term.
pub open spec fn remove_child(t: BTermV, idx: usize) -> Result<BTermV, ModifyErrorV> {
    match t {
        BTermV::And(bs) => if idx >= bs.len() {
            Err(ModifyErrorV::PathOutOfRange)
        } else {
            Ok(BTermV::And(bs.remove(idx as int)))
        },
        BTermV::Or(bs) => if idx >= bs.len() {
            Err(ModifyErrorV::PathOutOfRange)
        } else {
            Ok(BTermV::Or(bs.remove(idx as int)))
        },
        BTermV::Thresh(k, bs) => if idx >= bs.len() {
            Err(ModifyErrorV::PathOutOfRange)
        } else {
            Ok(BTermV::Thresh(k, bs.remove(idx as int)))
        },
        BTermV::Match(s, arms, d) => if idx < arms.len() {
            Ok(BTermV::Match(s, arms.remove(idx as int), d))
        } else {
            Err(ModifyErrorV::NotAContainer)
        },
        _ => Err(ModifyErrorV::NotAContainer),
    }
}

/// The result of inserting `new` at `idx` in a container term.
pub open spec fn insert_child(t: BTermV, idx: usize, new: BTermV) -> Result<BTermV, ModifyErrorV> {
    match t {
        BTermV::And(bs) => if idx > bs.len() {
            Err(ModifyErrorV::PathOutOfRange)
        } else {
            Ok(BTermV::And(bs.insert(idx as int, new)))
        },
        BTermV::Or(bs) => if idx > bs.len() {
            Err(ModifyErrorV::PathOutOfRange)
        } else {
            Ok(BTermV::Or(bs.insert(idx as int, new)))
        },
        BTermV::Thresh(k, bs) => if idx > bs.len() {
            Err(ModifyErrorV::PathOutOfRange)
        } else {
            Ok(BTermV::Thresh(k, bs.insert(idx as int, new)))
        },
        _ => Err(ModifyErrorV::NotAContainer),
    }
}

/// Apply an edit to a term.
pub open spec fn apply_edit(t: BTermV, e: Edit) -> Result<BTermV, ModifyErrorV> {
    match e {
        Edit::Replace(new) => Ok(new),
        Edit::Delete(idx) => remove_child(t, idx),
        Edit::Insert(idx, new) => insert_child(t, idx, new),
    }
}

/// Apply an edit at the subterm `path` addresses, rebuilding its ancestors.
pub open spec fn edit_at(t: BTermV, path: Seq<usize>, e: Edit) -> Result<BTermV, ModifyErrorV>
    decreases path.len(),
{
    if path.len() == 0 {
        apply_edit(t, e)
    } else if path[0] < term_children(t).len() {
        match edit_at(term_children(t)[path[0] as int], path.drop_first(), e) {
            Err(err) => Err(err),
            Ok(c) => Ok(set_child(t, path[0] as int, c)),
        }
    } else {
        Err(ModifyErrorV::PathOutOfRange)
    }
}

/// Replacing the subterm at `path` by `new`.
pub open spec fn replaced(t: BTermV, path: Seq<usize>, new: BTermV) -> Result<BTermV, ModifyErrorV> {
    if path.len() > MAX_DEPTH {
        Err(ModifyErrorV::PathTooDeep)
    } else {
        edit_at(t, path, Edit::Replace(new))
    }
}

/// Deleting the subterm at `path` from its parent.
pub open spec fn deleted(t: BTermV, path: Seq<usize>) -> Result<BTermV, ModifyErrorV> {
    if path.len() > MAX_DEPTH {
        Err(ModifyErrorV::PathTooDeep)
    } else if path.len() == 0 {
        Err(ModifyErrorV::EmptyPath)
    } else {
        edit_at(t, path.drop_last(), Edit::Delete(path.last()))
    }
}

/// Inserting `new` at `path` (the last index is the position in the parent).
pub open spec fn inserted(t: BTermV, path: Seq<usize>, new: BTermV) -> Result<BTermV, ModifyErrorV> {
    if path.len() > MAX_DEPTH {
        Err(ModifyErrorV::PathTooDeep)
    } else if path.len() == 0 {
        Err(ModifyErrorV::EmptyPath)
    } else {
        edit_at(t, path.drop_last(), Edit::Insert(path.last(), new))
    }
}

/// The new body a body-level modification of type `op_type` produces.
pub open spec fn body_edit(body: BTermV, op_type: Seq<char>, path: Seq<usize>, o: OperationV) -> Result<
    BTermV,
    ModifyErrorV,
> {
    if op_type == "replace"@ {
        match op_subtree(o) {
            Some(sub) => replaced(body, path, sub),
            None => Err(ModifyErrorV::MissingArg("subtree"@)),
        }
    } else if op_type == "insert"@ {
        match op_subtree(o) {
            Some(sub) => inserted(body, path, sub),
            None => Err(ModifyErrorV::MissingArg("subtree"@)),
        }
    } else if op_type == "delete"@ {
        deleted(body, path)
    } else {
        Err(ModifyErrorV::NotAModification(op_type))
    }
}

/// The candidate descriptor a modification operation produces: the same constants, and the
/// body edited at the operation's path.
pub open spec fn candidate_of(d: DescriptorV, o: OperationV) -> Result<DescriptorV, ModifyErrorV> {
    match op_path(o) {
        None => Err(ModifyErrorV::MissingArg("path"@)),
        Some(path) => match body_edit(d.body, o.op_type, path, o) {
            Err(e) => Err(e),
            Ok(body) => Ok(DescriptorV { constants: d.constants, body }),
        },
    }
}

// ---------------------------------------------------------------------------------------------
// Execution
// ---------------------------------------------------------------------------------------------

/// An edit, as data.
enum Change {
    Replace(BTerm),
    Delete(usize),
    Insert(usize, BTerm),
}

impl Change {
    spec fn edit(&self) -> Edit {
        match self {
            Change::Replace(t) => Edit::Replace(t@),
            Change::Delete(i) => Edit::Delete(*i),
            Change::Insert(i, t) => Edit::Insert(*i, t@),
        }
    }
}

/// A copy of a list of terms with the one at `i` replaced.
fn terms_with(bs: &Vec<BTerm>, i: usize, c: BTerm) -> (r: Vec<BTerm>)
    requires
        i < bs@.len(),
    ensures
        terms_view(r@) == terms_view(bs@).update(i as int, c@),
{
    let mut out = copy_terms(bs);
    proof {
        lemma_terms_view(bs@);
        lemma_terms_view(out@);
    }
    let ghost cv = c@;
    out.remove(i);
    out.insert(i, c);
    proof {
        lemma_terms_view(out@);
        assert(terms_view(out@) =~= terms_view(bs@).update(i as int, cv));
    }
    out
}

/// A copy of a list of terms with the one at `i` removed.
fn terms_without(bs: &Vec<BTerm>, i: usize) -> (r: Vec<BTerm>)
    requires
        i < bs@.len(),
    ensures
        terms_view(r@) == terms_view(bs@).remove(i as int),
{
    let mut out = copy_terms(bs);
    proof {
        lemma_terms_view(bs@);
        lemma_terms_view(out@);
    }
    out.remove(i);
    proof {
        lemma_terms_view(out@);
        assert(terms_view(out@) =~= terms_view(bs@).remove(i as int));
    }
    out
}

/// A copy of a list of terms with `c` inserted at `i`.
fn terms_inserting(bs: &Vec<BTerm>, i: usize, c: BTerm) -> (r: Vec<BTerm>)
    requires
        i <= bs@.len(),
    ensures
        terms_view(r@) == terms_view(bs@).insert(i as int, c@),
{
    let mut out = copy_terms(bs);
    proof {
        lemma_terms_view(bs@);
        lemma_terms_view(out@);
    }
    let ghost cv = c@;
    out.insert(i, c);
    proof {
        lemma_terms_view(out@);
        assert(terms_view(out@) =~= terms_view(bs@).insert(i as int, cv));
    }
    out
}

/// A copy of a list of arms with the body of the one at `i` replaced.
fn arms_with(
    arms: &Vec<(crate::registry::Symbol, BTerm)>,
    i: usize,
    c: BTerm,
) -> (r: Vec<(crate::registry::Symbol, BTerm)>)
    requires
        i < arms@.len(),
    ensures
        arms_view(r@) == arms_view(arms@).update(i as int, (arms_view(arms@)[i as int].0, c@)),
{
    let mut out = copy_arms(arms);
    proof {
        lemma_arms_view(arms@);
        lemma_arms_view(out@);
    }
    let ghost cv = c@;
    let tag = crate::registry::Symbol(arms[i].0.0.clone());
    out.remove(i);
    out.insert(i, (tag, c));
    proof {
        lemma_arms_view(out@);
        assert(arms_view(out@) =~= arms_view(arms@).update(i as int, (arms_view(arms@)[i as int].0, cv)));
    }
    out
}

/// A copy of a list of arms with the one at `i` removed.
fn arms_without(
    arms: &Vec<(crate::registry::Symbol, BTerm)>,
    i: usize,
) -> (r: Vec<(crate::registry::Symbol, BTerm)>)
    requires
        i < arms@.len(),
    ensures
        arms_view(r@) == arms_view(arms@).remove(i as int),
{
    let mut out = copy_arms(arms);
    proof {
        lemma_arms_view(arms@);
        lemma_arms_view(out@);
    }
    out.remove(i);
    proof {
        lemma_arms_view(out@);
        assert(arms_view(out@) =~= arms_view(arms@).remove(i as int));
    }
    out
}

/// Apply an edit to a term.
fn apply_change(t: &BTerm, change: &Change) -> (r: Result<BTerm, ModifyError>)
    ensures
        term_result(r) == apply_edit(t@, change.edit()),
{
    proof {
        match t {
            BTerm::And(bs) => lemma_terms_view(bs@),
            BTerm::Or(bs) => lemma_terms_view(bs@),
            BTerm::Thresh(_, bs) => lemma_terms_view(bs@),
            BTerm::Match { arms, .. } => lemma_arms_view(arms@),
            _ => {},
        }
    }
    match change {
        Change::Replace(new) => Ok(copy_term(new)),
        Change::Delete(idx) => {
            let idx = *idx;
            match t {
            BTerm::And(bs) => if idx >= bs.len() {
                Err(ModifyError::PathOutOfRange)
            } else {
                Ok(BTerm::And(terms_without(bs, idx)))
            },
            BTerm::Or(bs) => if idx >= bs.len() {
                Err(ModifyError::PathOutOfRange)
            } else {
                Ok(BTerm::Or(terms_without(bs, idx)))
            },
            BTerm::Thresh(k, bs) => if idx >= bs.len() {
                Err(ModifyError::PathOutOfRange)
            } else {
                Ok(BTerm::Thresh(*k, terms_without(bs, idx)))
            },
            BTerm::Match { scrutinee, arms, default } => if idx < arms.len() {
                Ok(
                    BTerm::Match {
                        scrutinee: copy_vterm(scrutinee),
                        arms: arms_without(arms, idx),
                        default: Box::new(copy_term(default)),
                    },
                )
            } else {
                Err(ModifyError::NotAContainer)
            },
            _ => Err(ModifyError::NotAContainer),
        }
        },
        Change::Insert(idx, new) => {
            let idx = *idx;
            match t {
            BTerm::And(bs) => if idx > bs.len() {
                Err(ModifyError::PathOutOfRange)
            } else {
                Ok(BTerm::And(terms_inserting(bs, idx, copy_term(new))))
            },
            BTerm::Or(bs) => if idx > bs.len() {
                Err(ModifyError::PathOutOfRange)
            } else {
                Ok(BTerm::Or(terms_inserting(bs, idx, copy_term(new))))
            },
            BTerm::Thresh(k, bs) => if idx > bs.len() {
                Err(ModifyError::PathOutOfRange)
            } else {
                Ok(BTerm::Thresh(*k, terms_inserting(bs, idx, copy_term(new))))
            },
            _ => Err(ModifyError::NotAContainer),
        }
        },
    }
}

/// Apply an edit at the subterm `path[pos..]` addresses, rebuilding its ancestors.
fn edit_term(t: &BTerm, path: &[usize], pos: usize, change: &Change) -> (r: Result<
    BTerm,
    ModifyError,
>)
    requires
        pos <= path@.len(),
    ensures
        term_result(r) == edit_at(t@, path@.skip(pos as int), change.edit()),
    decreases path@.len() - pos,
{
    if pos == path.len() {
        assert(path@.skip(pos as int).len() == 0);
        return apply_change(t, change);
    }
    let i = path[pos];
    let ghost rest = path@.skip(pos as int);
    assert(rest[0] == i);
    assert(rest.drop_first() =~= path@.skip(pos + 1));
    match t {
        BTerm::And(bs) => {
            proof {
                lemma_terms_view(bs@);
            }
            if i >= bs.len() {
                return Err(ModifyError::PathOutOfRange);
            }
            match edit_term(&bs[i], path, pos + 1, change) {
                Err(e) => Err(e),
                Ok(c) => Ok(BTerm::And(terms_with(bs, i, c))),
            }
        },
        BTerm::Or(bs) => {
            proof {
                lemma_terms_view(bs@);
            }
            if i >= bs.len() {
                return Err(ModifyError::PathOutOfRange);
            }
            match edit_term(&bs[i], path, pos + 1, change) {
                Err(e) => Err(e),
                Ok(c) => Ok(BTerm::Or(terms_with(bs, i, c))),
            }
        },
        BTerm::Thresh(k, bs) => {
            proof {
                lemma_terms_view(bs@);
            }
            if i >= bs.len() {
                return Err(ModifyError::PathOutOfRange);
            }
            match edit_term(&bs[i], path, pos + 1, change) {
                Err(e) => Err(e),
                Ok(c) => Ok(BTerm::Thresh(*k, terms_with(bs, i, c))),
            }
        },
        BTerm::Not(b) => {
            if i != 0 {
                return Err(ModifyError::PathOutOfRange);
            }
            match edit_term(b, path, pos + 1, change) {
                Err(e) => Err(e),
                Ok(c) => Ok(BTerm::Not(Box::new(c))),
            }
        },
        BTerm::If(c0, t1, e1) => {
            if i == 0 {
                match edit_term(c0, path, pos + 1, change) {
                    Err(e) => Err(e),
                    Ok(c) => Ok(BTerm::If(Box::new(c), Box::new(copy_term(t1)), Box::new(copy_term(e1)))),
                }
            } else if i == 1 {
                match edit_term(t1, path, pos + 1, change) {
                    Err(e) => Err(e),
                    Ok(c) => Ok(BTerm::If(Box::new(copy_term(c0)), Box::new(c), Box::new(copy_term(e1)))),
                }
            } else if i == 2 {
                match edit_term(e1, path, pos + 1, change) {
                    Err(e) => Err(e),
                    Ok(c) => Ok(BTerm::If(Box::new(copy_term(c0)), Box::new(copy_term(t1)), Box::new(c))),
                }
            } else {
                Err(ModifyError::PathOutOfRange)
            }
        },
        BTerm::Match { scrutinee, arms, default } => {
            proof {
                lemma_arms_view(arms@);
            }
            if i < arms.len() {
                match edit_term(&arms[i].1, path, pos + 1, change) {
                    Err(e) => Err(e),
                    Ok(c) => Ok(
                        BTerm::Match {
                            scrutinee: copy_vterm(scrutinee),
                            arms: arms_with(arms, i, c),
                            default: Box::new(copy_term(default)),
                        },
                    ),
                }
            } else if i == arms.len() {
                match edit_term(default, path, pos + 1, change) {
                    Err(e) => Err(e),
                    Ok(c) => Ok(
                        BTerm::Match {
                            scrutinee: copy_vterm(scrutinee),
                            arms: copy_arms(arms),
                            default: Box::new(c),
                        },
                    ),
                }
            } else {
                Err(ModifyError::PathOutOfRange)
            }
        },
        _ => Err(ModifyError::PathOutOfRange),
    }
}

/// Replace the subterm at `path` with `new`.
pub fn replace_at(t: &BTerm, path: &[usize], new: BTerm) -> (r: Result<BTerm, ModifyError>)
    ensures
        term_result(r) == replaced(t@, path@, new@),
{
    if path.len() > MAX_DEPTH {
        return Err(ModifyError::PathTooDeep);
    }
    assert(path@.skip(0) =~= path@);
    edit_term(t, path, 0, &Change::Replace(new))
}

/// Delete the subterm at `path` from its (variadic) parent.
pub fn delete_at(t: &BTerm, path: &[usize]) -> (r: Result<BTerm, ModifyError>)
    ensures
        term_result(r) == deleted(t@, path@),
{
    if path.len() > MAX_DEPTH {
        return Err(ModifyError::PathTooDeep);
    }
    if path.len() == 0 {
        return Err(ModifyError::EmptyPath);
    }
    let idx = path[path.len() - 1];
    let parent = parent_of(path);
    assert(parent@.skip(0) =~= path@.drop_last());
    edit_term(t, parent.as_slice(), 0, &Change::Delete(idx))
}

/// Insert `new` at `path`: the last index is the position in the parent container.
pub fn insert_at(t: &BTerm, path: &[usize], new: BTerm) -> (r: Result<BTerm, ModifyError>)
    ensures
        term_result(r) == inserted(t@, path@, new@),
{
    if path.len() > MAX_DEPTH {
        return Err(ModifyError::PathTooDeep);
    }
    if path.len() == 0 {
        return Err(ModifyError::EmptyPath);
    }
    let idx = path[path.len() - 1];
    let parent = parent_of(path);
    assert(parent@.skip(0) =~= path@.drop_last());
    edit_term(t, parent.as_slice(), 0, &Change::Insert(idx, new))
}

/// All but the last index of a non-empty path.
fn parent_of(path: &[usize]) -> (r: Vec<usize>)
    requires
        path@.len() > 0,
    ensures
        r@ == path@.drop_last(),
{
    let mut out: Vec<usize> = Vec::new();
    let mut i: usize = 0;
    while i < path.len() - 1
        invariant
            path@.len() > 0,
            i < path@.len(),
            out@ == path@.take(i as int),
        decreases path@.len() - i,
    {
        out.push(path[i]);
        i = i + 1;
        assert(out@ =~= path@.take(i as int));
    }
    assert(path@.take(i as int) =~= path@.drop_last());
    out
}

/// Apply a body-level `insert`, `replace` or `delete` at the body-rooted `path`.
fn apply_body_op(
    body: &BTerm,
    op_type: &str,
    path: &[usize],
    op: &OperationData,
) -> (r: Result<BTerm, ModifyError>)
    ensures
        term_result(r) == body_edit(body@, op_type@, path@, op@),
{
    if str_equal(op_type, "replace") {
        match op.get_subtree() {
            Some(sub) => replace_at(body, path, sub),
            None => Err(ModifyError::MissingArg("subtree")),
        }
    } else if str_equal(op_type, "insert") {
        match op.get_subtree() {
            Some(sub) => insert_at(body, path, sub),
            None => Err(ModifyError::MissingArg("subtree")),
        }
    } else if str_equal(op_type, "delete") {
        delete_at(body, path)
    } else {
        Err(ModifyError::NotAModification(op_type.to_owned()))
    }
}

/// The view of a descriptor result.
pub open spec fn descriptor_result(r: Result<Descriptor, ModifyError>) -> Result<
    DescriptorV,
    ModifyErrorV,
> {
    match r {
        Ok(d) => Ok(d@),
        Err(e) => Err(e@),
    }
}

/// The candidate descriptor an `insert`, `replace` or `delete` operation produces. The
/// operation's `path` argument addresses a position in the body.
pub fn candidate(current: &Descriptor, op: &OperationData) -> (r: Result<Descriptor, ModifyError>)
    ensures
        descriptor_result(r) == candidate_of(current@, op@),
{
    let path = match op.get_path() {
        Some(p) => p,
        None => return Err(ModifyError::MissingArg("path")),
    };
    match apply_body_op(&current.body, op.op_type.0.as_str(), path.as_slice(), op) {
        Err(e) => Err(e),
        Ok(body) => Ok(Descriptor { constants: copy_env(&current.constants), body }),
    }
}

/// The outcome of a modification: the candidate if it is well formed and admitted.
pub open spec fn modification_outcome(d: DescriptorV, o: OperationV, caps: crate::capability::CapabilitySetV) -> Result<
    DescriptorV,
    ModificationRejectedV,
> {
    match candidate_of(d, o) {
        Err(e) => Err(ModificationRejectedV::Malformed(e)),
        Ok(c) => match admission(c, caps) {
            Some(e) => Err(ModificationRejectedV::Inadmissible(e)),
            None => Ok(c),
        },
    }
}

/// Compute the candidate descriptor and re-run admission on it. Returns the new descriptor only
/// if it is well formed; otherwise the modification is rejected and the deposit keeps its
/// current descriptor.
pub fn admit_modification(current: &Descriptor, op: &OperationData, caps: &CapabilitySet) -> (r:
    Result<Descriptor, ModificationRejected>)
    ensures
        match r {
            Ok(d) => modification_outcome(current@, op@, caps@) == Ok::<
                DescriptorV,
                ModificationRejectedV,
            >(d@),
            Err(e) => modification_outcome(current@, op@, caps@) == Err::<
                DescriptorV,
                ModificationRejectedV,
            >(e@),
        },
{
    let cand = match candidate(current, op) {
        Err(e) => return Err(ModificationRejected::Malformed(e)),
        Ok(c) => c,
    };
    match admit_descriptor(&cand, caps) {
        Err(e) => Err(ModificationRejected::Inadmissible(e)),
        Ok(()) => Ok(cand),
    }
}

// ---------------------------------------------------------------------------------------------
// Laws
// ---------------------------------------------------------------------------------------------

/// The child `set_child` puts at `i` is the child found at `i` afterwards, and the other
/// children stay.
proof fn lemma_set_child(t: BTermV, i: int, c: BTermV)
    requires
        0 <= i < term_children(t).len(),
    ensures
        term_children(set_child(t, i, c)).len() == term_children(t).len(),
        term_children(set_child(t, i, c))[i] == c,
        forall|j: int|
            0 <= j < term_children(t).len() && j != i ==> #[trigger] term_children(
                set_child(t, i, c),
            )[j] == term_children(t)[j],
{
    match t {
        BTermV::Match(s, arms, d) => {
            let arms2 = if i < arms.len() {
                arms.update(i, (arms[i].0, c))
            } else {
                arms
            };
            assert(crate::tree::arm_bodies(arms2).len() == arms.len());
        },
        _ => {},
    }
}

/// After a replacement at `path`, the subterm at `path` is the new term.
pub proof fn lemma_replace_then_read(t: BTermV, path: Seq<usize>, new: BTermV)
    requires
        replaced(t, path, new) is Ok,
    ensures
        subterm_at(replaced(t, path, new)->Ok_0, path) == Some(new),
    decreases path.len(),
{
    lemma_edit_then_read(t, path, new);
}

proof fn lemma_edit_then_read(t: BTermV, path: Seq<usize>, new: BTermV)
    requires
        edit_at(t, path, Edit::Replace(new)) is Ok,
    ensures
        subterm_at(edit_at(t, path, Edit::Replace(new))->Ok_0, path) == Some(new),
    decreases path.len(),
{
    if path.len() > 0 {
        let i = path[0] as int;
        let child = term_children(t)[i];
        lemma_edit_then_read(child, path.drop_first(), new);
        let c = edit_at(child, path.drop_first(), Edit::Replace(new))->Ok_0;
        lemma_set_child(t, i, c);
    }
}

/// A replacement succeeds exactly when the path is within the depth limit and addresses a
/// subterm.
pub proof fn lemma_replace_succeeds(t: BTermV, path: Seq<usize>, new: BTermV)
    ensures
        replaced(t, path, new) is Ok <==> (path.len() <= MAX_DEPTH && subterm_at(t, path) is Some),
{
    lemma_edit_succeeds(t, path, new);
}

proof fn lemma_edit_succeeds(t: BTermV, path: Seq<usize>, new: BTermV)
    ensures
        edit_at(t, path, Edit::Replace(new)) is Ok <==> subterm_at(t, path) is Some,
    decreases path.len(),
{
    if path.len() > 0 && path[0] < term_children(t).len() {
        lemma_edit_succeeds(term_children(t)[path[0] as int], path.drop_first(), new);
    }
}

/// A modification that passes admission yields a descriptor that is witness-monotone.
pub proof fn lemma_modification_monotone(
    d: DescriptorV,
    o: OperationV,
    caps: crate::capability::CapabilitySetV,
    c: crate::eval::EvalCtx,
    p: crate::eval::Evidence,
    q: crate::eval::Evidence,
)
    requires
        modification_outcome(d, o, caps) is Ok,
        crate::monotone::evidence_le(p, q),
        crate::eval::eval_term(modification_outcome(d, o, caps)->Ok_0.body, c, p) == Ok::<
            bool,
            crate::eval::EvalErrorV,
        >(true),
    ensures
        crate::eval::eval_term(modification_outcome(d, o, caps)->Ok_0.body, c, q) != Ok::<
            bool,
            crate::eval::EvalErrorV,
        >(false),
{
    let n = modification_outcome(d, o, caps)->Ok_0;
    crate::monotone::lemma_admitted_monotone(n, caps, c, p, q);
}

/// Whether two paths part ways: at some index within both they name different children.
pub open spec fn paths_diverge(p: Seq<usize>, q: Seq<usize>) -> bool
    decreases p.len(),
{
    p.len() > 0 && q.len() > 0 && (p[0] != q[0] || paths_diverge(p.drop_first(), q.drop_first()))
}

/// A replacement keeps the rest of the term: every subterm at a path that parts ways with the
/// replaced path is unchanged.
pub proof fn lemma_replace_keeps_rest(t: BTermV, path: Seq<usize>, new: BTermV, q: Seq<usize>)
    requires
        replaced(t, path, new) is Ok,
        paths_diverge(path, q),
    ensures
        subterm_at(replaced(t, path, new)->Ok_0, q) == subterm_at(t, q),
{
    lemma_edit_keeps_rest(t, path, Edit::Replace(new), q);
}

proof fn lemma_edit_keeps_rest(t: BTermV, path: Seq<usize>, e: Edit, q: Seq<usize>)
    requires
        edit_at(t, path, e) is Ok,
        paths_diverge(path, q),
    ensures
        subterm_at(edit_at(t, path, e)->Ok_0, q) == subterm_at(t, q),
    decreases path.len(),
{
    let i = path[0] as int;
    let child = term_children(t)[i];
    let c = edit_at(child, path.drop_first(), e)->Ok_0;
    lemma_set_child(t, i, c);
    let t2 = set_child(t, i, c);
    if q[0] != path[0] {
        if q[0] < term_children(t).len() {
            assert(term_children(t2)[q[0] as int] == term_children(t)[q[0] as int]);
        }
    } else {
        lemma_edit_keeps_rest(child, path.drop_first(), e, q.drop_first());
    }
}

/// A replacement at a path that addresses no subterm fails with `PathOutOfRange`.
pub proof fn lemma_replace_out_of_range(t: BTermV, path: Seq<usize>, new: BTermV)
    requires
        path.len() <= MAX_DEPTH,
        subterm_at(t, path) is None,
    ensures
        replaced(t, path, new) == Err::<BTermV, ModifyErrorV>(ModifyErrorV::PathOutOfRange),
{
    lemma_edit_out_of_range(t, path, Edit::Replace(new));
}

proof fn lemma_edit_out_of_range(t: BTermV, path: Seq<usize>, e: Edit)
    requires
        subterm_at(t, path) is None,
    ensures
        edit_at(t, path, e) == Err::<BTermV, ModifyErrorV>(ModifyErrorV::PathOutOfRange),
    decreases path.len(),
{
    if path[0] < term_children(t).len() {
        lemma_edit_out_of_range(term_children(t)[path[0] as int], path.drop_first(), e);
    }
}

/// Putting a child back where it was gives the term back.
proof fn lemma_set_child_back(t: BTermV, i: int, c: BTermV)
    requires
        0 <= i < term_children(t).len(),
    ensures
        set_child(set_child(t, i, c), i, term_children(t)[i]) == t,
{
    match t {
        BTermV::And(bs) => {
            assert(bs.update(i, c).update(i, bs[i]) =~= bs);
        },
        BTermV::Or(bs) => {
            assert(bs.update(i, c).update(i, bs[i]) =~= bs);
        },
        BTermV::Thresh(k, bs) => {
            assert(bs.update(i, c).update(i, bs[i]) =~= bs);
        },
        BTermV::Match(s, arms, d) => {
            if i < arms.len() {
                let a2 = arms.update(i, (arms[i].0, c));
                assert(a2[i].0 == arms[i].0);
                assert(crate::tree::arm_bodies(arms)[i] == arms[i].1);
                assert(a2.update(i, (a2[i].0, arms[i].1)) =~= arms);
            } else {
                assert(term_children(t)[i] == *d);
            }
        },
        _ => {},
    }
}

/// Deleting undoes inserting: deleting at the path just inserted at gives the term back.
pub proof fn lemma_delete_undoes_insert(t: BTermV, path: Seq<usize>, new: BTermV)
    requires
        inserted(t, path, new) is Ok,
    ensures
        deleted(inserted(t, path, new)->Ok_0, path) == Ok::<BTermV, ModifyErrorV>(t),
{
    lemma_remove_after_insert(t, path.drop_last(), path.last(), new);
}

proof fn lemma_remove_after_insert(t: BTermV, parent: Seq<usize>, idx: usize, new: BTermV)
    requires
        edit_at(t, parent, Edit::Insert(idx, new)) is Ok,
    ensures
        edit_at(edit_at(t, parent, Edit::Insert(idx, new))->Ok_0, parent, Edit::Delete(idx)) == Ok::<
            BTermV,
            ModifyErrorV,
        >(t),
    decreases parent.len(),
{
    if parent.len() == 0 {
        match t {
            BTermV::And(bs) => {
                assert(bs.insert(idx as int, new).remove(idx as int) =~= bs);
            },
            BTermV::Or(bs) => {
                assert(bs.insert(idx as int, new).remove(idx as int) =~= bs);
            },
            BTermV::Thresh(k, bs) => {
                assert(bs.insert(idx as int, new).remove(idx as int) =~= bs);
            },
            _ => {},
        }
    } else {
        let i = parent[0] as int;
        let child = term_children(t)[i];
        let c = edit_at(child, parent.drop_first(), Edit::Insert(idx, new))->Ok_0;
        lemma_set_child(t, i, c);
        let t2 = set_child(t, i, c);
        lemma_remove_after_insert(child, parent.drop_first(), idx, new);
        lemma_set_child_back(t, i, c);
    }
}

/// A replacement changes each ancestor of the replaced subterm in the one child on the path and
/// nowhere else: the ancestor at each proper prefix of the path is the original one with that
/// child set to what now stands there, so it keeps its constructor, threshold, tags, scrutinee
/// and other children.
pub proof fn lemma_replace_keeps_ancestors(t: BTermV, path: Seq<usize>, new: BTermV, k: int)
    requires
        replaced(t, path, new) is Ok,
        0 <= k < path.len(),
    ensures
        subterm_at(t, path.take(k)) is Some,
        subterm_at(replaced(t, path, new)->Ok_0, path.take(k + 1)) is Some,
        subterm_at(replaced(t, path, new)->Ok_0, path.take(k)) == Some(
            set_child(
                subterm_at(t, path.take(k))->Some_0,
                path[k] as int,
                subterm_at(replaced(t, path, new)->Ok_0, path.take(k + 1))->Some_0,
            ),
        ),
{
    lemma_edit_keeps_ancestors(t, path, Edit::Replace(new), k);
}

proof fn lemma_edit_keeps_ancestors(t: BTermV, path: Seq<usize>, e: Edit, k: int)
    requires
        edit_at(t, path, e) is Ok,
        0 <= k < path.len(),
    ensures
        subterm_at(t, path.take(k)) is Some,
        subterm_at(edit_at(t, path, e)->Ok_0, path.take(k + 1)) is Some,
        subterm_at(edit_at(t, path, e)->Ok_0, path.take(k)) == Some(
            set_child(
                subterm_at(t, path.take(k))->Some_0,
                path[k] as int,
                subterm_at(edit_at(t, path, e)->Ok_0, path.take(k + 1))->Some_0,
            ),
        ),
    decreases path.len(),
{
    let i = path[0] as int;
    let child = term_children(t)[i];
    let c = edit_at(child, path.drop_first(), e)->Ok_0;
    lemma_set_child(t, i, c);
    let t2 = set_child(t, i, c);
    assert(edit_at(t, path, e)->Ok_0 == t2);
    assert(path.take(1).drop_first() =~= Seq::<usize>::empty());
    assert(path.take(1)[0] == path[0]);
    if k == 0 {
        assert(path.take(0) =~= Seq::<usize>::empty());
        assert(subterm_at(t2, path.take(1)) == subterm_at(c, Seq::<usize>::empty()));
    } else {
        let rest = path.drop_first();
        lemma_edit_keeps_ancestors(child, rest, e, k - 1);
        assert(path.take(k).drop_first() =~= rest.take(k - 1));
        assert(path.take(k + 1).drop_first() =~= rest.take(k));
        assert(path.take(k)[0] == path[0]);
        assert(path.take(k + 1)[0] == path[0]);
        assert(rest[k - 1] == path[k]);
    }
}


proof fn lemma_edit_reads(t: BTermV, path: Seq<usize>, e: Edit)
    requires
        subterm_at(t, path) is Some,
        apply_edit(subterm_at(t, path)->Some_0, e) is Ok,
    ensures
        edit_at(t, path, e) is Ok,
        subterm_at(edit_at(t, path, e)->Ok_0, path) == Some(apply_edit(subterm_at(t, path)->Some_0, e)->Ok_0),
    decreases path.len(),
{
    if path.len() > 0 {
        let i = path[0] as int;
        let child = term_children(t)[i];
        lemma_edit_reads(child, path.drop_first(), e);
        let c = edit_at(child, path.drop_first(), e)->Ok_0;
        lemma_set_child(t, i, c);
    }
}

/// Whether `i` addresses a removable child of `u`: a term of a conjunction, disjunction or
/// threshold, or a tagged arm of a `match`.
pub open spec fn removable(u: BTermV, i: usize) -> bool {
    match u {
        BTermV::And(bs) => i < bs.len(),
        BTermV::Or(bs) => i < bs.len(),
        BTermV::Thresh(_, bs) => i < bs.len(),
        BTermV::Match(_, arms, _) => i < arms.len(),
        _ => false,
    }
}

/// Deleting at `q` followed by `i` removes exactly the child that path addressed: the parent at
/// `q` keeps its constructor, threshold, scrutinee and default, its children before `i` stay
/// where they were, those after `i` move down by one, and the one at `i` is gone.
pub proof fn lemma_delete_removes_addressed(t: BTermV, q: Seq<usize>, i: usize)
    requires
        q.len() < MAX_DEPTH,
        subterm_at(t, q) matches Some(u) && removable(u, i),
    ensures
        deleted(t, q.push(i)) is Ok,
        subterm_at(t, q.push(i)) is Some,
        subterm_at(deleted(t, q.push(i))->Ok_0, q) matches Some(v) && term_children(v)
            == term_children(subterm_at(t, q)->Some_0).remove(i as int) && match (
            subterm_at(t, q)->Some_0,
            v,
        ) {
            (BTermV::And(bs), BTermV::And(cs)) => cs == bs.remove(i as int),
            (BTermV::Or(bs), BTermV::Or(cs)) => cs == bs.remove(i as int),
            (BTermV::Thresh(k, bs), BTermV::Thresh(k2, cs)) => k2 == k && cs == bs.remove(i as int),
            (BTermV::Match(s, arms, d), BTermV::Match(s2, arms2, d2)) => s2 == s && d2 == d && arms2
                == arms.remove(i as int),
            _ => false,
        },
{
    let path = q.push(i);
    assert(path.drop_last() =~= q);
    assert(path.last() == i);
    let u = subterm_at(t, q)->Some_0;
    lemma_edit_reads(t, q, Edit::Delete(i));
    lemma_subterm_extend(t, q, i);
    match u {
        BTermV::Match(s, arms, d) => {
            let arms2 = arms.remove(i as int);
            assert(crate::tree::arm_bodies(arms2).push(*d) =~= (crate::tree::arm_bodies(arms).push(*d)).remove(
                i as int,
            ));
        },
        _ => {},
    }
}

/// The subterm at a path followed by one more index is that child of the subterm at the path.
proof fn lemma_subterm_extend(t: BTermV, q: Seq<usize>, i: usize)
    requires
        subterm_at(t, q) matches Some(u) && i < term_children(u).len(),
    ensures
        subterm_at(t, q.push(i)) == Some(term_children(subterm_at(t, q)->Some_0)[i as int]),
    decreases q.len(),
{
    if q.len() == 0 {
        assert(subterm_at(t, q) == Some(t));
        assert(q.push(i).drop_first() =~= Seq::<usize>::empty());
        assert(q.push(i)[0] == i);
        assert(subterm_at(term_children(t)[i as int], Seq::<usize>::empty()) == Some(term_children(t)[i as int]));
    } else {
        assert(q.push(i).drop_first() =~= q.drop_first().push(i));
        assert(q.push(i)[0] == q[0]);
        lemma_subterm_extend(term_children(t)[q[0] as int], q.drop_first(), i);
    }
}


/// Inserting at `q` followed by `i` into a conjunction, disjunction or threshold with at least
/// `i` terms puts the new term at position `i` of that parent: the terms before `i` stay, those
/// from `i` on move up by one, and the constructor and threshold are kept.
pub proof fn lemma_insert_places_new(t: BTermV, q: Seq<usize>, i: usize, new: BTermV)
    requires
        q.len() < MAX_DEPTH,
        subterm_at(t, q) matches Some(u) && match u {
            BTermV::And(bs) => i <= bs.len(),
            BTermV::Or(bs) => i <= bs.len(),
            BTermV::Thresh(_, bs) => i <= bs.len(),
            _ => false,
        },
    ensures
        inserted(t, q.push(i), new) is Ok,
        subterm_at(inserted(t, q.push(i), new)->Ok_0, q.push(i)) == Some(new),
        subterm_at(inserted(t, q.push(i), new)->Ok_0, q) matches Some(v) && term_children(v)
            == term_children(subterm_at(t, q)->Some_0).insert(i as int, new) && match (
            subterm_at(t, q)->Some_0,
            v,
        ) {
            (BTermV::And(_), BTermV::And(_)) => true,
            (BTermV::Or(_), BTermV::Or(_)) => true,
            (BTermV::Thresh(k, _), BTermV::Thresh(k2, _)) => k2 == k,
            _ => false,
        },
{
    let path = q.push(i);
    assert(path.drop_last() =~= q);
    assert(path.last() == i);
    lemma_edit_reads(t, q, Edit::Insert(i, new));
    let v = subterm_at(inserted(t, path, new)->Ok_0, q)->Some_0;
    lemma_subterm_extend(inserted(t, path, new)->Ok_0, q, i);
}


/// What each modification operation proposes, with its path `P`: `replace` puts its subtree at
/// `P`; `insert` adds its subtree at `P`, so that deleting at `P` gives the old body back;
/// `delete` removes the subterm at `P` as [`deleted`] does; any other type is no modification.
/// The constants are kept.
pub proof fn lemma_candidate_meaning(d: DescriptorV, o: OperationV)
    requires
        op_path(o) is Some,
    ensures
        ({
            let path = op_path(o)->Some_0;
            &&& o.op_type == "replace"@ && op_subtree(o) is Some && path.len() <= MAX_DEPTH && subterm_at(
                d.body,
                path,
            ) is Some ==> (candidate_of(d, o) matches Ok(c) && c.constants == d.constants && subterm_at(
                c.body,
                path,
            ) == Some(op_subtree(o)->Some_0))
            &&& o.op_type == "insert"@ && op_subtree(o) is Some && inserted(d.body, path, op_subtree(o)->Some_0)
                is Ok ==> (candidate_of(d, o) matches Ok(c) && c.constants == d.constants && deleted(c.body, path)
                == Ok::<BTermV, ModifyErrorV>(d.body))
            &&& o.op_type == "delete"@ ==> match deleted(d.body, path) {
                Ok(b) => candidate_of(d, o) == Ok::<DescriptorV, ModifyErrorV>(
                    DescriptorV { constants: d.constants, body: b },
                ),
                Err(e) => candidate_of(d, o) == Err::<DescriptorV, ModifyErrorV>(e),
            }
            &&& o.op_type != "replace"@ && o.op_type != "insert"@ && o.op_type != "delete"@ ==> candidate_of(
                d,
                o,
            ) == Err::<DescriptorV, ModifyErrorV>(ModifyErrorV::NotAModification(o.op_type))
        }),
{
    let path = op_path(o)->Some_0;
    reveal_strlit("replace");
    reveal_strlit("insert");
    reveal_strlit("delete");
    assert("replace"@[0] != "insert"@[0] && "replace"@[0] != "delete"@[0] && "insert"@[0] != "delete"@[0]);
    if o.op_type == "replace"@ && op_subtree(o) is Some && path.len() <= MAX_DEPTH && subterm_at(d.body, path) is Some {
        lemma_replace_succeeds(d.body, path, op_subtree(o)->Some_0);
        lemma_replace_then_read(d.body, path, op_subtree(o)->Some_0);
    }
    if o.op_type == "insert"@ && op_subtree(o) is Some && inserted(d.body, path, op_subtree(o)->Some_0) is Ok {
        lemma_delete_undoes_insert(d.body, path, op_subtree(o)->Some_0);
    }
}

} // verus!
