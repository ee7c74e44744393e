//! Descriptors: a constant environment together with an authorization term.
use vstd::prelude::*;

use crate::ast::{BTerm, BTermV, Value, ValueV, copy_term, copy_value};
use crate::maps::{NameMap, SortedMap, keys_sorted};

verus! {

/// The bindings of a descriptor's `with(...)` constants.
pub type Env = NameMap<Value>;

/// A complete descriptor: `with(...)` constants bound once at deposit-open, and the body term.
#[derive(Debug, PartialEq, Eq)]
pub struct Descriptor {
    /// Named constants, sorted by name.
    pub constants: Env,
    /// The authorization term.
    pub body: BTerm,
}

/// The view of a [`Descriptor`].
pub struct DescriptorV {
    pub constants: Seq<(Seq<char>, ValueV)>,
    pub body: BTermV,
}

impl View for Descriptor {
    type V = DescriptorV;

    open spec fn view(&self) -> DescriptorV {
        DescriptorV { constants: self.constants@, body: self.body@ }
    }
}

impl Descriptor {
    /// A descriptor with the given constants and body.
    pub fn wsh(constants: Env, body: BTerm) -> (r: Descriptor)
        ensures
            r@ == (DescriptorV { constants: constants@, body: body@ }),
    {
        Descriptor { constants, body }
    }

    /// The descriptor's body term.
    pub fn body(&self) -> (r: &BTerm)
        ensures
            r@ == self@.body,
    {
        &self.body
    }
}

/// A copy of a constant environment, with the same view.
pub fn copy_env(env: &Env) -> (r: Env)
    ensures
        r@ == env@,
{
    let entries = env.entries();
    proof {
        env.lemma_view_entries();
    }
    let mut out: Env = SortedMap::new();
    let mut i: usize = 0;
    while i < entries.len()
        invariant
            i <= entries@.len(),
            entries@ == env.entries_spec(),
            keys_sorted::<String, ValueV>(env@),
            env@.len() == entries@.len(),
            forall|j: int|
                0 <= j < env@.len() ==> #[trigger] env@[j] == (entries@[j].0@, entries@[j].1@),
            out@ == env@.take(i as int),
        decreases entries@.len() - i,
    {
        let key = entries[i].0.clone();
        let value = copy_value(&entries[i].1);
        assert forall|j: int| 0 <= j < out@.len() implies crate::bytes::bytes_lt(
            #[trigger] <String as crate::maps::SortKey>::sort_bytes(out@[j].0),
            <String as crate::maps::SortKey>::sort_bytes(key@),
        ) by {
            assert(out@[j] == env@[j]);
            assert(env@[i as int].0 == key@);
        }
        out.push_last(key, value);
        i = i + 1;
        assert(out@ =~= env@.take(i as int));
    }
    assert(env@.take(env@.len() as int) =~= env@);
    out
}

/// A copy of a descriptor, with the same view.
pub fn copy_descriptor(d: &Descriptor) -> (r: Descriptor)
    ensures
        r@ == d@,
{
    Descriptor { constants: copy_env(&d.constants), body: copy_term(&d.body) }
}

} // verus!
