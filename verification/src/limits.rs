//! Hard limits on the nesting depth of untrusted input.
use vstd::prelude::*;

verus! {

/// Maximum nesting depth of a term during parsing, decoding and modification. Admission
/// rejects descriptors whose body is deeper than this.
pub const MAX_DEPTH: usize = 128;

} // verus!
