//! Symbols and the opaque values that relations range over.

use vstd::prelude::*;

verus! {

/// An interned identifier. Symbols name relations (functions), variables and
/// sorts; the intern table that maps names to identifiers lives outside this
/// crate.
pub type Symbol = u64;

/// An opaque 128-bit record: a sort identity and a payload. Equality is
/// bitwise over `(tag, bits)`.
#[derive(Clone, Copy, PartialEq, Eq, Structural, Debug, Hash)]
pub struct Value {
    pub tag: Symbol,
    pub bits: u64,
}

impl Value {
    /// The placeholder written into tuple slots before any variable is bound.
    pub open spec fn fake_spec() -> Value {
        Value { tag: 0, bits: 0 }
    }

    pub fn fake() -> (r: Value)
        ensures
            r == Value::fake_spec(),
    {
        Value { tag: 0, bits: 0 }
    }
}

} // verus!
