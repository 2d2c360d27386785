use vstd::prelude::*;

verus! {

/// A value that can live on the evaluation stack: a signed 32-bit
/// integer or a boolean.
#[derive(Clone, Copy, Debug, PartialEq, Eq, Structural, PartialOrd)]
pub enum Elt {
    Int(i32),
    Bool(bool),
}

impl Elt {
    /// The negation of a value: arithmetic (wrapping) negation for an
    /// integer, logical negation for a boolean.
    pub open spec fn spec_neg(self) -> Elt {
        match self {
            Elt::Int(n) => Elt::Int(if n == i32::MIN { i32::MIN } else { (-n) as i32 }),
            Elt::Bool(b) => Elt::Bool(!b),
        }
    }
}

} // verus!
