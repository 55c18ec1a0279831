//! Index type.

use crate::ir::types::Type;
use vstd::prelude::*;

verus! {

/// The type of loop bounds, steps and induction variables.
#[derive(Debug, Clone, Copy, PartialEq, Eq, Structural, Hash)]
pub struct IndexType;

impl IndexType {
    /// The index type, as a type of the intermediate representation.
    pub fn get() -> (ty: Type)
        ensures
            ty == Type::Index,
    {
        Type::Index
    }
}

} // verus!
