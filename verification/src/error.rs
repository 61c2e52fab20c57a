//! Errors of the address-space layer.

use vstd::prelude::*;

verus! {

/// A terminal failure of one address-space operation.
#[derive(Copy, Clone, Debug, PartialEq, Eq, Structural)]
pub enum PTableError {
    /// The frame allocator returned nothing.
    AllocError,
    /// An unmap could not follow an intermediate entry.
    NotValid,
}

impl PTableError {
    /// A short description, in place of a `Display` rendering.
    pub fn message(&self) -> (r: &'static str)
        ensures
            *self == PTableError::AllocError ==> r@ == "alloc error"@,
            *self == PTableError::NotValid ==> r@ == "not valid"@,
    {
        match self {
            PTableError::AllocError => "alloc error",
            PTableError::NotValid => "not valid",
        }
    }
}

} // verus!
