use vstd::prelude::*;

verus! {

/// The ways in which an operation of this library rejects its inputs.
#[derive(Debug, Clone, Copy, PartialEq, Eq, Structural)]
pub enum LweError {
    /// Two ring elements, or an element and a parameter set, use different moduli.
    ModulusMismatch,
    /// A vector or matrix does not have the length or shape the parameters declare.
    DimensionMismatch,
    /// A value does not lie in `[0, modulus)`, or the modulus is the largest `u64`.
    OutOfRange,
    /// A database index lies past the end of the database.
    IndexOutOfBounds,
}

} // verus!
