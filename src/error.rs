use vstd::prelude::*;

verus! {

/// The recoverable failures of the commitment operations.
#[derive(Debug, Clone, Copy, PartialEq, Eq, Structural)]
pub enum VcError {
    /// The algebraic backend was given a ciphersuite it does not know.
    UnsupportedCiphersuite,
    /// A value vector whose length differs from the configured capacity.
    CapacityMismatch,
    /// An index at or beyond the configured capacity.
    IndexOutOfRange,
    /// Objects built under different parameters were mixed.
    ParameterMismatch,
}

} // verus!
