//! The failures that this library reports.
use vstd::prelude::*;

verus! {

/// Why an operation failed.
#[derive(Clone, Copy, Debug, PartialEq, Eq, Structural)]
pub enum BlockError {
    /// A reader was asked for more bits or children than are left.
    CellUnderflow,
    /// A builder was asked to hold more bits or children than one node can.
    CellOverflow,
    /// A discriminator was read that no known layout has.
    InvalidConstructorTag { tag: u32 },
    /// A number does not fit into its encoding or its counter.
    IntegerOverflow,
    /// A value was read that its layout does not allow.
    InvalidData,
    /// An argument does not hold what the operation needs.
    InvalidArg,
    /// A placeholder was opened as if it held content.
    PrunedCellAccess,
    /// An account was to be activated with a state whose hash it is not committed to.
    HashMismatch,
    /// What was asked for is not under the given root.
    NotFound,
    /// The operation needs an account that exists.
    AccountIsNone,
}

/// The category of a failure, as a caller reports it.
#[derive(Clone, Copy, Debug, PartialEq, Eq, Structural)]
pub enum ErrorKind {
    /// The input is malformed.
    MalformedInput,
    /// The operation is not allowed on this input.
    PolicyViolation,
    /// The input is well formed, and what was asked for is absent.
    NotFound,
    /// The operation was called on a value it is not defined for.
    PreconditionViolation,
}

impl BlockError {
    pub open spec fn spec_kind(self) -> ErrorKind {
        match self {
            BlockError::CellUnderflow => ErrorKind::MalformedInput,
            BlockError::CellOverflow => ErrorKind::MalformedInput,
            BlockError::InvalidConstructorTag { .. } => ErrorKind::MalformedInput,
            BlockError::IntegerOverflow => ErrorKind::MalformedInput,
            BlockError::InvalidData => ErrorKind::MalformedInput,
            BlockError::InvalidArg => ErrorKind::PreconditionViolation,
            BlockError::PrunedCellAccess => ErrorKind::MalformedInput,
            BlockError::HashMismatch => ErrorKind::PolicyViolation,
            BlockError::NotFound => ErrorKind::NotFound,
            BlockError::AccountIsNone => ErrorKind::PreconditionViolation,
        }
    }

    /// The category of this failure.
    pub fn kind(&self) -> (k: ErrorKind)
        ensures
            k == self.spec_kind(),
    {
        match self {
            BlockError::CellUnderflow => ErrorKind::MalformedInput,
            BlockError::CellOverflow => ErrorKind::MalformedInput,
            BlockError::InvalidConstructorTag { .. } => ErrorKind::MalformedInput,
            BlockError::IntegerOverflow => ErrorKind::MalformedInput,
            BlockError::InvalidData => ErrorKind::MalformedInput,
            BlockError::InvalidArg => ErrorKind::PreconditionViolation,
            BlockError::PrunedCellAccess => ErrorKind::MalformedInput,
            BlockError::HashMismatch => ErrorKind::PolicyViolation,
            BlockError::NotFound => ErrorKind::NotFound,
            BlockError::AccountIsNone => ErrorKind::PreconditionViolation,
        }
    }
}

} // verus!
