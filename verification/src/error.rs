//! The typed failures of the tracker.

use vstd::prelude::*;

verus! {

/// Why an operation was refused. Every failure leaves the tracker unchanged.
#[derive(Clone, Copy, Debug, PartialEq, Eq, Structural)]
pub enum OwnershipError {
    /// The binding's resource was moved out, or the resource handed in
    /// already has an owner.
    UseAfterMove,
    /// The access would break the rule that an exclusive borrow is alone.
    BorrowConflict,
    /// The thing referred to is not alive for as long as the reference would be.
    DanglingReference,
    /// A scope would end while a borrow on one of its bindings is still live.
    BorrowOutlivesScope,
    /// A range or an index lies outside the resource or the view.
    BoundsError,
    /// The resource was already torn down.
    DoubleDrop,
}

impl OwnershipError {
    /// A short description of the failure.
    pub fn describe(&self) -> (text: &'static str)
        ensures
            text@ == describe_error(*self),
    {
        match self {
            OwnershipError::UseAfterMove => "use of a moved resource",
            OwnershipError::BorrowConflict => "conflicting borrow",
            OwnershipError::DanglingReference => "dangling reference",
            OwnershipError::BorrowOutlivesScope => "borrow outlives its scope",
            OwnershipError::BoundsError => "range out of bounds",
            OwnershipError::DoubleDrop => "resource torn down twice",
        }
    }
}

/// The text that [`OwnershipError::describe`] returns for each failure.
pub open spec fn describe_error(e: OwnershipError) -> Seq<char> {
    match e {
        OwnershipError::UseAfterMove => "use of a moved resource"@,
        OwnershipError::BorrowConflict => "conflicting borrow"@,
        OwnershipError::DanglingReference => "dangling reference"@,
        OwnershipError::BorrowOutlivesScope => "borrow outlives its scope"@,
        OwnershipError::BoundsError => "range out of bounds"@,
        OwnershipError::DoubleDrop => "resource torn down twice"@,
    }
}

} // verus!
