//! The small tagged types shared by every component.
use vstd::prelude::*;

verus! {

/// Whether a use by value duplicates a variable or consumes it.
#[derive(Clone, Copy, Debug, PartialEq, Eq, Structural)]
pub enum Classification {
    /// Use by value duplicates the value; the source stays usable.
    Copy,
    /// Use by value transfers ownership; the source becomes unusable.
    Move,
}

/// The two kinds of borrow.
#[derive(Clone, Copy, Debug, PartialEq, Eq, Structural)]
pub enum BorrowKind {
    /// A read-only view; any number may coexist.
    Shared,
    /// A read-write view; it excludes every other borrow of the variable.
    Exclusive,
}

/// Why an operation was refused.
#[derive(Clone, Copy, Debug, PartialEq, Eq, Structural)]
pub enum ErrorKind {
    /// The name is already live in the scope of the new binding.
    DuplicateBinding,
    /// The variable was moved out before this use.
    UseAfterMove,
    /// The variable is moved while a borrow of it is active.
    CannotMoveWhileBorrowed,
    /// The new borrow overlaps a borrow that excludes it.
    ConflictingBorrow,
    /// A borrow is used out of order: before its recorded last use, or
    /// after its interval was locked.
    StaleUse,
    /// A borrow would be used after the scope of its variable has closed.
    BorrowOutlivesOwner,
    /// Borrows that must share one lifetime have no common interval.
    LifetimeConflict,
    /// The stream itself is ill-formed: it names something that was never
    /// introduced, or closes a scope that is not open.
    MalformedStream,
}

/// The ownership state of one variable.
#[derive(Clone, Copy, Debug, PartialEq, Eq, Structural)]
pub enum OwnershipState {
    /// The variable holds its value and no borrow of it is active.
    Owned,
    /// The value was moved away. Terminal: only a new binding of the name
    /// is allowed afterwards.
    MovedOut,
    /// The given number of shared borrows is active, at least one.
    BorrowedShared(usize),
    /// Exactly one exclusive borrow is active.
    BorrowedExclusive,
}

impl OwnershipState {
    /// Some borrow of the variable is active.
    pub open spec fn is_borrowed(self) -> bool {
        self is BorrowedShared || self is BorrowedExclusive
    }

    /// The state a variable can actually be in: a shared count is never zero.
    pub open spec fn valid(self) -> bool {
        self matches OwnershipState::BorrowedShared(n) ==> n >= 1
    }
}

} // verus!
