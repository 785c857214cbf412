//! A variable that a closure captures, found by its slot on the stack.
use vstd::prelude::*;

verus! {

/// `std::cell::BorrowMutError`, the error of a mutable borrow of a cell
/// that is borrowed already.
#[verifier::external_type_specification]
#[verifier::external_body]
pub struct ExBorrowMutError(std::cell::BorrowMutError);

/// A captured variable: the stack slot where it lives.
#[derive(Debug, PartialEq, Eq, Clone)]
pub struct UpValue {
    location: usize,
}

impl UpValue {
    /// The slot where the variable lives.
    pub closed spec fn slot(&self) -> usize {
        self.location
    }

    /// A captured variable that lives in slot `location`.
    pub fn new(location: usize) -> (u: Self)
        ensures
            u.slot() == location,
    {
        Self { location }
    }

    /// The slot where the variable lives.
    pub fn location(&self) -> (l: usize)
        ensures
            l == self.slot(),
    {
        self.location
    }

    /// Moves the variable to slot `location`. The exclusive borrow of the
    /// variable rules out a conflicting borrow, so this succeeds.
    pub fn set_location(&mut self, location: usize) -> (res: Result<(), std::cell::BorrowMutError>)
        ensures
            res is Ok,
            final(self).slot() == location,
    {
        self.location = location;
        Ok(())
    }
}

} // verus!
