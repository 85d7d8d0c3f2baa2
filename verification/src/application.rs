//! The application that a window belongs to.

use vstd::prelude::*;

verus! {

/// An application, identified by a raw platform value.
#[derive(PartialEq, Eq, PartialOrd, Ord, Clone, Debug)]
pub struct Application<A> {
    identifier: A,
}

impl<A> View for Application<A> {
    type V = A;

    closed spec fn view(&self) -> A {
        self.identifier
    }
}

impl<A: Clone> Application<A> {
    /// An application with the same identifier.
    pub fn duplicate(&self) -> (copy: Self)
        ensures
            crate::laws::clone_law::<A>() ==> copy@ == self@,
    {
        Self { identifier: crate::laws::copy_of(&self.identifier) }
    }
}

impl<A> Application<A> {
    pub fn new(identifier: A) -> (application: Self)
        ensures
            application@ == identifier,
    {
        Self { identifier: identifier }
    }

    pub fn identifier(&self) -> (identifier: &A)
        ensures
            *identifier == self@,
    {
        &self.identifier
    }

    pub fn into_identifier(self) -> (identifier: A)
        ensures
            identifier == self@,
    {
        self.identifier
    }
}

} // verus!
