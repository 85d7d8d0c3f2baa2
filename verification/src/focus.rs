//! Where the keyboard focus is.

use crate::application::Application;
use vstd::prelude::*;

verus! {

/// The keyboard focus: on a window of an application, or nowhere.
#[derive(PartialEq, Eq, PartialOrd, Ord, Clone, Debug)]
pub enum Focus<A> {
    Focused { application: Application<A> },
    NoFocus,
}

impl<A> View for Focus<A> {
    type V = Option<A>;

    /// The identifier of the application that has the focus, if one has.
    open spec fn view(&self) -> Option<A> {
        match self {
            Focus::Focused { application } => Some(application@),
            Focus::NoFocus => None,
        }
    }
}

} // verus!
