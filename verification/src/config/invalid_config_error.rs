//! What can be wrong with a configuration.

use vstd::prelude::*;

verus! {

/// The reason for which a configuration is refused.
#[derive(Debug, Clone, PartialEq, Eq)]
pub enum InvalidConfigError {
    /// A key input names no key.
    EmptyKey,
    /// A key name that the platform does not know.
    UnexpectedKey(String),
    /// A modifier name that the platform does not know.
    UnexpectedModifier(String),
}

/// What an error is: its kind, and the name that it is about.
pub enum InvalidConfigErrorView {
    EmptyKey,
    UnexpectedKey(Seq<char>),
    UnexpectedModifier(Seq<char>),
}

impl View for InvalidConfigError {
    type V = InvalidConfigErrorView;

    open spec fn view(&self) -> InvalidConfigErrorView {
        match self {
            InvalidConfigError::EmptyKey => InvalidConfigErrorView::EmptyKey,
            InvalidConfigError::UnexpectedKey(name) => InvalidConfigErrorView::UnexpectedKey(
                name@,
            ),
            InvalidConfigError::UnexpectedModifier(name) => InvalidConfigErrorView::UnexpectedModifier(
            name@),
        }
    }
}

/// What a result is: what its value is, or what its error is.
pub open spec fn result_view<T: View>(result: Result<T, InvalidConfigError>) -> Result<
    T::V,
    InvalidConfigErrorView,
> {
    match result {
        Ok(value) => Ok(value@),
        Err(error) => Err(error@),
    }
}

} // verus!
