//! What a rule answers to a key input that it matches.

use crate::key::{KeyInput, KeyInputView};
use vstd::prelude::*;

verus! {

/// What is to be done in answer to a key input: send another key input in
/// its place, or run a command.
#[derive(Debug, Clone, Eq, PartialEq)]
pub enum Action<K, M, C> {
    Key { key_input: KeyInput<K, M> },
    Execution { execution: C },
}

/// What an action is.
#[verifier::reject_recursive_types(M)]
pub enum ActionView<K, M, C> {
    Key { key_input: KeyInputView<K, M> },
    Execution { execution: C },
}

impl<K, M, C> View for Action<K, M, C> {
    type V = ActionView<K, M, C>;

    open spec fn view(&self) -> ActionView<K, M, C> {
        match self {
            Action::Key { key_input } => ActionView::Key { key_input: key_input@ },
            Action::Execution { execution } => ActionView::Execution { execution: *execution },
        }
    }
}

impl<K, M, C> DeepView for Action<K, M, C> {
    type V = ActionView<K, M, C>;

    open spec fn deep_view(&self) -> ActionView<K, M, C> {
        self@
    }
}

} // verus!
