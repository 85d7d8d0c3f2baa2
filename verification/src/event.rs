//! What the engine is told of.

use crate::application::Application;
use crate::key::{KeyInput, KeyInputView};
use vstd::prelude::*;

verus! {

/// Something that happened: a key input went down or up, or the focus moved
/// to a window of another application, or to none.
#[derive(Clone, Debug)]
pub enum Event<K, M, A> {
    KeyPressed { key_input: KeyInput<K, M> },
    KeyReleased { key_input: KeyInput<K, M> },
    ApplicationChanged { next_application: Option<Application<A>> },
}

/// What an event is.
#[verifier::reject_recursive_types(M)]
pub enum EventView<K, M, A> {
    KeyPressed { key_input: KeyInputView<K, M> },
    KeyReleased { key_input: KeyInputView<K, M> },
    ApplicationChanged { next_application: Option<A> },
}

impl<K, M, A> View for Event<K, M, A> {
    type V = EventView<K, M, A>;

    open spec fn view(&self) -> EventView<K, M, A> {
        match self {
            Event::KeyPressed { key_input } => EventView::KeyPressed { key_input: key_input@ },
            Event::KeyReleased { key_input } => EventView::KeyReleased { key_input: key_input@ },
            Event::ApplicationChanged { next_application } => EventView::ApplicationChanged {
                next_application: match next_application {
                    Some(application) => Some(application@),
                    None => None,
                },
            },
        }
    }
}

impl<K, M, A> DeepView for Event<K, M, A> {
    type V = EventView<K, M, A>;

    open spec fn deep_view(&self) -> EventView<K, M, A> {
        self@
    }
}

} // verus!
