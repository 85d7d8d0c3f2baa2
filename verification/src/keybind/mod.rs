//! Rules that bind key inputs to actions.

pub mod composit_keybind;
pub mod configured_keybind;
pub mod execution_keybind;
pub mod keybind_for_focus;

use crate::action::{Action, ActionView};
use crate::key::{key_input_laws, KeyInput, KeyInputView};
use crate::laws::clone_law;
use vstd::prelude::*;

verus! {

/// The laws of the raw types under which rules over `K`, `M` and `C` can be
/// asked for their actions.
pub open spec fn bind_laws<K: PartialEq + Clone, M: Ord + Clone, C: Clone>() -> bool {
    key_input_laws::<K, M>() && clone_law::<C>()
}

/// Something that may answer a key input with an action.
///
/// What a rule answers depends on the key input alone: `pressed_spec` and
/// `released_spec` say what it is, and `pressed` and `released` compute it.
pub trait KeyBind<K: PartialEq + Clone, M: Ord + Clone, C: Clone> {
    /// The action for `key_input` going down, if the rule has one.
    spec fn pressed_spec(&self, key_input: KeyInputView<K, M>) -> Option<ActionView<K, M, C>>;

    /// The action for `key_input` going up, if the rule has one.
    spec fn released_spec(&self, key_input: KeyInputView<K, M>) -> Option<ActionView<K, M, C>>;

    fn pressed(&self, key_input: &KeyInput<K, M>) -> (action: Option<Action<K, M, C>>)
        requires
            bind_laws::<K, M, C>(),
        ensures
            action.deep_view() == self.pressed_spec(key_input@),
    ;

    fn released(&self, key_input: &KeyInput<K, M>) -> (action: Option<Action<K, M, C>>)
        requires
            bind_laws::<K, M, C>(),
        ensures
            action.deep_view() == self.released_spec(key_input@),
    ;
}

} // verus!
