//! The rules that a configuration can hold.

use crate::action::{Action, ActionView};
use crate::key::{KeyInput, KeyInputView};
use crate::keybind::composit_keybind::first_pressed;
use crate::keybind::composit_keybind::first_released;
use crate::keybind::execution_keybind::{execute_on_exact_match, ExecutionKeyBind};
use crate::keybind::KeyBind;
use crate::keymap::{remap, Keymap};
use vstd::prelude::*;

verus! {

/// A rule of either kind: a key map or a command.
pub enum ConfiguredKeyBind<K, M, C> {
    Keymap(Keymap<K, M>),
    Execution(ExecutionKeyBind<K, M, C>),
}

/// What a rule of either kind is.
#[verifier::reject_recursive_types(M)]
pub enum ConfiguredKeyBindView<K, M, C> {
    /// `from` is answered with `to`.
    Keymap { from: KeyInputView<K, M>, to: KeyInputView<K, M> },
    /// `from` is answered with the command `execution`.
    Execution { from: KeyInputView<K, M>, execution: C },
}

impl<K, M, C> ConfiguredKeyBindView<K, M, C> {
    /// The action of the rule for `key_input` going down, if it has one.
    pub open spec fn pressed(self, key_input: KeyInputView<K, M>) -> Option<ActionView<K, M, C>> {
        match self {
            ConfiguredKeyBindView::Keymap { from, to } => remap(from, to, key_input),
            ConfiguredKeyBindView::Execution { from, execution } => execute_on_exact_match(
                from,
                execution,
                key_input,
            ),
        }
    }

    /// The action of the rule for `key_input` going up, if it has one.
    pub open spec fn released(self, key_input: KeyInputView<K, M>) -> Option<
        ActionView<K, M, C>,
    > {
        match self {
            ConfiguredKeyBindView::Keymap { from, to } => remap(from, to, key_input),
            ConfiguredKeyBindView::Execution { from, execution } => None,
        }
    }
}

/// The first action that `rules` give for `key_input` going down, in their
/// order; `None` where none of them gives one.
pub open spec fn first_action_pressed<K, M, C>(
    rules: Seq<ConfiguredKeyBindView<K, M, C>>,
    key_input: KeyInputView<K, M>,
) -> Option<ActionView<K, M, C>>
    decreases rules.len(),
{
    if rules.len() == 0 {
        None
    } else {
        match rules[0].pressed(key_input) {
            Some(action) => Some(action),
            None => first_action_pressed(rules.drop_first(), key_input),
        }
    }
}

/// The first action that `rules` give for `key_input` going up, in their
/// order; `None` where none of them gives one.
pub open spec fn first_action_released<K, M, C>(
    rules: Seq<ConfiguredKeyBindView<K, M, C>>,
    key_input: KeyInputView<K, M>,
) -> Option<ActionView<K, M, C>>
    decreases rules.len(),
{
    if rules.len() == 0 {
        None
    } else {
        match rules[0].released(key_input) {
            Some(action) => Some(action),
            None => first_action_released(rules.drop_first(), key_input),
        }
    }
}

impl<K: PartialEq + Clone, M: Ord + Clone, C: Clone> View for ConfiguredKeyBind<K, M, C> {
    type V = ConfiguredKeyBindView<K, M, C>;

    open spec fn view(&self) -> ConfiguredKeyBindView<K, M, C> {
        match self {
            ConfiguredKeyBind::Keymap(keymap) => ConfiguredKeyBindView::Keymap {
                from: keymap.from(),
                to: keymap.to(),
            },
            ConfiguredKeyBind::Execution(execution) => ConfiguredKeyBindView::Execution {
                from: execution.from(),
                execution: execution.execution(),
            },
        }
    }
}

impl<K: PartialEq + Clone, M: Ord + Clone, C: Clone> DeepView for ConfiguredKeyBind<K, M, C> {
    type V = ConfiguredKeyBindView<K, M, C>;

    open spec fn deep_view(&self) -> ConfiguredKeyBindView<K, M, C> {
        self@
    }
}

impl<K: PartialEq + Clone, M: Ord + Clone, C: Clone> KeyBind<K, M, C> for ConfiguredKeyBind<
    K,
    M,
    C,
> {
    open spec fn pressed_spec(&self, key_input: KeyInputView<K, M>) -> Option<
        ActionView<K, M, C>,
    > {
        self@.pressed(key_input)
    }

    open spec fn released_spec(&self, key_input: KeyInputView<K, M>) -> Option<
        ActionView<K, M, C>,
    > {
        self@.released(key_input)
    }

    fn pressed(&self, key_input: &KeyInput<K, M>) -> (action: Option<Action<K, M, C>>) {
        match self {
            ConfiguredKeyBind::Keymap(keymap) => keymap.pressed(key_input),
            ConfiguredKeyBind::Execution(execution) => execution.pressed(key_input),
        }
    }

    fn released(&self, key_input: &KeyInput<K, M>) -> (action: Option<Action<K, M, C>>) {
        match self {
            ConfiguredKeyBind::Keymap(keymap) => keymap.released(key_input),
            ConfiguredKeyBind::Execution(execution) => execution.released(key_input),
        }
    }
}

/// A list of rules answers as the list of what the rules are does.
pub proof fn lemma_list_answers_as_its_views<K: PartialEq + Clone, M: Ord + Clone, C: Clone>(
    keybindings: Seq<ConfiguredKeyBind<K, M, C>>,
    key_input: KeyInputView<K, M>,
)
    ensures
        first_pressed(keybindings, key_input) == first_action_pressed(
            keybindings.map_values(|keybind: ConfiguredKeyBind<K, M, C>| keybind@),
            key_input,
        ),
        first_released(keybindings, key_input) == first_action_released(
            keybindings.map_values(|keybind: ConfiguredKeyBind<K, M, C>| keybind@),
            key_input,
        ),
    decreases keybindings.len(),
{
    let views = keybindings.map_values(|keybind: ConfiguredKeyBind<K, M, C>| keybind@);
    if keybindings.len() > 0 {
        assert(views.drop_first() =~= keybindings.drop_first().map_values(
            |keybind: ConfiguredKeyBind<K, M, C>| keybind@,
        ));
        lemma_list_answers_as_its_views(keybindings.drop_first(), key_input);
    }
}

} // verus!
