//! The rule that maps one key input to another.

use crate::action::{Action, ActionView};
use crate::key::{KeyInput, KeyInputView, Matching, MatchingView};
use crate::keybind::KeyBind;
use vstd::prelude::*;

verus! {

/// What a key map from `from` to `to` answers to `observed`: where `from`
/// matches, `to` with the modifiers that the match left over.
pub open spec fn remap<K, M, C>(
    from: KeyInputView<K, M>,
    to: KeyInputView<K, M>,
    observed: KeyInputView<K, M>,
) -> Option<ActionView<K, M, C>> {
    match from.match_to(observed) {
        MatchingView::Unmatched => None,
        MatchingView::Remain(extra) => Some(
            ActionView::Key { key_input: to.merge_modifiers(extra) },
        ),
    }
}

/// A rule that answers the key input `from` with the key input `to`.
pub struct Keymap<K, M> {
    from: KeyInput<K, M>,
    to: KeyInput<K, M>,
}

impl<K: PartialEq + Clone, M: Ord + Clone> Keymap<K, M> {
    pub closed spec fn from(&self) -> KeyInputView<K, M> {
        self.from@
    }

    pub closed spec fn to(&self) -> KeyInputView<K, M> {
        self.to@
    }

    pub fn new(from: KeyInput<K, M>, to: KeyInput<K, M>) -> (keymap: Self)
        ensures
            keymap.from() == from@,
            keymap.to() == to@,
    {
        Self { from: from, to: to }
    }

    fn remapped(&self, key_input: &KeyInput<K, M>) -> (remapped: Option<KeyInput<K, M>>)
        requires
            crate::key::key_input_laws::<K, M>(),
        ensures
            remapped.deep_view() == match self.from().match_to(key_input@) {
                MatchingView::Unmatched => None,
                MatchingView::Remain(extra) => Some(self.to().merge_modifiers(extra)),
            },
    {
        match self.from.match_to(key_input) {
            Matching::Unmatched => None,
            Matching::Remain(modifiers) => Some(self.to.merge_modifiers(&modifiers)),
        }
    }
}

impl<K: PartialEq + Clone, M: Ord + Clone, C: Clone> KeyBind<K, M, C> for Keymap<K, M> {
    open spec fn pressed_spec(&self, key_input: KeyInputView<K, M>) -> Option<
        ActionView<K, M, C>,
    > {
        remap(self.from(), self.to(), key_input)
    }

    open spec fn released_spec(&self, key_input: KeyInputView<K, M>) -> Option<
        ActionView<K, M, C>,
    > {
        remap(self.from(), self.to(), key_input)
    }

    fn pressed(&self, key_input: &KeyInput<K, M>) -> (action: Option<Action<K, M, C>>) {
        match self.remapped(key_input) {
            None => None,
            Some(remapped_key_input) => Some(Action::Key { key_input: remapped_key_input }),
        }
    }

    fn released(&self, key_input: &KeyInput<K, M>) -> (action: Option<Action<K, M, C>>) {
        match self.remapped(key_input) {
            None => None,
            Some(remapped_key_input) => Some(Action::Key { key_input: remapped_key_input }),
        }
    }
}

} // verus!
