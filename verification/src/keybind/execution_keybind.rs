//! The rule that binds a key input to a command.

use crate::action::{Action, ActionView};
use crate::key::{KeyInput, KeyInputView, Matching};
use crate::keybind::KeyBind;
use crate::laws::copy_of;
use vstd::prelude::*;

verus! {

/// What a rule that binds `from` to the command `execution` answers to
/// `observed` going down: the command, where `observed` is `from` exactly.
///
/// A command is bound to a precise chord. Unlike a key map, such a rule does
/// not fire while modifiers beyond its own are held: there would be nothing to
/// put the modifiers that are left over onto.
pub open spec fn execute_on_exact_match<K, M, C>(
    from: KeyInputView<K, M>,
    execution: C,
    observed: KeyInputView<K, M>,
) -> Option<ActionView<K, M, C>> {
    if observed == from {
        Some(ActionView::Execution { execution: execution })
    } else {
        None
    }
}

/// A rule that answers the key input `from` going down with a command. It
/// has no answer to a key input going up.
#[derive(Debug, Clone)]
pub struct ExecutionKeyBind<K, M, C> {
    from: KeyInput<K, M>,
    execution: C,
}

impl<K: PartialEq + Clone, M: Ord + Clone, C: Clone> ExecutionKeyBind<K, M, C> {
    pub closed spec fn from(&self) -> KeyInputView<K, M> {
        self.from@
    }

    pub closed spec fn execution(&self) -> C {
        self.execution
    }

    pub fn new(from: KeyInput<K, M>, execution: C) -> (keybind: Self)
        ensures
            keybind.from() == from@,
            keybind.execution() == execution,
    {
        Self { from: from, execution: execution }
    }
}

impl<K: PartialEq + Clone, M: Ord + Clone, C: Clone> KeyBind<K, M, C> for ExecutionKeyBind<
    K,
    M,
    C,
> {
    open spec fn pressed_spec(&self, key_input: KeyInputView<K, M>) -> Option<
        ActionView<K, M, C>,
    > {
        execute_on_exact_match(self.from(), self.execution(), key_input)
    }

    open spec fn released_spec(&self, key_input: KeyInputView<K, M>) -> Option<
        ActionView<K, M, C>,
    > {
        None
    }

    fn pressed(&self, key_input: &KeyInput<K, M>) -> (action: Option<Action<K, M, C>>) {
        match self.from.match_to(key_input) {
            Matching::Unmatched => None,
            Matching::Remain(left_over) => {
                proof {
                    let held = key_input@.modifiers;
                    let wanted = self.from@.modifiers;
                    if left_over@.is_empty() {
                        assert forall|m: M| held.contains(m) implies wanted.contains(m) by {
                            if !wanted.contains(m) {
                                assert(held.difference(wanted).contains(m));
                            }
                        }
                        assert(held =~= wanted);
                    } else {
                        assert(wanted.difference(wanted) =~= Set::empty());
                    }
                }
                if left_over.is_empty() {
                    Some(Action::Execution { execution: copy_of(&self.execution) })
                } else {
                    None
                }
            },
        }
    }

    fn released(&self, _key_input: &KeyInput<K, M>) -> (action: Option<Action<K, M, C>>) {
        None
    }
}

} // verus!
