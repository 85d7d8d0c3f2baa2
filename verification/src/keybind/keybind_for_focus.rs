//! Rules by focus: the rules of the focused application first, the global
//! rules after them.

use crate::action::{Action, ActionView};
use crate::focus::Focus;
use crate::key::{KeyInput, KeyInputView};
use crate::keybind::{bind_laws, KeyBind};
use crate::laws::order_law;
use std::collections::BTreeMap;
use vstd::prelude::*;

verus! {

broadcast use vstd::std_specs::btree::group_btree_axioms;

/// The laws of the raw types under which rules can be looked up by focus.
pub open spec fn focus_laws<A: Ord + Clone, K: PartialEq + Clone, M: Ord + Clone, C: Clone>() -> bool {
    order_law::<A>() && bind_laws::<K, M, C>()
}

/// The rule that speaks for `focus`: the one of the focused application, if
/// the application has one.
pub open spec fn keybind_of_focus<A, B>(
    keybind_by_application: Map<A, B>,
    focus: Option<A>,
) -> Option<B> {
    match focus {
        Some(application) => if keybind_by_application.contains_key(application) {
            Some(keybind_by_application[application])
        } else {
            None
        },
        None => None,
    }
}

/// The action for `key_input` going down while `focus` has the focus: what
/// the rule of the focused application answers, and where that is nothing, or
/// there is no such rule, what the global rule answers.
pub open spec fn layered_pressed<A, K: PartialEq + Clone, M: Ord + Clone, C: Clone, B: KeyBind<K, M, C>>(
    global_keybind: B,
    keybind_by_application: Map<A, B>,
    focus: Option<A>,
    key_input: KeyInputView<K, M>,
) -> Option<ActionView<K, M, C>> {
    match keybind_of_focus(keybind_by_application, focus) {
        Some(keybind) => match keybind.pressed_spec(key_input) {
            Some(action) => Some(action),
            None => global_keybind.pressed_spec(key_input),
        },
        None => global_keybind.pressed_spec(key_input),
    }
}

/// The action for `key_input` going up while `focus` has the focus; layered
/// as `layered_pressed` is.
pub open spec fn layered_released<A, K: PartialEq + Clone, M: Ord + Clone, C: Clone, B: KeyBind<K, M, C>>(
    global_keybind: B,
    keybind_by_application: Map<A, B>,
    focus: Option<A>,
    key_input: KeyInputView<K, M>,
) -> Option<ActionView<K, M, C>> {
    match keybind_of_focus(keybind_by_application, focus) {
        Some(keybind) => match keybind.released_spec(key_input) {
            Some(action) => Some(action),
            None => global_keybind.released_spec(key_input),
        },
        None => global_keybind.released_spec(key_input),
    }
}

/// Something that may answer a key input with an action, depending on where
/// the focus is.
pub trait IsKeyBindForFocus<A: Ord + Clone, K: PartialEq + Clone, M: Ord + Clone, C: Clone> {
    /// The action for `key_input` going down while `focus` has the focus.
    spec fn pressed_spec(&self, focus: Option<A>, key_input: KeyInputView<K, M>) -> Option<
        ActionView<K, M, C>,
    >;

    /// The action for `key_input` going up while `focus` has the focus.
    spec fn released_spec(&self, focus: Option<A>, key_input: KeyInputView<K, M>) -> Option<
        ActionView<K, M, C>,
    >;

    fn pressed(&self, focus: Focus<A>, key_input: KeyInput<K, M>) -> (action: Option<
        Action<K, M, C>,
    >)
        requires
            focus_laws::<A, K, M, C>(),
        ensures
            action.deep_view() == self.pressed_spec(focus@, key_input@),
    ;

    fn released(&self, focus: Focus<A>, key_input: KeyInput<K, M>) -> (action: Option<
        Action<K, M, C>,
    >)
        requires
            focus_laws::<A, K, M, C>(),
        ensures
            action.deep_view() == self.released_spec(focus@, key_input@),
    ;
}

/// One global rule, and one rule for each of some applications.
#[verifier::reject_recursive_types(A)]
pub struct KeyBindForFocus<A, B> {
    global_keybind: B,
    keybind_by_application: BTreeMap<A, B>,
}

impl<A: Ord + Clone, B> KeyBindForFocus<A, B> {
    /// The rule that holds wherever the focus is.
    pub closed spec fn global_keybind(&self) -> B {
        self.global_keybind
    }

    /// The rules of the applications, by the identifier of the application.
    pub closed spec fn keybind_by_application(&self) -> Map<A, B> {
        self.keybind_by_application@
    }

    pub fn new(
        global_keybind: B,
        keybind_by_application: BTreeMap<A, B>,
    ) -> (keybind_for_focus: Self)
        ensures
            keybind_for_focus.global_keybind() == global_keybind,
            keybind_for_focus.keybind_by_application() == keybind_by_application@,
    {
        Self { global_keybind: global_keybind, keybind_by_application: keybind_by_application }
    }

    /// The rule of the application that has the focus, if it has one.
    fn focused_keybind(&self, focus: &Focus<A>) -> (keybind: Option<
        &B,
    >)
        requires
            order_law::<A>(),
        ensures
            match keybind {
                Some(found) => keybind_of_focus(self.keybind_by_application(), focus@) == Some(
                    *found,
                ),
                None => keybind_of_focus(self.keybind_by_application(), focus@) is None,
            },
    {
        match focus {
            Focus::NoFocus => None,
            Focus::Focused { application } => self.keybind_by_application.get(
                application.identifier(),
            ),
        }
    }
}

impl<
    A: Ord + Clone,
    K: PartialEq + Clone,
    M: Ord + Clone,
    C: Clone,
    B: KeyBind<K, M, C>,
> IsKeyBindForFocus<A, K, M, C> for KeyBindForFocus<A, B> {
    open spec fn pressed_spec(&self, focus: Option<A>, key_input: KeyInputView<K, M>) -> Option<
        ActionView<K, M, C>,
    > {
        layered_pressed(self.global_keybind(), self.keybind_by_application(), focus, key_input)
    }

    open spec fn released_spec(&self, focus: Option<A>, key_input: KeyInputView<K, M>) -> Option<
        ActionView<K, M, C>,
    > {
        layered_released(self.global_keybind(), self.keybind_by_application(), focus, key_input)
    }

    fn pressed(&self, focus: Focus<A>, key_input: KeyInput<K, M>) -> (action: Option<
        Action<K, M, C>,
    >) {
        if let Some(keybind) = self.focused_keybind(&focus) {
            let action = keybind.pressed(&key_input);
            if action.is_some() {
                return action;
            }
        }
        self.global_keybind.pressed(&key_input)
    }

    fn released(&self, focus: Focus<A>, key_input: KeyInput<K, M>) -> (action: Option<
        Action<K, M, C>,
    >) {
        if let Some(keybind) = self.focused_keybind(&focus) {
            let action = keybind.released(&key_input);
            if action.is_some() {
                return action;
            }
        }
        self.global_keybind.released(&key_input)
    }
}

/// The rule of the focused application goes before the global rule, key
/// input by key input: where it has an action, that action is the answer;
/// where it has none, or the application has no rule, or nothing has the
/// focus, the answer is the global rule's.
pub proof fn lemma_application_rule_overrides_global_rule<
    A,
    K: PartialEq + Clone,
    M: Ord + Clone,
    C: Clone,
    B: KeyBind<K, M, C>,
>(
    global_keybind: B,
    keybind_by_application: Map<A, B>,
    application: A,
    key_input: KeyInputView<K, M>,
)
    ensures
        layered_pressed(global_keybind, keybind_by_application, None, key_input)
            == global_keybind.pressed_spec(key_input),
        !keybind_by_application.contains_key(application) ==> layered_pressed(
            global_keybind,
            keybind_by_application,
            Some(application),
            key_input,
        ) == layered_pressed(global_keybind, keybind_by_application, None, key_input),
        keybind_by_application.contains_key(application)
            && keybind_by_application[application].pressed_spec(key_input) is None
            ==> layered_pressed(
            global_keybind,
            keybind_by_application,
            Some(application),
            key_input,
        ) == layered_pressed(global_keybind, keybind_by_application, None, key_input),
        keybind_by_application.contains_key(application)
            && keybind_by_application[application].pressed_spec(key_input) is Some
            ==> layered_pressed(
            global_keybind,
            keybind_by_application,
            Some(application),
            key_input,
        ) == keybind_by_application[application].pressed_spec(key_input),
        layered_released(global_keybind, keybind_by_application, None, key_input)
            == global_keybind.released_spec(key_input),
        !keybind_by_application.contains_key(application) ==> layered_released(
            global_keybind,
            keybind_by_application,
            Some(application),
            key_input,
        ) == layered_released(global_keybind, keybind_by_application, None, key_input),
        keybind_by_application.contains_key(application)
            && keybind_by_application[application].released_spec(key_input) is None
            ==> layered_released(
            global_keybind,
            keybind_by_application,
            Some(application),
            key_input,
        ) == layered_released(global_keybind, keybind_by_application, None, key_input),
        keybind_by_application.contains_key(application)
            && keybind_by_application[application].released_spec(key_input) is Some
            ==> layered_released(
            global_keybind,
            keybind_by_application,
            Some(application),
            key_input,
        ) == keybind_by_application[application].released_spec(key_input),
{
}

} // verus!
