//! A list of rules that answers as the first of them that has an answer.

use crate::action::{Action, ActionView};
use crate::key::{KeyInput, KeyInputView};
use crate::keybind::{bind_laws, KeyBind};
use vstd::prelude::*;

verus! {

/// The first action that the rules give for `key_input` going down, in the
/// order of the list; `None` where none of them gives one.
pub open spec fn first_pressed<K: PartialEq + Clone, M: Ord + Clone, C: Clone, B: KeyBind<K, M, C>>(
    keybindings: Seq<B>,
    key_input: KeyInputView<K, M>,
) -> Option<ActionView<K, M, C>>
    decreases keybindings.len(),
{
    if keybindings.len() == 0 {
        None
    } else {
        match keybindings[0].pressed_spec(key_input) {
            Some(action) => Some(action),
            None => first_pressed(keybindings.drop_first(), key_input),
        }
    }
}

/// The first action that the rules give for `key_input` going up, in the
/// order of the list; `None` where none of them gives one.
pub open spec fn first_released<K: PartialEq + Clone, M: Ord + Clone, C: Clone, B: KeyBind<K, M, C>>(
    keybindings: Seq<B>,
    key_input: KeyInputView<K, M>,
) -> Option<ActionView<K, M, C>>
    decreases keybindings.len(),
{
    if keybindings.len() == 0 {
        None
    } else {
        match keybindings[0].released_spec(key_input) {
            Some(action) => Some(action),
            None => first_released(keybindings.drop_first(), key_input),
        }
    }
}

/// An ordered list of rules. The first rule that has an action for a key
/// input decides; the rules after it are not asked.
pub struct CompositKeyBind<B> {
    keybindings: Vec<B>,
}

impl<B> CompositKeyBind<B> {
    /// The rules of the list, in their order.
    pub closed spec fn keybindings(&self) -> Seq<B> {
        self.keybindings@
    }

    pub fn new(keybindings: Vec<B>) -> (composit: Self)
        ensures
            composit.keybindings() == keybindings@,
    {
        Self { keybindings: keybindings }
    }
}

impl<K: PartialEq + Clone, M: Ord + Clone, C: Clone, B: KeyBind<K, M, C>> KeyBind<
    K,
    M,
    C,
> for CompositKeyBind<B> {
    open spec fn pressed_spec(&self, key_input: KeyInputView<K, M>) -> Option<
        ActionView<K, M, C>,
    > {
        first_pressed(self.keybindings(), key_input)
    }

    open spec fn released_spec(&self, key_input: KeyInputView<K, M>) -> Option<
        ActionView<K, M, C>,
    > {
        first_released(self.keybindings(), key_input)
    }

    fn pressed(&self, key_input: &KeyInput<K, M>) -> (action: Option<Action<K, M, C>>) {
        let ghost all = self.keybindings@;
        assert(all.skip(0) =~= all);
        let mut i: usize = 0;
        while i < self.keybindings.len()
            invariant
                bind_laws::<K, M, C>(),
                all == self.keybindings@,
                i <= all.len(),
                first_pressed::<K, M, C, B>(all, key_input@) == first_pressed::<K, M, C, B>(
                    all.skip(i as int),
                    key_input@,
                ),
            decreases self.keybindings.len() - i,
        {
            let action = self.keybindings[i].pressed(key_input);
            proof {
                assert(all.skip(i as int)[0] == all[i as int]);
                assert(all.skip(i as int).drop_first() =~= all.skip(i + 1));
            }
            if action.is_some() {
                return action;
            }
            i += 1;
        }
        None
    }

    fn released(&self, key_input: &KeyInput<K, M>) -> (action: Option<Action<K, M, C>>) {
        let ghost all = self.keybindings@;
        assert(all.skip(0) =~= all);
        let mut i: usize = 0;
        while i < self.keybindings.len()
            invariant
                bind_laws::<K, M, C>(),
                all == self.keybindings@,
                i <= all.len(),
                first_released::<K, M, C, B>(all, key_input@) == first_released::<K, M, C, B>(
                    all.skip(i as int),
                    key_input@,
                ),
            decreases self.keybindings.len() - i,
        {
            let action = self.keybindings[i].released(key_input);
            proof {
                assert(all.skip(i as int)[0] == all[i as int]);
                assert(all.skip(i as int).drop_first() =~= all.skip(i + 1));
            }
            if action.is_some() {
                return action;
            }
            i += 1;
        }
        None
    }
}

/// The first rule of the list that has an action decides: the answer of the
/// list is the answer of the rule at `i` where no rule before `i` has one.
pub proof fn lemma_first_match_wins<
    K: PartialEq + Clone,
    M: Ord + Clone,
    C: Clone,
    B: KeyBind<K, M, C>,
>(keybindings: Seq<B>, key_input: KeyInputView<K, M>, i: int)
    requires
        0 <= i < keybindings.len(),
    ensures
        (forall|j: int| 0 <= j < i ==> (#[trigger] keybindings[j]).pressed_spec(key_input) is None)
            && keybindings[i].pressed_spec(key_input) is Some ==> first_pressed(
            keybindings,
            key_input,
        ) == keybindings[i].pressed_spec(key_input),
        (forall|j: int| 0 <= j < i ==> (#[trigger] keybindings[j]).released_spec(key_input) is None)
            && keybindings[i].released_spec(key_input) is Some ==> first_released(
            keybindings,
            key_input,
        ) == keybindings[i].released_spec(key_input),
    decreases i,
{
    if i > 0 {
        let rest = keybindings.drop_first();
        assert forall|j: int| 0 <= j < i - 1 implies rest[j] == keybindings[j + 1] by {}
        lemma_first_match_wins::<K, M, C, B>(rest, key_input, i - 1);
        if (forall|j: int| 0 <= j < i ==> (#[trigger] keybindings[j]).pressed_spec(key_input) is None) {
            assert(keybindings[0].pressed_spec(key_input) is None);
            assert forall|j: int| 0 <= j < i - 1 implies (#[trigger] rest[j]).pressed_spec(
                key_input,
            ) is None by {
                assert(keybindings[j + 1].pressed_spec(key_input) is None);
            }
        }
        if (forall|j: int| 0 <= j < i ==> (#[trigger] keybindings[j]).released_spec(key_input) is None) {
            assert(keybindings[0].released_spec(key_input) is None);
            assert forall|j: int| 0 <= j < i - 1 implies (#[trigger] rest[j]).released_spec(
                key_input,
            ) is None by {
                assert(keybindings[j + 1].released_spec(key_input) is None);
            }
        }
        assert(rest[i - 1] == keybindings[i]);
    }
}

/// A list in which no rule has an action for a key input has none either.
pub proof fn lemma_no_match_gives_nothing<
    K: PartialEq + Clone,
    M: Ord + Clone,
    C: Clone,
    B: KeyBind<K, M, C>,
>(keybindings: Seq<B>, key_input: KeyInputView<K, M>)
    ensures
        (forall|j: int|
            0 <= j < keybindings.len() ==> (#[trigger] keybindings[j]).pressed_spec(key_input)
                is None) ==> first_pressed(keybindings, key_input) is None,
        (forall|j: int|
            0 <= j < keybindings.len() ==> (#[trigger] keybindings[j]).released_spec(key_input)
                is None) ==> first_released(keybindings, key_input) is None,
    decreases keybindings.len(),
{
    if keybindings.len() > 0 {
        let rest = keybindings.drop_first();
        lemma_no_match_gives_nothing::<K, M, C, B>(rest, key_input);
        if (forall|j: int|
            0 <= j < keybindings.len() ==> (#[trigger] keybindings[j]).pressed_spec(key_input)
                is None) {
            assert(keybindings[0].pressed_spec(key_input) is None);
            assert forall|j: int| 0 <= j < rest.len() implies (#[trigger] rest[j]).pressed_spec(
                key_input,
            ) is None by {
                assert(rest[j] == keybindings[j + 1]);
                assert(keybindings[j + 1].pressed_spec(key_input) is None);
            }
        }
        if (forall|j: int|
            0 <= j < keybindings.len() ==> (#[trigger] keybindings[j]).released_spec(key_input)
                is None) {
            assert(keybindings[0].released_spec(key_input) is None);
            assert forall|j: int| 0 <= j < rest.len() implies (#[trigger] rest[j]).released_spec(
                key_input,
            ) is None by {
                assert(rest[j] == keybindings[j + 1]);
                assert(keybindings[j + 1].released_spec(key_input) is None);
            }
        }
    }
}

} // verus!
