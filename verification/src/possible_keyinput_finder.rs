//! Which key inputs have to be intercepted while a focus lasts.
//!
//! Only key inputs that were registered beforehand are intercepted at all, so
//! every key input that some rule could match is recorded: under no focus for
//! a global rule, under an application for a rule of that application. While
//! an application has the focus its key inputs are intercepted in addition to
//! the global ones, never in their place.

use crate::focus::Focus;
use crate::key::{KeyInput, KeyInputView, Rank};
use crate::laws::{clone_law, order_law};
use std::collections::BTreeMap;
use vstd::prelude::*;

verus! {

broadcast use vstd::std_specs::btree::group_btree_axioms;

/// The laws of the raw types under which key inputs can be found by focus.
pub open spec fn finder_laws<A: Ord + Clone, K: Ord + Clone, M: Ord + Clone>() -> bool {
    &&& order_law::<A>()
    &&& order_law::<K>()
    &&& clone_law::<K>()
    &&& order_law::<M>()
}

/// Each key input of `s` goes before all that follow it, in the order of key
/// inputs: `s` ascends by `<`, and holds nothing twice.
pub open spec fn strictly_sorted<K: Ord, M: Ord>(s: Seq<KeyInputView<K, M>>) -> bool {
    forall|i: int, j: int| 0 <= i < j < s.len() ==> s[i].sorts_before(s[j])
}

/// Whether `found` is what is to be intercepted under a focus, given the key
/// inputs recorded under no focus and those recorded under the focused
/// application, if one is focused.
///
/// Under no focus it is the global record as it stands. Under an application
/// it is the global record and the application's together, sorted, each key
/// input once.
pub open spec fn is_found<K: Ord, M: Ord>(
    global: Seq<KeyInputView<K, M>>,
    of_application: Option<Seq<KeyInputView<K, M>>>,
    found: Seq<KeyInputView<K, M>>,
) -> bool {
    match of_application {
        None => found == global,
        Some(additional) => strictly_sorted(found) && found.to_set() == global.to_set().union(
            additional.to_set(),
        ),
    }
}

/// What is intercepted while an application has the focus includes all that
/// is intercepted while nothing has, and all that is recorded under the
/// application: the key inputs of an application are added to the global
/// ones and never take their place.
pub proof fn lemma_focused_includes_global<K: Ord, M: Ord>(
    global: Seq<KeyInputView<K, M>>,
    additional: Seq<KeyInputView<K, M>>,
    found_unfocused: Seq<KeyInputView<K, M>>,
    found_focused: Seq<KeyInputView<K, M>>,
)
    requires
        is_found(global, None, found_unfocused),
        is_found(global, Some(additional), found_focused),
    ensures
        found_unfocused.to_set().subset_of(found_focused.to_set()),
        additional.to_set().subset_of(found_focused.to_set()),
{
}

/// What is to be intercepted under a focus is determined by what is
/// recorded: two lists that both are what is found are the same list.
pub proof fn lemma_found_is_determined<K: Ord, M: Ord>(
    global: Seq<KeyInputView<K, M>>,
    of_application: Option<Seq<KeyInputView<K, M>>>,
    found: Seq<KeyInputView<K, M>>,
    other: Seq<KeyInputView<K, M>>,
)
    requires
        order_law::<K>(),
        order_law::<M>(),
        is_found(global, of_application, found),
        is_found(global, of_application, other),
    ensures
        found == other,
{
    if of_application is Some {
        lemma_sorted_lists_of_one_set_are_equal(found, other);
    }
}

/// Two sorted lists that hold the same key inputs are the same list.
proof fn lemma_sorted_lists_of_one_set_are_equal<K: Ord, M: Ord>(
    s: Seq<KeyInputView<K, M>>,
    t: Seq<KeyInputView<K, M>>,
)
    requires
        order_law::<K>(),
        order_law::<M>(),
        strictly_sorted(s),
        strictly_sorted(t),
        s.to_set() == t.to_set(),
    ensures
        s == t,
    decreases s.len(),
{
    if s.len() == 0 {
        if t.len() > 0 {
            assert(t.contains(t[0]));
            assert(s.to_set().contains(t[0]));
        }
        assert(s =~= t);
    } else {
        assert(s.contains(s[0]));
        assert(t.to_set().contains(s[0]));
        let j = choose|j: int| 0 <= j < t.len() && t[j] == s[0];
        assert(t.contains(t[0]));
        assert(s.to_set().contains(t[0]));
        let i = choose|i: int| 0 <= i < s.len() && s[i] == t[0];
        if j > 0 {
            assert(t[0].sorts_before(t[j]));
            crate::key::lemma_key_input_order_is_asymmetric(t[0], t[j]);
            if i > 0 {
                assert(s[0].sorts_before(s[i]));
            }
        }
        assert(s[0] == t[0]);
        let s_rest = s.drop_first();
        let t_rest = t.drop_first();
        assert forall|x: KeyInputView<K, M>| s_rest.to_set().contains(x) <==> t_rest.to_set().contains(
            x,
        ) by {
            if s_rest.contains(x) {
                let k = choose|k: int| 0 <= k < s_rest.len() && s_rest[k] == x;
                assert(s[k + 1] == x);
                assert(s[0].sorts_before(s[k + 1]));
                crate::key::lemma_key_input_order_is_asymmetric(s[0], x);
                assert(s.contains(x));
                assert(t.to_set().contains(x));
                let l = choose|l: int| 0 <= l < t.len() && t[l] == x;
                assert(l > 0);
                assert(t_rest[l - 1] == x);
            }
            if t_rest.contains(x) {
                let k = choose|k: int| 0 <= k < t_rest.len() && t_rest[k] == x;
                assert(t[k + 1] == x);
                assert(t[0].sorts_before(t[k + 1]));
                crate::key::lemma_key_input_order_is_asymmetric(t[0], x);
                assert(t.contains(x));
                assert(s.to_set().contains(x));
                let l = choose|l: int| 0 <= l < s.len() && s[l] == x;
                assert(l > 0);
                assert(s_rest[l - 1] == x);
            }
        }
        assert(s_rest.to_set() =~= t_rest.to_set());
        assert forall|a: int, b: int| 0 <= a < b < s_rest.len() implies s_rest[a].sorts_before(
            s_rest[b],
        ) by {
            assert(s[a + 1].sorts_before(s[b + 1]));
        }
        assert forall|a: int, b: int| 0 <= a < b < t_rest.len() implies t_rest[a].sorts_before(
            t_rest[b],
        ) by {
            assert(t[a + 1].sorts_before(t[b + 1]));
        }
        lemma_sorted_lists_of_one_set_are_equal(s_rest, t_rest);
        assert(s =~= seq![s[0]] + s_rest);
        assert(t =~= seq![t[0]] + t_rest);
    }
}

/// The key inputs to intercept, by focus.
#[verifier::reject_recursive_types(A)]
pub struct PossibleKeyinputFinder<A, K, M> {
    global: Vec<KeyInput<K, M>>,
    by_application: BTreeMap<A, Vec<KeyInput<K, M>>>,
}

impl<A: Ord + Clone, K: Ord + Clone, M: Ord + Clone> PossibleKeyinputFinder<A, K, M> {
    /// The key inputs recorded under `focus`, in the order in which they
    /// were recorded; none where nothing was recorded under it.
    pub closed spec fn recorded(&self, focus: Option<A>) -> Seq<KeyInputView<K, M>> {
        match focus {
            None => self.global.deep_view(),
            Some(application) => if self.by_application@.contains_key(application) {
                self.by_application@[application].deep_view()
            } else {
                Seq::empty()
            },
        }
    }

    /// The key inputs recorded under the application that has the focus, if
    /// one has.
    pub open spec fn of_application(&self, focus: Option<A>) -> Option<Seq<KeyInputView<K, M>>> {
        match focus {
            None => None,
            Some(application) => Some(self.recorded(Some(application))),
        }
    }

    /// The key inputs to intercept while `focus` lasts: the list that
    /// `is_found` describes.
    pub open spec fn found(&self, focus: Option<A>) -> Seq<KeyInputView<K, M>> {
        choose|found: Seq<KeyInputView<K, M>>| #[trigger]
            is_found(
                self.recorded(None),
                self.of_application(focus),
                found,
            )
    }

    /// A finder with `global` recorded under no focus and the key inputs of
    /// `by_application` under their applications.
    pub fn new(global: Vec<KeyInput<K, M>>, by_application: BTreeMap<A, Vec<KeyInput<K, M>>>) -> (finder:
        Self)
        ensures
            finder.recorded(None) == global.deep_view(),
            forall|application: A|
                #[trigger] finder.recorded(Some(application)) == if by_application@.contains_key(
                    application,
                ) {
                    by_application@[application].deep_view()
                } else {
                    Seq::empty()
                },
    {
        Self { global: global, by_application: by_application }
    }

    /// The key inputs to intercept while `focus` lasts.
    ///
    /// Under no focus these are the key inputs recorded under no focus.
    /// Under an application they are those and the ones recorded under the
    /// application, sorted, each once: the key inputs of an application never
    /// take the place of the global ones.
    pub fn find(&self, focus: Focus<A>) -> (found: Vec<KeyInput<K, M>>)
        requires
            finder_laws::<A, K, M>(),
        ensures
            is_found(
                self.recorded(None),
                self.of_application(focus@),
                found.deep_view(),
            ),
            found.deep_view() == self.found(focus@),
    {
        let found = self.search(&focus);
        proof {
            lemma_found_is_determined(
                self.recorded(None),
                self.of_application(focus@),
                found.deep_view(),
                self.found(focus@),
            );
        }
        found
    }

    /// Puts together what is to be intercepted while `focus` lasts.
    fn search(&self, focus: &Focus<A>) -> (found: Vec<KeyInput<K, M>>)
        requires
            finder_laws::<A, K, M>(),
        ensures
            is_found(
                self.recorded(None),
                self.of_application(focus@),
                found.deep_view(),
            ),
    {
        match focus {
            Focus::NoFocus => copy_all(&self.global),
            Focus::Focused { application } => {
                let ghost global = self.recorded(None);
                let ghost additional = self.recorded(Some(application@));
                let mut all: Vec<KeyInput<K, M>> = Vec::new();
                assert(all.deep_view() =~= Seq::empty());
                merge_sorted(&mut all, &self.global);
                assert(all.deep_view().to_set() =~= global.to_set());
                match self.by_application.get(application.identifier()) {
                    Some(recorded) => {
                        assert(recorded.deep_view() == additional);
                        merge_sorted(&mut all, recorded);
                    },
                    None => {
                        assert(additional.to_set() =~= Set::empty());
                    },
                }
                assert(all.deep_view().to_set() =~= global.to_set().union(additional.to_set()));
                all
            },
        }
    }
}

/// A list with the same key inputs in the same order.
fn copy_all<K: Ord + Clone, M: Ord + Clone>(key_inputs: &Vec<KeyInput<K, M>>) -> (copies: Vec<
    KeyInput<K, M>,
>)
    requires
        clone_law::<K>(),
    ensures
        copies.deep_view() == key_inputs.deep_view(),
{
    let mut copies: Vec<KeyInput<K, M>> = Vec::new();
    let mut i: usize = 0;
    while i < key_inputs.len()
        invariant
            clone_law::<K>(),
            i <= key_inputs.len(),
            copies.len() == i,
            forall|k: int| 0 <= k < i ==> (#[trigger] copies[k])@ == key_inputs[k]@,
        decreases key_inputs.len() - i,
    {
        copies.push(key_inputs[i].duplicate());
        i += 1;
    }
    assert(copies.deep_view() =~= key_inputs.deep_view());
    copies
}

/// Puts `key_input` into the sorted list `sorted`, at its place in the order,
/// unless the list holds it already.
fn insert_sorted<K: Ord + Clone, M: Ord + Clone>(
    sorted: &mut Vec<KeyInput<K, M>>,
    key_input: KeyInput<K, M>,
)
    requires
        order_law::<K>(),
        order_law::<M>(),
        strictly_sorted(old(sorted).deep_view()),
    ensures
        strictly_sorted(final(sorted).deep_view()),
        final(sorted).deep_view().to_set() == old(sorted).deep_view().to_set().insert(key_input@),
{
    let ghost before = sorted.deep_view();
    let mut at: usize = 0;
    while at < sorted.len()
        invariant
            order_law::<K>(),
            order_law::<M>(),
            sorted.deep_view() == before,
            strictly_sorted(before),
            at <= sorted.len(),
            forall|k: int| 0 <= k < at ==> (#[trigger] before[k]).sorts_before(key_input@),
        ensures
            forall|k: int|
                at <= k < before.len() ==> key_input@.sorts_before(#[trigger] before[k]),
        decreases sorted.len() - at,
    {
        match sorted[at].rank(&key_input) {
            Rank::Lower => {
                assert(before[at as int] == sorted[at as int]@);
            },
            Rank::Equal => {
                proof {
                    assert(before[at as int] == key_input@);
                    assert(before.contains(key_input@));
                    assert(before.to_set().insert(key_input@) =~= before.to_set());
                }
                return ;
            },
            Rank::Higher => {
                proof {
                    assert(before[at as int] == sorted[at as int]@);
                    assert forall|k: int| at <= k < before.len() implies key_input@.sorts_before(
                        #[trigger] before[k],
                    ) by {
                        if at < k {
                            crate::key::lemma_key_input_order_is_transitive(
                                key_input@,
                                before[at as int],
                                before[k],
                            );
                        }
                    }
                }
                break ;
            },
        }
        at += 1;
    }
    sorted.insert(at, key_input);
    proof {
        assert(sorted.deep_view() =~= before.insert(at as int, key_input@));
        lemma_insert_keeps_sorted(before, at as int, key_input@);
    }
}

/// A key input put between the key inputs that go before it and those that
/// it goes before leaves a sorted list sorted.
proof fn lemma_insert_keeps_sorted<K: Ord, M: Ord>(
    s: Seq<KeyInputView<K, M>>,
    at: int,
    key_input: KeyInputView<K, M>,
)
    requires
        strictly_sorted(s),
        0 <= at <= s.len(),
        forall|k: int| 0 <= k < at ==> (#[trigger] s[k]).sorts_before(key_input),
        forall|k: int| at <= k < s.len() ==> key_input.sorts_before(#[trigger] s[k]),
    ensures
        strictly_sorted(s.insert(at, key_input)),
        s.insert(at, key_input).to_set() == s.to_set().insert(key_input),
{
    let t = s.insert(at, key_input);
    assert forall|i: int, j: int| 0 <= i < j < t.len() implies t[i].sorts_before(t[j]) by {
        if i < at {
            assert(t[i] == s[i]);
        } else if i > at {
            assert(t[i] == s[i - 1]);
        }
        if j < at {
            assert(t[j] == s[j]);
        } else if j > at {
            assert(t[j] == s[j - 1]);
        }
    }
    assert forall|x: KeyInputView<K, M>| t.to_set().contains(x) <==> s.to_set().insert(
        key_input,
    ).contains(x) by {
        if t.contains(x) {
            let i = choose|i: int| 0 <= i < t.len() && t[i] == x;
            if i < at {
                assert(s[i] == x);
            } else if i > at {
                assert(s[i - 1] == x);
            }
        }
        if s.contains(x) {
            let i = choose|i: int| 0 <= i < s.len() && s[i] == x;
            if i < at {
                assert(t[i] == x);
            } else {
                assert(t[i + 1] == x);
            }
        }
        if x == key_input {
            assert(t[at] == x);
        }
    }
    assert(t.to_set() =~= s.to_set().insert(key_input));
}

/// Puts all of `key_inputs` into the sorted list `sorted`.
fn merge_sorted<K: Ord + Clone, M: Ord + Clone>(
    sorted: &mut Vec<KeyInput<K, M>>,
    key_inputs: &Vec<KeyInput<K, M>>,
)
    requires
        order_law::<K>(),
        clone_law::<K>(),
        order_law::<M>(),
        strictly_sorted(old(sorted).deep_view()),
    ensures
        strictly_sorted(final(sorted).deep_view()),
        final(sorted).deep_view().to_set() == old(sorted).deep_view().to_set().union(
            key_inputs.deep_view().to_set(),
        ),
{
    let ghost before = sorted.deep_view();
    let ghost added = key_inputs.deep_view();
    let mut i: usize = 0;
    while i < key_inputs.len()
        invariant
            order_law::<K>(),
            clone_law::<K>(),
            order_law::<M>(),
            added == key_inputs.deep_view(),
            i <= key_inputs.len(),
            strictly_sorted(sorted.deep_view()),
            sorted.deep_view().to_set() == before.to_set().union(added.take(i as int).to_set()),
        decreases key_inputs.len() - i,
    {
        proof {
            let seen = added.take(i as int);
            assert(added.take(i + 1) =~= seen.push(key_inputs[i as int]@));
            seen.lemma_push_to_set_commute(key_inputs[i as int]@);
        }
        insert_sorted(sorted, key_inputs[i].duplicate());
        i += 1;
        assert(sorted.deep_view().to_set() =~= before.to_set().union(
            added.take(i as int).to_set(),
        ));
    }
    assert(added.take(i as int) =~= added);
}

} // verus!
