//! That every key input that a rule can match is among the key inputs to
//! intercept.
//!
//! A rule with possible modifiers matches its key input with any of them
//! held in addition. It can do so only for key inputs that are intercepted,
//! so each of those has to be among the possible key inputs of the rule.

use crate::config::combination::{combinations, is_choice, stands_before};
use crate::config::into_domain::{key_input_spec, modifiers_spec, IsIntoDomain};
use crate::config::intercepts::{
    chosen, key_inputs_with, key_inputs_with_fewer_than, names_of, possible_key_inputs,
    possible_modifiers_of, recorded_under,
};
use crate::config::values;
use crate::key::KeyInputView;
use vstd::prelude::*;

verus! {

/// Whether `key_inputs` holds `base` with each part of `possible` added to
/// it: with none of the modifiers, with all of them, and with every choice
/// between.
pub open spec fn covers<K, M>(
    key_inputs: Seq<KeyInputView<K, M>>,
    base: KeyInputView<K, M>,
    possible: Set<M>,
) -> bool {
    forall|extra: Set<M>|
        extra.subset_of(possible) ==> key_inputs.contains(#[trigger] base.merge_modifiers(extra))
}

/// Whether `key_inputs` covers the key input that `base` describes with
/// each part of the modifiers that `possible_modifiers` name.
pub open spec fn base_is_covered<A, K, M, C, ID: IsIntoDomain<A, K, M, C>>(
    into_domain: &ID,
    base: values::KeyInput,
    possible_modifiers: Seq<values::Modifier>,
    key_inputs: Seq<KeyInputView<K, M>>,
) -> bool {
    match (
        key_input_spec(into_domain, base.0@),
        modifiers_spec(into_domain, names_of(possible_modifiers)),
    ) {
        (Ok(base), Ok(modifiers)) => covers(key_inputs, base, modifiers.to_set()),
        _ => true,
    }
}

/// Whether `key_inputs` covers the remapping `remap`: its key input with
/// each part of its possible modifiers.
pub open spec fn remap_is_covered<A, K, M, C, ID: IsIntoDomain<A, K, M, C>>(
    into_domain: &ID,
    remap: (values::KeyInput, values::Action),
    key_inputs: Seq<KeyInputView<K, M>>,
) -> bool {
    base_is_covered(into_domain, remap.0, possible_modifiers_of(remap.1), key_inputs)
}

/// Whether `key_inputs` covers each of `remaps`.
pub open spec fn remaps_are_covered<A, K, M, C, ID: IsIntoDomain<A, K, M, C>>(
    into_domain: &ID,
    remaps: Seq<(values::KeyInput, values::Action)>,
    key_inputs: Seq<KeyInputView<K, M>>,
) -> bool {
    forall|i: int|
        0 <= i < remaps.len() ==> remap_is_covered(into_domain, #[trigger] remaps[i], key_inputs)
}

/// Whether what `by_application` holds under the application of `entry`
/// covers the remappings of the entry.
pub open spec fn entry_is_covered<A, K, M, C, ID: IsIntoDomain<A, K, M, C>>(
    into_domain: &ID,
    entry: (values::Application, values::Remaps),
    by_application: Map<A, Seq<KeyInputView<K, M>>>,
) -> bool {
    match into_domain.application_spec(entry.0) {
        Ok(application) => remaps_are_covered(
            into_domain,
            entry.1.0@,
            recorded_under(by_application, application),
        ),
        Err(_) => true,
    }
}

/// Whether the choices of fewer than `below` of `n` indices are all there.
pub open spec fn every_choice_is_given(n: nat, below: nat) -> bool {
    forall|k: nat, choice: Seq<usize>|
        k < below && is_choice(choice, n, k) ==> #[trigger] combinations(n, k).contains(choice)
}

/// The indices below `upto` at which `modifiers` holds a member of `wanted`,
/// in increasing order.
pub open spec fn indices_of<M>(modifiers: Seq<M>, wanted: Set<M>, upto: nat) -> Seq<usize>
    decreases upto,
{
    if upto == 0 {
        Seq::empty()
    } else {
        let below = indices_of(modifiers, wanted, (upto - 1) as nat);
        if wanted.contains(modifiers[upto - 1]) {
            below.push((upto - 1) as usize)
        } else {
            below
        }
    }
}

/// `indices_of` is a choice of indices, and it chooses what is wanted.
proof fn lemma_indices_choose_the_wanted<M>(modifiers: Seq<M>, wanted: Set<M>, upto: nat)
    requires
        upto <= modifiers.len() <= usize::MAX,
    ensures
        indices_of(modifiers, wanted, upto).len() <= upto,
        is_choice(
            indices_of(modifiers, wanted, upto),
            upto,
            indices_of(modifiers, wanted, upto).len(),
        ),
        chosen(modifiers, indices_of(modifiers, wanted, upto)) == wanted.intersect(
            modifiers.take(upto as int).to_set(),
        ),
    decreases upto,
{
    let indices = indices_of(modifiers, wanted, upto);
    if upto == 0 {
        assert(modifiers.take(0) =~= Seq::empty());
        assert(indices.map_values(|index: usize| modifiers[index as int]) =~= Seq::empty());
        assert(chosen(modifiers, indices) =~= wanted.intersect(modifiers.take(0).to_set()));
    } else {
        let below = indices_of(modifiers, wanted, (upto - 1) as nat);
        lemma_indices_choose_the_wanted(modifiers, wanted, (upto - 1) as nat);
        let seen = modifiers.take(upto - 1);
        assert(modifiers.take(upto as int) =~= seen.push(modifiers[upto - 1]));
        seen.lemma_push_to_set_commute(modifiers[upto - 1]);
        if wanted.contains(modifiers[upto - 1]) {
            let picked = below.map_values(|index: usize| modifiers[index as int]);
            assert(indices.map_values(|index: usize| modifiers[index as int]) =~= picked.push(
                modifiers[upto - 1],
            ));
            picked.lemma_push_to_set_commute(modifiers[upto - 1]);
            assert(chosen(modifiers, indices) =~= wanted.intersect(
                modifiers.take(upto as int).to_set(),
            ));
        } else {
            assert(chosen(modifiers, indices) =~= wanted.intersect(
                modifiers.take(upto as int).to_set(),
            ));
        }
    }
}

/// The key inputs with `k` modifiers added are among those with fewer than
/// `below` added, where `k` is less than `below`.
proof fn lemma_part_of_fewer_than<K, M>(
    base: KeyInputView<K, M>,
    modifiers: Seq<M>,
    k: nat,
    below: nat,
    key_input: KeyInputView<K, M>,
)
    requires
        k < below,
        key_inputs_with(base, modifiers, k).contains(key_input),
    ensures
        key_inputs_with_fewer_than(base, modifiers, below).contains(key_input),
    decreases below,
{
    let before = key_inputs_with_fewer_than(base, modifiers, (below - 1) as nat);
    let last = key_inputs_with(base, modifiers, (below - 1) as nat);
    if k == below - 1 {
        let at = choose|at: int| 0 <= at < last.len() && last[at] == key_input;
        assert((before + last)[before.len() + at] == key_input);
    } else {
        lemma_part_of_fewer_than(base, modifiers, k, (below - 1) as nat, key_input);
        let at = choose|at: int| 0 <= at < before.len() && before[at] == key_input;
        assert((before + last)[at] == key_input);
    }
}

/// Where the choices of indices are all there, the possible key inputs
/// cover the key input with each part of the modifiers.
pub(crate) proof fn lemma_possible_key_inputs_cover<K, M>(base: KeyInputView<K, M>, modifiers: Seq<M>)
    requires
        modifiers.len() <= usize::MAX,
        every_choice_is_given(modifiers.len(), modifiers.len() + 1),
    ensures
        covers(possible_key_inputs(base, modifiers), base, modifiers.to_set()),
{
    let n = modifiers.len();
    assert forall|extra: Set<M>| extra.subset_of(modifiers.to_set()) implies possible_key_inputs(
        base,
        modifiers,
    ).contains(#[trigger] base.merge_modifiers(extra)) by {
        let choice = indices_of(modifiers, extra, n);
        let k = choice.len();
        lemma_indices_choose_the_wanted(modifiers, extra, n);
        assert(modifiers.take(n as int) =~= modifiers);
        assert(extra.intersect(modifiers.to_set()) =~= extra);
        assert(combinations(n, k).contains(choice));
        let at = choose|at: int|
            0 <= at < combinations(n, k).len() && combinations(n, k)[at] == choice;
        assert(key_inputs_with(base, modifiers, k)[at] == base.merge_modifiers(extra));
        lemma_part_of_fewer_than(base, modifiers, k, n + 1, base.merge_modifiers(extra));
    }
}

/// Key inputs that cover still cover with more key inputs after them.
pub(crate) proof fn lemma_covers_with_more_after<K, M>(
    key_inputs: Seq<KeyInputView<K, M>>,
    more: Seq<KeyInputView<K, M>>,
    base: KeyInputView<K, M>,
    possible: Set<M>,
)
    requires
        covers(key_inputs, base, possible),
    ensures
        covers(key_inputs + more, base, possible),
{
    assert forall|extra: Set<M>| extra.subset_of(possible) implies (key_inputs + more).contains(
        #[trigger] base.merge_modifiers(extra),
    ) by {
        let wanted = base.merge_modifiers(extra);
        let at = choose|at: int| 0 <= at < key_inputs.len() && key_inputs[at] == wanted;
        assert((key_inputs + more)[at] == wanted);
    }
}

/// Key inputs that cover still cover with more key inputs before them.
pub(crate) proof fn lemma_covers_with_more_before<K, M>(
    key_inputs: Seq<KeyInputView<K, M>>,
    before: Seq<KeyInputView<K, M>>,
    base: KeyInputView<K, M>,
    possible: Set<M>,
)
    requires
        covers(key_inputs, base, possible),
    ensures
        covers(before + key_inputs, base, possible),
{
    assert forall|extra: Set<M>| extra.subset_of(possible) implies (before + key_inputs).contains(
        #[trigger] base.merge_modifiers(extra),
    ) by {
        let wanted = base.merge_modifiers(extra);
        let at = choose|at: int| 0 <= at < key_inputs.len() && key_inputs[at] == wanted;
        assert((before + key_inputs)[before.len() + at] == wanted);
    }
}

/// Remappings that are covered stay covered with more key inputs after.
pub(crate) proof fn lemma_remaps_stay_covered<A, K, M, C, ID: IsIntoDomain<A, K, M, C>>(
    into_domain: &ID,
    remaps: Seq<(values::KeyInput, values::Action)>,
    key_inputs: Seq<KeyInputView<K, M>>,
    more: Seq<KeyInputView<K, M>>,
)
    requires
        remaps_are_covered(into_domain, remaps, key_inputs),
    ensures
        remaps_are_covered(into_domain, remaps, key_inputs + more),
{
    assert forall|i: int| 0 <= i < remaps.len() implies remap_is_covered(
        into_domain,
        #[trigger] remaps[i],
        key_inputs + more,
    ) by {
        assert(remap_is_covered(into_domain, remaps[i], key_inputs));
        match (
            key_input_spec(into_domain, remaps[i].0.0@),
            modifiers_spec(into_domain, names_of(possible_modifiers_of(remaps[i].1))),
        ) {
            (Ok(base), Ok(modifiers)) => {
                lemma_covers_with_more_after(key_inputs, more, base, modifiers.to_set());
            },
            _ => {},
        }
    }
}

/// Remappings that are covered stay covered with more key inputs before.
pub(crate) proof fn lemma_remaps_stay_covered_behind<A, K, M, C, ID: IsIntoDomain<A, K, M, C>>(
    into_domain: &ID,
    remaps: Seq<(values::KeyInput, values::Action)>,
    key_inputs: Seq<KeyInputView<K, M>>,
    before: Seq<KeyInputView<K, M>>,
)
    requires
        remaps_are_covered(into_domain, remaps, key_inputs),
    ensures
        remaps_are_covered(into_domain, remaps, before + key_inputs),
{
    assert forall|i: int| 0 <= i < remaps.len() implies remap_is_covered(
        into_domain,
        #[trigger] remaps[i],
        before + key_inputs,
    ) by {
        assert(remap_is_covered(into_domain, remaps[i], key_inputs));
        match (
            key_input_spec(into_domain, remaps[i].0.0@),
            modifiers_spec(into_domain, names_of(possible_modifiers_of(remaps[i].1))),
        ) {
            (Ok(base), Ok(modifiers)) => {
                lemma_covers_with_more_before(key_inputs, before, base, modifiers.to_set());
            },
            _ => {},
        }
    }
}

/// Whether `key_input` is `base` with some part of `possible` added to it.
pub open spec fn is_base_with_some<K, M>(
    key_input: KeyInputView<K, M>,
    base: KeyInputView<K, M>,
    possible: Set<M>,
) -> bool {
    exists|extra: Set<M>|
        extra.subset_of(possible) && key_input == #[trigger] base.merge_modifiers(extra)
}

/// Whether `key_inputs` holds nothing but `base` with parts of `possible`
/// added to it.
pub open spec fn holds_only<K, M>(
    key_inputs: Seq<KeyInputView<K, M>>,
    base: KeyInputView<K, M>,
    possible: Set<M>,
) -> bool {
    forall|i: int|
        0 <= i < key_inputs.len() ==> is_base_with_some(#[trigger] key_inputs[i], base, possible)
}

/// Whether the possible key inputs of `base` with `modifiers` are what they
/// are meant to be: `base` with each part of the modifiers added to it, and
/// nothing else; and each of them once, where no modifier is named twice
/// and none is one of `base` already.
pub open spec fn possible_key_inputs_are_exact<K, M>(
    base: KeyInputView<K, M>,
    modifiers: Seq<M>,
) -> bool {
    &&& covers(possible_key_inputs(base, modifiers), base, modifiers.to_set())
    &&& holds_only(possible_key_inputs(base, modifiers), base, modifiers.to_set())
    &&& modifiers.no_duplicates() && base.modifiers.disjoint(modifiers.to_set())
        ==> possible_key_inputs(base, modifiers).no_duplicates()
}

/// Whether the possible key inputs of the key input that `base` describes
/// with the modifiers that `possible_modifiers` name are exact.
pub open spec fn base_is_exact<A, K, M, C, ID: IsIntoDomain<A, K, M, C>>(
    into_domain: &ID,
    base: values::KeyInput,
    possible_modifiers: Seq<values::Modifier>,
) -> bool {
    match (
        key_input_spec(into_domain, base.0@),
        modifiers_spec(into_domain, names_of(possible_modifiers)),
    ) {
        (Ok(base), Ok(modifiers)) => possible_key_inputs_are_exact(base, modifiers),
        _ => true,
    }
}

/// Whether the possible key inputs of the remapping `remap` are exact.
pub open spec fn remap_is_exact<A, K, M, C, ID: IsIntoDomain<A, K, M, C>>(
    into_domain: &ID,
    remap: (values::KeyInput, values::Action),
) -> bool {
    base_is_exact(into_domain, remap.0, possible_modifiers_of(remap.1))
}

/// Whether the possible key inputs of each of `remaps` are exact.
pub open spec fn remaps_are_exact<A, K, M, C, ID: IsIntoDomain<A, K, M, C>>(
    into_domain: &ID,
    remaps: Seq<(values::KeyInput, values::Action)>,
) -> bool {
    forall|i: int| 0 <= i < remaps.len() ==> remap_is_exact(into_domain, #[trigger] remaps[i])
}

/// Whether what is given as a choice of fewer than `below` of `n` indices
/// is one.
pub open spec fn every_given_is_a_choice(n: nat, below: nat) -> bool {
    forall|k: nat, i: int|
        k < below && 0 <= i < combinations(n, k).len() ==> is_choice(
            #[trigger] combinations(n, k)[i],
            n,
            k,
        )
}

/// Whether the choices of fewer than `below` of `n` indices are given in
/// the order of a dictionary.
pub open spec fn choices_are_in_order(n: nat, below: nat) -> bool {
    forall|k: nat, i: int, j: int|
        k < below && 0 <= i < j < combinations(n, k).len() ==> stands_before(
            #[trigger] combinations(n, k)[i],
            #[trigger] combinations(n, k)[j],
        )
}

/// What a choice of indices chooses is part of the modifiers.
proof fn lemma_chosen_is_part<M>(modifiers: Seq<M>, choice: Seq<usize>, k: nat)
    requires
        is_choice(choice, modifiers.len(), k),
    ensures
        chosen(modifiers, choice).subset_of(modifiers.to_set()),
{
    let picked = choice.map_values(|index: usize| modifiers[index as int]);
    assert forall|m: M| chosen(modifiers, choice).contains(m) implies modifiers.to_set().contains(
        m,
    ) by {
        let i = choose|i: int| 0 <= i < picked.len() && picked[i] == m;
        assert(modifiers[choice[i] as int] == m);
        assert(modifiers.contains(m));
    }
}

/// Where what is given are choices, the key inputs with fewer than `below`
/// modifiers added hold only the key input with parts of the modifiers.
proof fn lemma_fewer_than_hold_only<K, M>(base: KeyInputView<K, M>, modifiers: Seq<M>, below: nat)
    requires
        every_given_is_a_choice(modifiers.len(), below),
    ensures
        holds_only(key_inputs_with_fewer_than(base, modifiers, below), base, modifiers.to_set()),
    decreases below,
{
    if below > 0 {
        let k = (below - 1) as nat;
        let before = key_inputs_with_fewer_than(base, modifiers, k);
        let last = key_inputs_with(base, modifiers, k);
        lemma_fewer_than_hold_only(base, modifiers, k);
        assert forall|i: int| 0 <= i < (before + last).len() implies is_base_with_some(
            #[trigger] (before + last)[i],
            base,
            modifiers.to_set(),
        ) by {
            if i < before.len() {
                assert((before + last)[i] == before[i]);
            } else {
                let j = i - before.len();
                let choice = combinations(modifiers.len(), k)[j];
                assert((before + last)[i] == last[j]);
                assert(is_choice(choice, modifiers.len(), k));
                lemma_chosen_is_part(modifiers, choice, k);
                assert(last[j] == base.merge_modifiers(chosen(modifiers, choice)));
            }
        }
    }
}

/// A choice of `k` indices of modifiers of which none is named twice
/// chooses `k` modifiers.
proof fn lemma_chosen_are_as_many<M>(modifiers: Seq<M>, choice: Seq<usize>, k: nat)
    requires
        modifiers.no_duplicates(),
        is_choice(choice, modifiers.len(), k),
    ensures
        chosen(modifiers, choice).finite(),
        chosen(modifiers, choice).len() == k,
{
    let picked = choice.map_values(|index: usize| modifiers[index as int]);
    assert forall|i: int, j: int| 0 <= i < picked.len() && 0 <= j < picked.len() && i != j implies picked[i]
        != picked[j] by {
        if i < j {
            assert(choice[i] < choice[j]);
        } else {
            assert(choice[j] < choice[i]);
        }
    }
    picked.unique_seq_to_set();
    vstd::seq_lib::seq_to_set_is_finite(picked);
}

/// Two choices of which one stands before the other choose different
/// modifiers, where no modifier is named twice.
proof fn lemma_chosen_differ<M>(modifiers: Seq<M>, one: Seq<usize>, other: Seq<usize>, k: nat)
    requires
        modifiers.no_duplicates(),
        is_choice(one, modifiers.len(), k),
        is_choice(other, modifiers.len(), k),
        stands_before(one, other),
    ensures
        chosen(modifiers, one) != chosen(modifiers, other),
{
    let at = choose|at: int|
        0 <= at < one.len() && at < other.len() && one[at] < other[at] && forall|i: int|
            0 <= i < at ==> one[i] == other[i];
    let m = modifiers[one[at] as int];
    let picked = one.map_values(|index: usize| modifiers[index as int]);
    let others = other.map_values(|index: usize| modifiers[index as int]);
    assert(picked[at] == m);
    assert(picked.contains(m));
    if others.contains(m) {
        let t = choose|t: int| 0 <= t < others.len() && others[t] == m;
        assert(modifiers[other[t] as int] == modifiers[one[at] as int]);
        assert(other[t] == one[at]);
        if t < at {
            assert(other[t] == one[t]);
            assert(one[t] < one[at]);
        } else if t > at {
            assert(other[at] < other[t]);
        }
    }
    assert(chosen(modifiers, one).contains(m));
    assert(!chosen(modifiers, other).contains(m));
}

/// A key input takes different parts of modifiers that it does not hold to
/// different key inputs.
proof fn lemma_merged_differ<K, M>(base: KeyInputView<K, M>, one: Set<M>, other: Set<M>)
    requires
        base.modifiers.disjoint(one),
        base.modifiers.disjoint(other),
        one != other,
    ensures
        base.merge_modifiers(one) != base.merge_modifiers(other),
{
    if base.modifiers.union(one) == base.modifiers.union(other) {
        assert forall|m: M| one.contains(m) <==> other.contains(m) by {
            if one.contains(m) {
                assert(base.modifiers.union(one).contains(m));
                assert(base.modifiers.union(other).contains(m));
            }
            if other.contains(m) {
                assert(base.modifiers.union(other).contains(m));
                assert(base.modifiers.union(one).contains(m));
            }
        }
        assert(one =~= other);
    }
}

/// Each of the key inputs with fewer than `below` modifiers added is `base`
/// with the modifiers of a choice of fewer than `below` indices.
proof fn lemma_fewer_than_come_from_choices<K, M>(
    base: KeyInputView<K, M>,
    modifiers: Seq<M>,
    below: nat,
    i: int,
) -> (found: (nat, int))
    requires
        0 <= i < key_inputs_with_fewer_than(base, modifiers, below).len(),
    ensures
        found.0 < below,
        0 <= found.1 < combinations(modifiers.len(), found.0).len(),
        key_inputs_with_fewer_than(base, modifiers, below)[i] == base.merge_modifiers(
            chosen(modifiers, combinations(modifiers.len(), found.0)[found.1]),
        ),
    decreases below,
{
    let k = (below - 1) as nat;
    let before = key_inputs_with_fewer_than(base, modifiers, k);
    let last = key_inputs_with(base, modifiers, k);
    if i < before.len() {
        assert((before + last)[i] == before[i]);
        lemma_fewer_than_come_from_choices(base, modifiers, k, i)
    } else {
        assert((before + last)[i] == last[i - before.len()]);
        (k, i - before.len())
    }
}

/// Where what is given are choices in the order of a dictionary, the key
/// inputs with fewer than `below` modifiers added are each there once,
/// provided that no modifier is named twice and none is one of `base`.
proof fn lemma_fewer_than_are_distinct<K, M>(base: KeyInputView<K, M>, modifiers: Seq<M>, below: nat)
    requires
        every_given_is_a_choice(modifiers.len(), below),
        choices_are_in_order(modifiers.len(), below),
        modifiers.no_duplicates(),
        base.modifiers.disjoint(modifiers.to_set()),
    ensures
        key_inputs_with_fewer_than(base, modifiers, below).no_duplicates(),
    decreases below,
{
    if below > 0 {
        let n = modifiers.len();
        let k = (below - 1) as nat;
        let before = key_inputs_with_fewer_than(base, modifiers, k);
        let last = key_inputs_with(base, modifiers, k);
        lemma_fewer_than_are_distinct(base, modifiers, k);
        assert forall|i: int, j: int| 0 <= i < last.len() && 0 <= j < last.len() && i != j implies last[i]
            != last[j] by {
            let one = combinations(n, k)[i];
            let other = combinations(n, k)[j];
            assert(is_choice(one, n, k));
            assert(is_choice(other, n, k));
            lemma_chosen_is_part(modifiers, one, k);
            lemma_chosen_is_part(modifiers, other, k);
            if i < j {
                assert(stands_before(one, other));
                lemma_chosen_differ(modifiers, one, other, k);
            } else {
                assert(stands_before(other, one));
                lemma_chosen_differ(modifiers, other, one, k);
            }
            lemma_merged_differ(base, chosen(modifiers, one), chosen(modifiers, other));
        }
        assert forall|i: int, j: int| 0 <= i < before.len() && 0 <= j < last.len() implies before[i]
            != last[j] by {
            let (earlier, at) = lemma_fewer_than_come_from_choices(base, modifiers, k, i);
            let one = combinations(n, earlier)[at];
            let other = combinations(n, k)[j];
            assert(is_choice(one, n, earlier));
            assert(is_choice(other, n, k));
            lemma_chosen_is_part(modifiers, one, earlier);
            lemma_chosen_is_part(modifiers, other, k);
            lemma_chosen_are_as_many(modifiers, one, earlier);
            lemma_chosen_are_as_many(modifiers, other, k);
            lemma_merged_differ(base, chosen(modifiers, one), chosen(modifiers, other));
        }
        vstd::seq_lib::lemma_no_dup_in_concat(before, last);
    }
}

/// Where the choices of indices are what they are said to be, the possible
/// key inputs are exact.
pub(crate) proof fn lemma_possible_key_inputs_are_exact<K, M>(
    base: KeyInputView<K, M>,
    modifiers: Seq<M>,
)
    requires
        modifiers.len() <= usize::MAX,
        every_choice_is_given(modifiers.len(), modifiers.len() + 1),
        every_given_is_a_choice(modifiers.len(), modifiers.len() + 1),
        choices_are_in_order(modifiers.len(), modifiers.len() + 1),
    ensures
        possible_key_inputs_are_exact(base, modifiers),
{
    lemma_possible_key_inputs_cover(base, modifiers);
    lemma_fewer_than_hold_only(base, modifiers, modifiers.len() + 1);
    if modifiers.no_duplicates() && base.modifiers.disjoint(modifiers.to_set()) {
        lemma_fewer_than_are_distinct(base, modifiers, modifiers.len() + 1);
    }
}

} // verus!
