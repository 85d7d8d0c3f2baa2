//! The key inputs that a configuration asks to intercept.
//!
//! A rule with possible modifiers has to be reached by its key input with
//! any of them held in addition, so the key input is intercepted with each
//! choice of them: with none, with each one, with each two, and so on.

use crate::config::combination::combinations;
use crate::config::into_domain::{key_input_spec, modifiers_spec, IsIntoDomain};
use crate::config::invalid_config_error::InvalidConfigErrorView;
use crate::config::values;
use crate::key::KeyInputView;
use vstd::prelude::*;

verus! {

/// The modifiers that stand in `modifiers` at the indices of `choice`.
pub open spec fn chosen<M>(modifiers: Seq<M>, choice: Seq<usize>) -> Set<M> {
    choice.map_values(|index: usize| modifiers[index as int]).to_set()
}

/// `base` with each choice of `k` of `modifiers` added to it, in the order
/// of the choices.
pub open spec fn key_inputs_with<K, M>(
    base: KeyInputView<K, M>,
    modifiers: Seq<M>,
    k: nat,
) -> Seq<KeyInputView<K, M>> {
    combinations(modifiers.len(), k).map_values(
        |choice: Seq<usize>| base.merge_modifiers(chosen(modifiers, choice)),
    )
}

/// `base` with each choice of fewer than `k` of `modifiers` added to it: the
/// choices of none first, then those of one, and so on.
pub open spec fn key_inputs_with_fewer_than<K, M>(
    base: KeyInputView<K, M>,
    modifiers: Seq<M>,
    k: nat,
) -> Seq<KeyInputView<K, M>>
    decreases k,
{
    if k == 0 {
        Seq::empty()
    } else {
        key_inputs_with_fewer_than(base, modifiers, (k - 1) as nat) + key_inputs_with(
            base,
            modifiers,
            (k - 1) as nat,
        )
    }
}

/// The key inputs that a rule for `base` has to be ready for when any of
/// `modifiers` may be held in addition: `base` with each choice of some of
/// the modifiers, from none of them to all of them.
pub open spec fn possible_key_inputs<K, M>(base: KeyInputView<K, M>, modifiers: Seq<M>) -> Seq<
    KeyInputView<K, M>,
> {
    key_inputs_with_fewer_than(base, modifiers, modifiers.len() + 1)
}

/// The names of a list of modifiers.
pub open spec fn names_of(modifiers: Seq<values::Modifier>) -> Seq<Seq<char>> {
    modifiers.map_values(|modifier: values::Modifier| modifier.0@)
}

/// The key inputs to intercept for a rule on the key input `base` with the
/// possible modifiers `possible_modifiers`. The key input is read first, the
/// names of the modifiers after it, from left to right.
pub open spec fn possible_key_inputs_spec<A, K, M, C, ID: IsIntoDomain<A, K, M, C>>(
    into_domain: &ID,
    base: values::KeyInput,
    possible_modifiers: Seq<values::Modifier>,
) -> Result<Seq<KeyInputView<K, M>>, InvalidConfigErrorView> {
    match key_input_spec(into_domain, base.0@) {
        Err(error) => Err(error),
        Ok(base) => match modifiers_spec(into_domain, names_of(possible_modifiers)) {
            Err(error) => Err(error),
            Ok(modifiers) => Ok(possible_key_inputs(base, modifiers)),
        },
    }
}

/// The modifiers that may be held in addition to those of a rule with the
/// action `action`: those that a key map names, and none for a command.
pub open spec fn possible_modifiers_of(action: values::Action) -> Seq<values::Modifier> {
    match action {
        values::Action::KeyInput { to, with: Some(modifiers) } => modifiers@,
        _ => Seq::empty(),
    }
}

/// The key inputs to intercept for `remaps`, in the order of the remappings,
/// or the error of the first remapping that is wrong.
pub open spec fn remaps_key_inputs_spec<A, K, M, C, ID: IsIntoDomain<A, K, M, C>>(
    into_domain: &ID,
    remaps: Seq<(values::KeyInput, values::Action)>,
) -> Result<Seq<KeyInputView<K, M>>, InvalidConfigErrorView>
    decreases remaps.len(),
{
    if remaps.len() == 0 {
        Ok(Seq::empty())
    } else {
        match remaps_key_inputs_spec(into_domain, remaps.drop_last()) {
            Err(error) => Err(error),
            Ok(key_inputs) => match possible_key_inputs_spec(
                into_domain,
                remaps.last().0,
                possible_modifiers_of(remaps.last().1),
            ) {
                Err(error) => Err(error),
                Ok(more) => Ok(key_inputs + more),
            },
        }
    }
}

/// The key inputs recorded under `application` in `by_application`; none
/// where nothing is.
pub open spec fn recorded_under<A, K, M>(
    by_application: Map<A, Seq<KeyInputView<K, M>>>,
    application: A,
) -> Seq<KeyInputView<K, M>> {
    if by_application.contains_key(application) {
        by_application[application]
    } else {
        Seq::empty()
    }
}

/// The key inputs to intercept for the applications of `in_app`, by the
/// identifier of the application, or the error of the first entry that is
/// wrong. The name of the application of an entry is read before its
/// remappings. Two entries for one application add up.
pub open spec fn applications_key_inputs_spec<A, K, M, C, ID: IsIntoDomain<A, K, M, C>>(
    into_domain: &ID,
    in_app: Seq<(values::Application, values::Remaps)>,
) -> Result<Map<A, Seq<KeyInputView<K, M>>>, InvalidConfigErrorView>
    decreases in_app.len(),
{
    if in_app.len() == 0 {
        Ok(Map::empty())
    } else {
        match applications_key_inputs_spec(into_domain, in_app.drop_last()) {
            Err(error) => Err(error),
            Ok(by_application) => match into_domain.application_spec(in_app.last().0) {
                Err(error) => Err(error),
                Ok(application) => match remaps_key_inputs_spec(into_domain, in_app.last().1.0@) {
                    Err(error) => Err(error),
                    Ok(key_inputs) => Ok(
                        by_application.insert(
                            application,
                            recorded_under(by_application, application) + key_inputs,
                        ),
                    ),
                },
            },
        }
    }
}

/// The key inputs to intercept for a configuration: those of the global
/// rules, and those of the rules of each application.
#[verifier::reject_recursive_types(A)]
#[verifier::reject_recursive_types(M)]
pub struct Intercepts<A, K, M> {
    pub global: Seq<KeyInputView<K, M>>,
    pub by_application: Map<A, Seq<KeyInputView<K, M>>>,
}

/// The key inputs to intercept for `config`, or the error of the first thing
/// in it that is wrong: the global remappings are read first, the entries of
/// the applications after them.
pub open spec fn intercepts_spec<A, K, M, C, ID: IsIntoDomain<A, K, M, C>>(
    into_domain: &ID,
    config: values::Config,
) -> Result<Intercepts<A, K, M>, InvalidConfigErrorView> {
    match remaps_key_inputs_spec(into_domain, config.remap.0@) {
        Err(error) => Err(error),
        Ok(global) => match applications_key_inputs_spec(into_domain, config.in_app@) {
            Err(error) => Err(error),
            Ok(by_application) => Ok(
                Intercepts { global: global, by_application: by_application },
            ),
        },
    }
}

/// Whether the key inputs to intercept for `remaps` can be counted: no rule
/// names as many possible modifiers as a `usize` has bits, or more.
pub open spec fn remaps_fit(remaps: Seq<(values::KeyInput, values::Action)>) -> bool {
    forall|i: int|
        0 <= i < remaps.len() ==> possible_modifiers_of(#[trigger] remaps[i].1).len()
            < usize::BITS
}

/// Whether the key inputs to intercept for `config` can be counted.
pub open spec fn config_fits(config: values::Config) -> bool {
    &&& remaps_fit(config.remap.0@)
    &&& forall|i: int| 0 <= i < config.in_app.len() ==> remaps_fit(#[trigger] config.in_app[i].1.0@)
}

/// Tests whether the key inputs to intercept for `remaps` can be counted.
fn check_remaps_fit(remaps: &values::Remaps) -> (fit: bool)
    ensures
        fit == remaps_fit(remaps.0@),
{
    let mut i: usize = 0;
    while i < remaps.0.len()
        invariant
            i <= remaps.0.len(),
            forall|j: int|
                0 <= j < i ==> possible_modifiers_of(#[trigger] remaps.0@[j].1).len() < usize::BITS,
        decreases remaps.0.len() - i,
    {
        let fit = match &remaps.0[i].1 {
            values::Action::KeyInput { to: _, with: Some(modifiers) } => modifiers.len()
                < usize::BITS as usize,
            _ => true,
        };
        if !fit {
            assert(!(possible_modifiers_of(remaps.0@[i as int].1).len() < usize::BITS));
            return false;
        }
        i += 1;
    }
    true
}

/// Tests whether the key inputs to intercept for `config` can be counted:
/// whether no rule names as many possible modifiers as a `usize` has bits,
/// or more.
pub fn check_config_fits(config: &values::Config) -> (fit: bool)
    ensures
        fit == config_fits(*config),
{
    if !check_remaps_fit(&config.remap) {
        return false;
    }
    let mut i: usize = 0;
    while i < config.in_app.len()
        invariant
            i <= config.in_app.len(),
            remaps_fit(config.remap.0@),
            forall|j: int| 0 <= j < i ==> remaps_fit(#[trigger] config.in_app[j].1.0@),
        decreases config.in_app.len() - i,
    {
        if !check_remaps_fit(&config.in_app[i].1) {
            assert(!remaps_fit(config.in_app[i as int].1.0@));
            return false;
        }
        i += 1;
    }
    true
}

/// Once the remappings up to `n` are wrong, so are all the remappings, with
/// the same error.
pub(crate) proof fn lemma_key_inputs_fail_from_first_failure<A, K, M, C, ID: IsIntoDomain<A, K, M, C>>(
    into_domain: &ID,
    remaps: Seq<(values::KeyInput, values::Action)>,
    n: int,
)
    requires
        0 <= n <= remaps.len(),
        remaps_key_inputs_spec(into_domain, remaps.take(n)) is Err,
    ensures
        remaps_key_inputs_spec(into_domain, remaps) == remaps_key_inputs_spec(
            into_domain,
            remaps.take(n),
        ),
    decreases remaps.len() - n,
{
    if n < remaps.len() {
        assert(remaps.take(n + 1).drop_last() =~= remaps.take(n));
        lemma_key_inputs_fail_from_first_failure(into_domain, remaps, n + 1);
    } else {
        assert(remaps.take(n) =~= remaps);
    }
}

/// Once the entries up to `n` are wrong, so are all the entries, with the
/// same error.
pub(crate) proof fn lemma_application_key_inputs_fail_from_first_failure<
    A,
    K,
    M,
    C,
    ID: IsIntoDomain<A, K, M, C>,
>(into_domain: &ID, in_app: Seq<(values::Application, values::Remaps)>, n: int)
    requires
        0 <= n <= in_app.len(),
        applications_key_inputs_spec(into_domain, in_app.take(n)) is Err,
    ensures
        applications_key_inputs_spec(into_domain, in_app) == applications_key_inputs_spec(
            into_domain,
            in_app.take(n),
        ),
    decreases in_app.len() - n,
{
    if n < in_app.len() {
        assert(in_app.take(n + 1).drop_last() =~= in_app.take(n));
        lemma_application_key_inputs_fail_from_first_failure(into_domain, in_app, n + 1);
    } else {
        assert(in_app.take(n) =~= in_app);
    }
}

} // verus!
