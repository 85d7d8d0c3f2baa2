//! The rules that a configuration stands for.
//!
//! A configuration is taken whole or not at all: the first name in it that
//! the resolver refuses, or the first key input that names no key, is the
//! error of the configuration.

use crate::action::ActionView;
use crate::config::into_domain::{key_input_spec, IsIntoDomain};
use crate::config::invalid_config_error::InvalidConfigErrorView;
use crate::config::values;
use crate::key::KeyInputView;
use crate::keybind::composit_keybind::CompositKeyBind;
use crate::keybind::configured_keybind::{
    first_action_pressed, first_action_released, ConfiguredKeyBind, ConfiguredKeyBindView,
};
use vstd::prelude::*;

verus! {

/// The rule that the remapping of `from` to `action` becomes. The key input
/// `from` is read first, what it is remapped to after it.
pub open spec fn keybind_spec<A, K, M, C, ID: IsIntoDomain<A, K, M, C>>(
    into_domain: &ID,
    from: values::KeyInput,
    action: values::Action,
) -> Result<ConfiguredKeyBindView<K, M, C>, InvalidConfigErrorView> {
    match key_input_spec(into_domain, from.0@) {
        Err(error) => Err(error),
        Ok(from) => match action {
            values::Action::KeyInput { to, with } => match key_input_spec(into_domain, to.0@) {
                Err(error) => Err(error),
                Ok(to) => Ok(ConfiguredKeyBindView::Keymap { from: from, to: to }),
            },
            values::Action::Execution { execute } => match into_domain.execution_spec(execute) {
                Err(error) => Err(error),
                Ok(execution) => Ok(
                    ConfiguredKeyBindView::Execution { from: from, execution: execution },
                ),
            },
        },
    }
}

/// The rules that `remaps` become, in the order of the remappings, or the
/// error of the first remapping that is wrong.
pub open spec fn keybinds_spec<A, K, M, C, ID: IsIntoDomain<A, K, M, C>>(
    into_domain: &ID,
    remaps: Seq<(values::KeyInput, values::Action)>,
) -> Result<Seq<ConfiguredKeyBindView<K, M, C>>, InvalidConfigErrorView>
    decreases remaps.len(),
{
    if remaps.len() == 0 {
        Ok(Seq::empty())
    } else {
        match keybinds_spec(into_domain, remaps.drop_last()) {
            Err(error) => Err(error),
            Ok(rules) => match keybind_spec(into_domain, remaps.last().0, remaps.last().1) {
                Err(error) => Err(error),
                Ok(rule) => Ok(rules.push(rule)),
            },
        }
    }
}

/// The rules of the applications of `in_app`, by the identifier of the
/// application, or the error of the first entry that is wrong. The
/// remappings of an entry are read before the name of its application. Of
/// two entries for one application the later one counts.
pub open spec fn applications_spec<A, K, M, C, ID: IsIntoDomain<A, K, M, C>>(
    into_domain: &ID,
    in_app: Seq<(values::Application, values::Remaps)>,
) -> Result<Map<A, Seq<ConfiguredKeyBindView<K, M, C>>>, InvalidConfigErrorView>
    decreases in_app.len(),
{
    if in_app.len() == 0 {
        Ok(Map::empty())
    } else {
        match applications_spec(into_domain, in_app.drop_last()) {
            Err(error) => Err(error),
            Ok(by_application) => match keybinds_spec(into_domain, in_app.last().1.0@) {
                Err(error) => Err(error),
                Ok(rules) => match into_domain.application_spec(in_app.last().0) {
                    Err(error) => Err(error),
                    Ok(application) => Ok(by_application.insert(application, rules)),
                },
            },
        }
    }
}

/// The rules of a configuration: the global ones, and those of each
/// application.
#[verifier::reject_recursive_types(A)]
#[verifier::reject_recursive_types(M)]
pub struct RuleSet<A, K, M, C> {
    pub global: Seq<ConfiguredKeyBindView<K, M, C>>,
    pub by_application: Map<A, Seq<ConfiguredKeyBindView<K, M, C>>>,
}

impl<A, K, M, C> RuleSet<A, K, M, C> {
    /// The rules of the application that has the focus, if it has any.
    pub open spec fn focused(self, focus: Option<A>) -> Option<
        Seq<ConfiguredKeyBindView<K, M, C>>,
    > {
        match focus {
            Some(application) => if self.by_application.contains_key(application) {
                Some(self.by_application[application])
            } else {
                None
            },
            None => None,
        }
    }

    /// The action for `key_input` going down while `focus` has the focus:
    /// that of the first rule of the focused application that has one, else
    /// that of the first global rule that has one.
    pub open spec fn pressed(self, focus: Option<A>, key_input: KeyInputView<K, M>) -> Option<
        ActionView<K, M, C>,
    > {
        match self.focused(focus) {
            Some(rules) => match first_action_pressed(rules, key_input) {
                Some(action) => Some(action),
                None => first_action_pressed(self.global, key_input),
            },
            None => first_action_pressed(self.global, key_input),
        }
    }

    /// The action for `key_input` going up while `focus` has the focus.
    pub open spec fn released(self, focus: Option<A>, key_input: KeyInputView<K, M>) -> Option<
        ActionView<K, M, C>,
    > {
        match self.focused(focus) {
            Some(rules) => match first_action_released(rules, key_input) {
                Some(action) => Some(action),
                None => first_action_released(self.global, key_input),
            },
            None => first_action_released(self.global, key_input),
        }
    }
}

/// The rules of `config`, or the error of the first thing in it that is
/// wrong: the global remappings are read first, the entries of the
/// applications after them.
pub open spec fn rule_set_spec<A, K, M, C, ID: IsIntoDomain<A, K, M, C>>(
    into_domain: &ID,
    config: values::Config,
) -> Result<RuleSet<A, K, M, C>, InvalidConfigErrorView> {
    match keybinds_spec(into_domain, config.remap.0@) {
        Err(error) => Err(error),
        Ok(global) => match applications_spec(into_domain, config.in_app@) {
            Err(error) => Err(error),
            Ok(by_application) => Ok(RuleSet { global: global, by_application: by_application }),
        },
    }
}

/// What the rules of a list are.
pub open spec fn rules_of<K: PartialEq + Clone, M: Ord + Clone, C: Clone>(
    composit: CompositKeyBind<ConfiguredKeyBind<K, M, C>>,
) -> Seq<ConfiguredKeyBindView<K, M, C>> {
    composit.keybindings().map_values(|keybind: ConfiguredKeyBind<K, M, C>| keybind@)
}

/// Once the remappings up to `n` are wrong, so are all the remappings, with
/// the same error.
pub(crate) proof fn lemma_keybinds_fail_from_first_failure<A, K, M, C, ID: IsIntoDomain<A, K, M, C>>(
    into_domain: &ID,
    remaps: Seq<(values::KeyInput, values::Action)>,
    n: int,
)
    requires
        0 <= n <= remaps.len(),
        keybinds_spec(into_domain, remaps.take(n)) is Err,
    ensures
        keybinds_spec(into_domain, remaps) == keybinds_spec(into_domain, remaps.take(n)),
    decreases remaps.len() - n,
{
    if n < remaps.len() {
        assert(remaps.take(n + 1).drop_last() =~= remaps.take(n));
        lemma_keybinds_fail_from_first_failure(into_domain, remaps, n + 1);
    } else {
        assert(remaps.take(n) =~= remaps);
    }
}

/// Once the entries up to `n` are wrong, so are all the entries, with the
/// same error.
pub(crate) proof fn lemma_applications_fail_from_first_failure<A, K, M, C, ID: IsIntoDomain<A, K, M, C>>(
    into_domain: &ID,
    in_app: Seq<(values::Application, values::Remaps)>,
    n: int,
)
    requires
        0 <= n <= in_app.len(),
        applications_spec(into_domain, in_app.take(n)) is Err,
    ensures
        applications_spec(into_domain, in_app) == applications_spec(into_domain, in_app.take(n)),
    decreases in_app.len() - n,
{
    if n < in_app.len() {
        assert(in_app.take(n + 1).drop_last() =~= in_app.take(n));
        lemma_applications_fail_from_first_failure(into_domain, in_app, n + 1);
    } else {
        assert(in_app.take(n) =~= in_app);
    }
}

} // verus!
