//! From a configuration to the rules and the key inputs to intercept.

use crate::config::combination::{
    combinations, index_combinations, is_choice, lemma_choices_are_determined,
};
use crate::config::combination::stands_before;
use crate::config::coverage::{
    base_is_covered, base_is_exact, choices_are_in_order, entry_is_covered,
    every_choice_is_given, every_given_is_a_choice, lemma_possible_key_inputs_are_exact,
    lemma_possible_key_inputs_cover, lemma_remaps_stay_covered,
    lemma_remaps_stay_covered_behind, remap_is_covered, remap_is_exact, remaps_are_covered,
    remaps_are_exact,
};
use crate::config::intercepts::{
    applications_key_inputs_spec, chosen, config_fits, intercepts_spec, key_inputs_with,
    key_inputs_with_fewer_than, lemma_application_key_inputs_fail_from_first_failure,
    lemma_key_inputs_fail_from_first_failure, names_of, possible_key_inputs_spec,
    possible_modifiers_of, recorded_under, remaps_fit, remaps_key_inputs_spec, Intercepts,
};
use crate::config::into_domain::{
    lemma_modifiers_fail_from_first_failure, modifiers_spec, parse_key_input, IsIntoDomain,
};
use crate::config::invalid_config_error::{result_view, InvalidConfigError, InvalidConfigErrorView};
use crate::config::rules::{
    applications_spec, keybind_spec, keybinds_spec, lemma_applications_fail_from_first_failure,
    lemma_keybinds_fail_from_first_failure, rule_set_spec, rules_of, RuleSet,
};
use crate::config::values;
use crate::key::{key_input_laws, raw_values, KeyInput, KeyInputView, Modifier, Modifiers};
use crate::keybind::composit_keybind::CompositKeyBind;
use crate::keybind::configured_keybind::{
    lemma_list_answers_as_its_views, ConfiguredKeyBind, ConfiguredKeyBindView,
};
use crate::keybind::execution_keybind::ExecutionKeyBind;
use crate::keybind::keybind_for_focus::{IsKeyBindForFocus, KeyBindForFocus};
use crate::keymap::Keymap;
use crate::laws::{clone_law, order_law};
use crate::possible_keyinput_finder::PossibleKeyinputFinder;
use core::marker::PhantomData;
use std::collections::BTreeMap;
use vstd::prelude::*;

verus! {

broadcast use vstd::std_specs::btree::group_btree_axioms;

/// The laws of the raw types under which a configuration can be built.
pub open spec fn parser_laws<A: Ord + Clone, K: PartialEq + Clone, M: Ord + Clone, C: Clone>() -> bool {
    order_law::<A>() && key_input_laws::<K, M>()
}

/// Builds the rules and the key inputs to intercept from a configuration,
/// with a resolver for the names in it.
pub struct Parser<'a, A, K, M, C, ID: IsIntoDomain<A, K, M, C>> {
    _a: PhantomData<A>,
    _k: PhantomData<K>,
    _m: PhantomData<M>,
    _c: PhantomData<C>,
    into_domain: &'a ID,
}

impl<
    'a,
    A: Ord + Clone,
    K: PartialEq + Clone,
    M: Ord + Clone,
    C: Clone,
    ID: IsIntoDomain<A, K, M, C>,
> Parser<'a, A, K, M, C, ID> {
    /// The resolver that the parser asks.
    pub closed spec fn into_domain(&self) -> &'a ID {
        self.into_domain
    }

    pub fn build(id: &'a ID) -> (parser: Self)
        ensures
            parser.into_domain() == id,
    {
        Self { _a: PhantomData, _k: PhantomData, _m: PhantomData, _c: PhantomData, into_domain: id }
    }

    /// The rule for the remapping of `from` to `action`.
    fn remap_to_keybind(&self, from: &values::KeyInput, action: &values::Action) -> (keybind:
        Result<ConfiguredKeyBind<K, M, C>, InvalidConfigError>)
        requires
            order_law::<M>(),
        ensures
            result_view(keybind) == keybind_spec(self.into_domain(), *from, *action),
    {
        let from = match parse_key_input(self.into_domain, from) {
            Ok(from) => from,
            Err(error) => {
                return Err(error);
            },
        };
        match action {
            values::Action::KeyInput { to, with: _ } => {
                match parse_key_input(self.into_domain, to) {
                    Ok(to) => Ok(ConfiguredKeyBind::Keymap(Keymap::new(from, to))),
                    Err(error) => Err(error),
                }
            },
            values::Action::Execution { execute } => {
                match self.into_domain.into_domain_execution(
                    values::Execution(execute.0.clone()),
                ) {
                    Ok(execution) => Ok(
                        ConfiguredKeyBind::Execution(ExecutionKeyBind::new(from, execution)),
                    ),
                    Err(error) => Err(error),
                }
            },
        }
    }

    /// The rules for `remaps`, in the order of the remappings.
    fn remaps_to_keybinds(&self, remaps: &values::Remaps) -> (keybinds: Result<
        CompositKeyBind<ConfiguredKeyBind<K, M, C>>,
        InvalidConfigError,
    >)
        requires
            order_law::<M>(),
        ensures
            match keybinds {
                Ok(composit) => keybinds_spec(self.into_domain(), remaps.0@) == Ok::<
                    Seq<ConfiguredKeyBindView<K, M, C>>,
                    InvalidConfigErrorView,
                >(rules_of(composit)),
                Err(error) => keybinds_spec(self.into_domain(), remaps.0@) == Err::<
                    Seq<ConfiguredKeyBindView<K, M, C>>,
                    InvalidConfigErrorView,
                >(error@),
            },
    {
        let mut keybinds: Vec<ConfiguredKeyBind<K, M, C>> = Vec::new();
        let mut i: usize = 0;
        assert(remaps.0@.take(0) =~= Seq::empty());
        assert(keybinds@.map_values(|keybind: ConfiguredKeyBind<K, M, C>| keybind@)
            =~= Seq::empty());
        while i < remaps.0.len()
            invariant
                order_law::<M>(),
                i <= remaps.0.len(),
                keybinds_spec(self.into_domain(), remaps.0@.take(i as int)) == Ok::<
                    Seq<ConfiguredKeyBindView<K, M, C>>,
                    InvalidConfigErrorView,
                >(keybinds@.map_values(|keybind: ConfiguredKeyBind<K, M, C>| keybind@)),
            decreases remaps.0.len() - i,
        {
            let ghost made = keybinds@.map_values(|keybind: ConfiguredKeyBind<K, M, C>| keybind@);
            proof {
                assert(remaps.0@.take(i + 1).drop_last() =~= remaps.0@.take(i as int));
                assert(remaps.0@.take(i + 1).last() == remaps.0@[i as int]);
            }
            match self.remap_to_keybind(&remaps.0[i].0, &remaps.0[i].1) {
                Ok(keybind) => {
                    keybinds.push(keybind);
                    assert(keybinds@.map_values(|keybind: ConfiguredKeyBind<K, M, C>| keybind@)
                        =~= made.push(keybind@));
                },
                Err(error) => {
                    proof {
                        assert(keybinds_spec(self.into_domain(), remaps.0@.take(i + 1)) == Err::<
                            Seq<ConfiguredKeyBindView<K, M, C>>,
                            InvalidConfigErrorView,
                        >(error@));
                        lemma_keybinds_fail_from_first_failure(
                            self.into_domain(),
                            remaps.0@,
                            i + 1,
                        );
                    }
                    return Err(error);
                },
            }
            i += 1;
        }
        assert(remaps.0@.take(i as int) =~= remaps.0@);
        Ok(CompositKeyBind::new(keybinds))
    }

    /// The rules of `config`, by focus.
    ///
    /// The result is the error of the first thing in the configuration that
    /// is wrong, if anything is. Otherwise it is rules that resolve every key
    /// input under every focus as the rules of the configuration do.
    pub fn build_keybind_for_focus(&self, config: values::Config) -> (keybind_for_focus: Result<
        KeyBindForFocus<A, CompositKeyBind<ConfiguredKeyBind<K, M, C>>>,
        InvalidConfigError,
    >)
        requires
            parser_laws::<A, K, M, C>(),
        ensures
            match keybind_for_focus {
                Ok(built) => {
                    &&& rule_set_spec(self.into_domain(), config) matches Ok(rules)
                    &&& forall|focus: Option<A>, key_input: KeyInputView<K, M>| #[trigger]
                        built.pressed_spec(focus, key_input) == rules.pressed(focus, key_input)
                    &&& forall|focus: Option<A>, key_input: KeyInputView<K, M>| #[trigger]
                        built.released_spec(focus, key_input) == rules.released(focus, key_input)
                },
                Err(error) => rule_set_spec(self.into_domain(), config) == Err::<
                    RuleSet<A, K, M, C>,
                    InvalidConfigErrorView,
                >(error@),
            },
    {
        let global_keybinds = match self.remaps_to_keybinds(&config.remap) {
            Ok(keybinds) => keybinds,
            Err(error) => {
                return Err(error);
            },
        };
        let mut keybinds_for_applications: BTreeMap<
            A,
            CompositKeyBind<ConfiguredKeyBind<K, M, C>>,
        > = BTreeMap::new();
        let mut i: usize = 0;
        proof {
            assert(config.in_app@.take(0) =~= Seq::empty());
            assert(keybinds_for_applications@.map_values(
                |composit: CompositKeyBind<ConfiguredKeyBind<K, M, C>>| rules_of(composit),
            ) =~= Map::empty());
        }
        while i < config.in_app.len()
            invariant
                parser_laws::<A, K, M, C>(),
                i <= config.in_app.len(),
                keybinds_spec(self.into_domain(), config.remap.0@) == Ok::<
                    Seq<ConfiguredKeyBindView<K, M, C>>,
                    InvalidConfigErrorView,
                >(rules_of(global_keybinds)),
                applications_spec(self.into_domain(), config.in_app@.take(i as int)) == Ok::<
                    Map<A, Seq<ConfiguredKeyBindView<K, M, C>>>,
                    InvalidConfigErrorView,
                >(
                    keybinds_for_applications@.map_values(
                        |composit: CompositKeyBind<ConfiguredKeyBind<K, M, C>>| rules_of(composit),
                    ),
                ),
            decreases config.in_app.len() - i,
        {
            let ghost made = keybinds_for_applications@;
            proof {
                assert(config.in_app@.take(i + 1).drop_last() =~= config.in_app@.take(i as int));
                assert(config.in_app@.take(i + 1).last() == config.in_app@[i as int]);
            }
            let keybinds = match self.remaps_to_keybinds(&config.in_app[i].1) {
                Ok(keybinds) => keybinds,
                Err(error) => {
                    proof {
                        assert(applications_spec(self.into_domain(), config.in_app@.take(i + 1))
                            == Err::<
                            Map<A, Seq<ConfiguredKeyBindView<K, M, C>>>,
                            InvalidConfigErrorView,
                        >(error@));
                        lemma_applications_fail_from_first_failure(
                            self.into_domain(),
                            config.in_app@,
                            i + 1,
                        );
                    }
                    return Err(error);
                },
            };
            let application = match self.into_domain.into_domain_application(
                values::Application(config.in_app[i].0.0.clone()),
            ) {
                Ok(application) => application,
                Err(error) => {
                    proof {
                        assert(applications_spec(self.into_domain(), config.in_app@.take(i + 1))
                            == Err::<
                            Map<A, Seq<ConfiguredKeyBindView<K, M, C>>>,
                            InvalidConfigErrorView,
                        >(error@));
                        lemma_applications_fail_from_first_failure(
                            self.into_domain(),
                            config.in_app@,
                            i + 1,
                        );
                    }
                    return Err(error);
                },
            };
            let ghost identifier = application@;
            keybinds_for_applications.insert(application.into_identifier(), keybinds);
            proof {
                assert(keybinds_for_applications@.map_values(
                    |composit: CompositKeyBind<ConfiguredKeyBind<K, M, C>>| rules_of(composit),
                ) =~= made.map_values(
                    |composit: CompositKeyBind<ConfiguredKeyBind<K, M, C>>| rules_of(composit),
                ).insert(identifier, rules_of(keybinds)));
            }
            i += 1;
        }
        assert(config.in_app@.take(i as int) =~= config.in_app@);
        let ghost by_application = keybinds_for_applications@;
        let built = KeyBindForFocus::new(global_keybinds, keybinds_for_applications);
        proof {
            let rules = RuleSet {
                global: rules_of(global_keybinds),
                by_application: by_application.map_values(
                    |composit: CompositKeyBind<ConfiguredKeyBind<K, M, C>>| rules_of(composit),
                ),
            };
            assert(rule_set_spec(self.into_domain(), config) == Ok::<
                RuleSet<A, K, M, C>,
                InvalidConfigErrorView,
            >(rules));
            assert forall|focus: Option<A>, key_input: KeyInputView<K, M>| #[trigger]
                built.pressed_spec(focus, key_input) == rules.pressed(focus, key_input) by {
                lemma_list_answers_as_its_views(global_keybinds.keybindings(), key_input);
                match focus {
                    Some(application) => {
                        if by_application.contains_key(application) {
                            lemma_list_answers_as_its_views(
                                by_application[application].keybindings(),
                                key_input,
                            );
                        }
                    },
                    None => {},
                }
            }
            assert forall|focus: Option<A>, key_input: KeyInputView<K, M>| #[trigger]
                built.released_spec(focus, key_input) == rules.released(focus, key_input) by {
                lemma_list_answers_as_its_views(global_keybinds.keybindings(), key_input);
                match focus {
                    Some(application) => {
                        if by_application.contains_key(application) {
                            lemma_list_answers_as_its_views(
                                by_application[application].keybindings(),
                                key_input,
                            );
                        }
                    },
                    None => {},
                }
            }
        }
        Ok(built)
    }
}

impl<
    'a,
    A: Ord + Clone,
    K: PartialEq + Clone,
    M: Ord + Clone,
    C: Clone,
    ID: IsIntoDomain<A, K, M, C>,
> Parser<'a, A, K, M, C, ID> {
    /// The modifiers that `names` name, in the order of the names.
    fn resolve_modifiers(&self, names: &Vec<values::Modifier>) -> (resolved: Result<
        Vec<Modifier<M>>,
        InvalidConfigError,
    >)
        ensures
            match resolved {
                Ok(modifiers) => modifiers.len() == names.len() && modifiers_spec(
                    self.into_domain(),
                    names_of(names@),
                ) == Ok::<Seq<M>, InvalidConfigErrorView>(raw_values(modifiers@)),
                Err(error) => modifiers_spec(self.into_domain(), names_of(names@)) == Err::<
                    Seq<M>,
                    InvalidConfigErrorView,
                >(error@),
            },
    {
        let mut modifiers: Vec<Modifier<M>> = Vec::new();
        let mut i: usize = 0;
        assert(names_of(names@).take(0) =~= Seq::empty());
        assert(raw_values(modifiers@) =~= Seq::empty());
        while i < names.len()
            invariant
                i <= names.len(),
                modifiers.len() == i,
                modifiers_spec(self.into_domain(), names_of(names@).take(i as int)) == Ok::<
                    Seq<M>,
                    InvalidConfigErrorView,
                >(raw_values(modifiers@)),
            decreases names.len() - i,
        {
            let ghost resolved = raw_values(modifiers@);
            proof {
                assert(names_of(names@).take(i + 1).drop_last() =~= names_of(names@).take(
                    i as int,
                ));
                assert(names_of(names@).take(i + 1).last() == names@[i as int].0@);
            }
            match self.into_domain.into_domain_modifier(values::Modifier(names[i].0.clone())) {
                Ok(modifier) => {
                    modifiers.push(modifier);
                    assert(raw_values(modifiers@) =~= resolved.push(modifier@));
                },
                Err(error) => {
                    proof {
                        assert(modifiers_spec(self.into_domain(), names_of(names@).take(i + 1))
                            == Err::<Seq<M>, InvalidConfigErrorView>(error@));
                        lemma_modifiers_fail_from_first_failure(
                            self.into_domain(),
                            names_of(names@),
                            i + 1,
                        );
                    }
                    return Err(error);
                },
            }
            i += 1;
        }
        assert(names_of(names@).take(i as int) =~= names_of(names@));
        Ok(modifiers)
    }

    /// The set of the modifiers of `modifiers` at the indices of `choice`.
    fn choose_modifiers(modifiers: &Vec<Modifier<M>>, choice: &Vec<usize>) -> (picked: Modifiers<
        M,
    >)
        requires
            order_law::<M>(),
            clone_law::<M>(),
            forall|i: int| 0 <= i < choice.len() ==> choice[i] < modifiers.len(),
        ensures
            picked@ == chosen(raw_values(modifiers@), choice@),
    {
        let mut selected: Vec<Modifier<M>> = Vec::new();
        let mut i: usize = 0;
        let ghost all = raw_values(modifiers@);
        assert(raw_values(selected@) =~= choice@.take(0).map_values(
            |index: usize| all[index as int],
        ));
        while i < choice.len()
            invariant
                clone_law::<M>(),
                all == raw_values(modifiers@),
                i <= choice.len(),
                forall|i: int| 0 <= i < choice.len() ==> choice[i] < modifiers.len(),
                raw_values(selected@) == choice@.take(i as int).map_values(
                    |index: usize| all[index as int],
                ),
            decreases choice.len() - i,
        {
            let ghost before = raw_values(selected@);
            let modifier = Modifier::new(modifiers[choice[i]].raw_value());
            selected.push(modifier);
            proof {
                assert(raw_values(selected@) =~= before.push(modifier@));
                assert(choice@.take(i + 1).map_values(|index: usize| all[index as int])
                    =~= choice@.take(i as int).map_values(|index: usize| all[index as int]).push(
                    all[choice@[i as int] as int],
                ));
            }
            i += 1;
        }
        assert(choice@.take(i as int) =~= choice@);
        Modifiers::new(selected)
    }

    /// The key inputs to intercept for a rule on the key input `base` when
    /// any of `possible_modifiers` may be held in addition.
    fn possible_modifiers_to_keyinputs(
        &self,
        base: &values::KeyInput,
        possible_modifiers: &Vec<values::Modifier>,
    ) -> (key_inputs: Result<Vec<KeyInput<K, M>>, InvalidConfigError>)
        requires
            parser_laws::<A, K, M, C>(),
            possible_modifiers.len() < usize::BITS,
        ensures
            match key_inputs {
                Ok(possible) => {
                    &&& possible_key_inputs_spec(self.into_domain(), *base, possible_modifiers@)
                        == Ok::<Seq<KeyInputView<K, M>>, InvalidConfigErrorView>(
                        possible.deep_view(),
                    )
                    &&& base_is_covered(
                        self.into_domain(),
                        *base,
                        possible_modifiers@,
                        possible.deep_view(),
                    )
                    &&& base_is_exact(self.into_domain(), *base, possible_modifiers@)
                },
                Err(error) => possible_key_inputs_spec(
                    self.into_domain(),
                    *base,
                    possible_modifiers@,
                ) == Err::<Seq<KeyInputView<K, M>>, InvalidConfigErrorView>(error@),
            },
    {
        let base = match parse_key_input(self.into_domain, base) {
            Ok(base) => base,
            Err(error) => {
                return Err(error);
            },
        };
        let modifiers = match self.resolve_modifiers(possible_modifiers) {
            Ok(modifiers) => modifiers,
            Err(error) => {
                return Err(error);
            },
        };
        let ghost all = raw_values(modifiers@);
        let n = modifiers.len();
        let mut keyinputs: Vec<KeyInput<K, M>> = Vec::new();
        let mut modifier_length: usize = 0;
        assert(keyinputs.deep_view() =~= key_inputs_with_fewer_than(base@, all, 0));
        while modifier_length <= n
            invariant
                parser_laws::<A, K, M, C>(),
                all == raw_values(modifiers@),
                n == modifiers.len(),
                n < usize::BITS,
                modifier_length <= n + 1,
                every_choice_is_given(n as nat, modifier_length as nat),
                every_given_is_a_choice(n as nat, modifier_length as nat),
                choices_are_in_order(n as nat, modifier_length as nat),
                keyinputs.deep_view() == key_inputs_with_fewer_than(
                    base@,
                    all,
                    modifier_length as nat,
                ),
            decreases n + 1 - modifier_length,
        {
            let choices = index_combinations(n, modifier_length);
            proof {
                lemma_choices_are_determined(
                    choices.deep_view(),
                    combinations(n as nat, modifier_length as nat),
                    n as nat,
                    modifier_length as nat,
                );
            }
            let ghost done = keyinputs.deep_view();
            let ghost block = key_inputs_with(base@, all, modifier_length as nat);
            let mut i: usize = 0;
            assert(block.take(0) =~= Seq::empty());
            assert(done + block.take(0) =~= done);
            while i < choices.len()
                invariant
                    parser_laws::<A, K, M, C>(),
                    all == raw_values(modifiers@),
                    n == modifiers.len(),
                    i <= choices.len(),
                    choices.deep_view() == combinations(n as nat, modifier_length as nat),
                    forall|j: int|
                        0 <= j < choices.len() ==> is_choice(
                            #[trigger] choices.deep_view()[j],
                            n as nat,
                            modifier_length as nat,
                        ),
                    every_choice_is_given(n as nat, modifier_length as nat),
                    every_given_is_a_choice(n as nat, modifier_length as nat),
                    choices_are_in_order(n as nat, modifier_length as nat),
                    forall|choice: Seq<usize>|
                        is_choice(choice, n as nat, modifier_length as nat)
                            ==> choices.deep_view().contains(choice),
                    forall|i: int, j: int|
                        0 <= i < j < choices.len() ==> stands_before(
                            choices.deep_view()[i],
                            choices.deep_view()[j],
                        ),
                    block == key_inputs_with(base@, all, modifier_length as nat),
                    keyinputs.deep_view() == done + block.take(i as int),
                decreases choices.len() - i,
            {
                let ghost so_far = keyinputs.deep_view();
                proof {
                    assert(is_choice(
                        choices.deep_view()[i as int],
                        n as nat,
                        modifier_length as nat,
                    ));
                    assert(choices.deep_view()[i as int] =~= choices[i as int]@);
                }
                let additional_modifiers = Self::choose_modifiers(&modifiers, &choices[i]);
                let key_input = base.merge_modifiers(&additional_modifiers);
                keyinputs.push(key_input);
                proof {
                    assert(block[i as int] == base@.merge_modifiers(
                        chosen(all, choices.deep_view()[i as int]),
                    ));
                    assert(keyinputs.deep_view() =~= so_far.push(key_input@));
                    assert(block.take(i + 1) =~= block.take(i as int).push(block[i as int]));
                    assert(done + block.take(i + 1) =~= (done + block.take(i as int)).push(
                        block[i as int],
                    ));
                }
                i += 1;
            }
            proof {
                assert(block.take(i as int) =~= block);
            }
            modifier_length += 1;
        }
        proof {
            lemma_possible_key_inputs_cover(base@, all);
            lemma_possible_key_inputs_are_exact(base@, all);
        }
        Ok(keyinputs)
    }

    /// The key inputs to intercept for `remaps`, in the order of the
    /// remappings.
    fn remaps_to_key_inputs(&self, remaps: &values::Remaps) -> (key_inputs: Result<
        Vec<KeyInput<K, M>>,
        InvalidConfigError,
    >)
        requires
            parser_laws::<A, K, M, C>(),
            remaps_fit(remaps.0@),
        ensures
            match key_inputs {
                Ok(possible) => {
                    &&& remaps_key_inputs_spec(self.into_domain(), remaps.0@) == Ok::<
                        Seq<KeyInputView<K, M>>,
                        InvalidConfigErrorView,
                    >(possible.deep_view())
                    &&& remaps_are_covered(self.into_domain(), remaps.0@, possible.deep_view())
                    &&& remaps_are_exact(self.into_domain(), remaps.0@)
                },
                Err(error) => remaps_key_inputs_spec(self.into_domain(), remaps.0@) == Err::<
                    Seq<KeyInputView<K, M>>,
                    InvalidConfigErrorView,
                >(error@),
            },
    {
        let mut key_inputs: Vec<KeyInput<K, M>> = Vec::new();
        let no_modifiers: Vec<values::Modifier> = Vec::new();
        let mut i: usize = 0;
        assert(remaps.0@.take(0) =~= Seq::empty());
        assert(key_inputs.deep_view() =~= Seq::empty());
        while i < remaps.0.len()
            invariant
                parser_laws::<A, K, M, C>(),
                remaps_fit(remaps.0@),
                no_modifiers@.len() == 0,
                i <= remaps.0.len(),
                remaps_key_inputs_spec(self.into_domain(), remaps.0@.take(i as int)) == Ok::<
                    Seq<KeyInputView<K, M>>,
                    InvalidConfigErrorView,
                >(key_inputs.deep_view()),
                remaps_are_covered(
                    self.into_domain(),
                    remaps.0@.take(i as int),
                    key_inputs.deep_view(),
                ),
                remaps_are_exact(self.into_domain(), remaps.0@.take(i as int)),
            decreases remaps.0.len() - i,
        {
            let ghost recorded = key_inputs.deep_view();
            proof {
                assert(remaps.0@.take(i + 1).drop_last() =~= remaps.0@.take(i as int));
                assert(remaps.0@.take(i + 1).last() == remaps.0@[i as int]);
                assert(possible_modifiers_of(remaps.0@[i as int].1).len() < usize::BITS);
            }
            let possible_modifiers = match &remaps.0[i].1 {
                values::Action::KeyInput { to: _, with: Some(modifiers) } => modifiers,
                _ => &no_modifiers,
            };
            assert(possible_modifiers@ =~= possible_modifiers_of(remaps.0@[i as int].1));
            match self.possible_modifiers_to_keyinputs(&remaps.0[i].0, possible_modifiers) {
                Ok(mut possible_keyinputs) => {
                    let ghost more = possible_keyinputs.deep_view();
                    key_inputs.append(&mut possible_keyinputs);
                    assert(key_inputs.deep_view() =~= recorded + more);
                    proof {
                        let seen = remaps.0@.take(i as int);
                        lemma_remaps_stay_covered(self.into_domain(), seen, recorded, more);
                        lemma_remaps_stay_covered_behind(
                            self.into_domain(),
                            seq![remaps.0@[i as int]],
                            more,
                            recorded,
                        );
                        assert forall|j: int| 0 <= j < i + 1 implies remap_is_covered(
                            self.into_domain(),
                            #[trigger] remaps.0@.take(i + 1)[j],
                            recorded + more,
                        ) by {
                            if j < i {
                                assert(remap_is_covered(self.into_domain(), seen[j], recorded + more));
                            } else {
                                assert(remap_is_covered(
                                    self.into_domain(),
                                    seq![remaps.0@[i as int]][0],
                                    recorded + more,
                                ));
                            }
                        }
                        assert forall|j: int| 0 <= j < i + 1 implies remap_is_exact(
                            self.into_domain(),
                            #[trigger] remaps.0@.take(i + 1)[j],
                        ) by {
                            if j < i {
                                assert(remap_is_exact(self.into_domain(), seen[j]));
                            }
                        }
                    }
                },
                Err(error) => {
                    proof {
                        assert(remaps_key_inputs_spec(self.into_domain(), remaps.0@.take(i + 1))
                            == Err::<Seq<KeyInputView<K, M>>, InvalidConfigErrorView>(error@));
                        lemma_key_inputs_fail_from_first_failure(
                            self.into_domain(),
                            remaps.0@,
                            i + 1,
                        );
                    }
                    return Err(error);
                },
            }
            i += 1;
        }
        assert(remaps.0@.take(i as int) =~= remaps.0@);
        Ok(key_inputs)
    }
}

/// What the lists of a map of key inputs are.
pub open spec fn recorded_views<A, K, M>(by_application: Map<A, Vec<KeyInput<K, M>>>) -> Map<
    A,
    Seq<KeyInputView<K, M>>,
> {
    by_application.map_values(|key_inputs: Vec<KeyInput<K, M>>| key_inputs.deep_view())
}

impl<
    'a,
    A: Ord + Clone,
    K: Ord + Clone,
    M: Ord + Clone,
    C: Clone,
    ID: IsIntoDomain<A, K, M, C>,
> Parser<'a, A, K, M, C, ID> {
    /// The key inputs to intercept for `config`, by focus.
    ///
    /// The result is the error of the first thing in the configuration that
    /// is wrong, if anything is. Otherwise it is a finder that has recorded,
    /// under no focus and under each application, the key inputs that the
    /// rules of the configuration have to be ready for.
    pub fn build_possible_keyinput_finder(&self, config: values::Config) -> (finder: Result<
        PossibleKeyinputFinder<A, K, M>,
        InvalidConfigError,
    >)
        requires
            parser_laws::<A, K, M, C>(),
            config_fits(config),
        ensures
            match finder {
                Ok(built) => {
                    &&& intercepts_spec(self.into_domain(), config) matches Ok(intercepts)
                    &&& built.recorded(None) == intercepts.global
                    &&& forall|application: A| #[trigger]
                        built.recorded(Some(application)) == recorded_under(
                            intercepts.by_application,
                            application,
                        )
                    &&& remaps_are_covered(
                        self.into_domain(),
                        config.remap.0@,
                        intercepts.global,
                    )
                    &&& forall|i: int|
                        0 <= i < config.in_app@.len() ==> entry_is_covered(
                            self.into_domain(),
                            #[trigger] config.in_app@[i],
                            intercepts.by_application,
                        )
                    &&& remaps_are_exact(self.into_domain(), config.remap.0@)
                    &&& forall|i: int|
                        0 <= i < config.in_app@.len() ==> remaps_are_exact(
                            self.into_domain(),
                            (#[trigger] config.in_app@[i]).1.0@,
                        )
                },
                Err(error) => intercepts_spec(self.into_domain(), config) == Err::<
                    Intercepts<A, K, M>,
                    InvalidConfigErrorView,
                >(error@),
            },
    {
        let global = match self.remaps_to_key_inputs(&config.remap) {
            Ok(global) => global,
            Err(error) => {
                return Err(error);
            },
        };
        let mut cache: BTreeMap<A, Vec<KeyInput<K, M>>> = BTreeMap::new();
        let mut i: usize = 0;
        proof {
            assert(config.in_app@.take(0) =~= Seq::empty());
            assert(recorded_views(cache@) =~= Map::empty());
        }
        while i < config.in_app.len()
            invariant
                parser_laws::<A, K, M, C>(),
                config_fits(config),
                i <= config.in_app.len(),
                remaps_key_inputs_spec(self.into_domain(), config.remap.0@) == Ok::<
                    Seq<KeyInputView<K, M>>,
                    InvalidConfigErrorView,
                >(global.deep_view()),
                applications_key_inputs_spec(self.into_domain(), config.in_app@.take(i as int))
                    == Ok::<Map<A, Seq<KeyInputView<K, M>>>, InvalidConfigErrorView>(
                    recorded_views(cache@),
                ),
                remaps_are_covered(self.into_domain(), config.remap.0@, global.deep_view()),
                remaps_are_exact(self.into_domain(), config.remap.0@),
                forall|j: int|
                    0 <= j < i ==> remaps_are_exact(
                        self.into_domain(),
                        (#[trigger] config.in_app@[j]).1.0@,
                    ),
                forall|j: int|
                    0 <= j < i ==> entry_is_covered(
                        self.into_domain(),
                        #[trigger] config.in_app@[j],
                        recorded_views(cache@),
                    ),
            decreases config.in_app.len() - i,
        {
            let ghost before = cache@;
            proof {
                assert(config.in_app@.take(i + 1).drop_last() =~= config.in_app@.take(i as int));
                assert(config.in_app@.take(i + 1).last() == config.in_app@[i as int]);
                assert(remaps_fit(config.in_app[i as int].1.0@));
            }
            let application = match self.into_domain.into_domain_application(
                values::Application(config.in_app[i].0.0.clone()),
            ) {
                Ok(application) => application,
                Err(error) => {
                    proof {
                        assert(applications_key_inputs_spec(
                            self.into_domain(),
                            config.in_app@.take(i + 1),
                        ) == Err::<Map<A, Seq<KeyInputView<K, M>>>, InvalidConfigErrorView>(
                            error@,
                        ));
                        lemma_application_key_inputs_fail_from_first_failure(
                            self.into_domain(),
                            config.in_app@,
                            i + 1,
                        );
                    }
                    return Err(error);
                },
            };
            let mut possible_keyinputs = match self.remaps_to_key_inputs(&config.in_app[i].1) {
                Ok(possible_keyinputs) => possible_keyinputs,
                Err(error) => {
                    proof {
                        assert(applications_key_inputs_spec(
                            self.into_domain(),
                            config.in_app@.take(i + 1),
                        ) == Err::<Map<A, Seq<KeyInputView<K, M>>>, InvalidConfigErrorView>(
                            error@,
                        ));
                        lemma_application_key_inputs_fail_from_first_failure(
                            self.into_domain(),
                            config.in_app@,
                            i + 1,
                        );
                    }
                    return Err(error);
                },
            };
            let ghost identifier = application@;
            let ghost more = possible_keyinputs.deep_view();
            let mut keyinputs = match cache.remove(application.identifier()) {
                Some(keyinputs) => keyinputs,
                None => Vec::new(),
            };
            let ghost had = keyinputs.deep_view();
            proof {
                assert(had =~= recorded_under(recorded_views(before), identifier));
            }
            keyinputs.append(&mut possible_keyinputs);
            proof {
                assert(keyinputs.deep_view() =~= had + more);
            }
            cache.insert(application.into_identifier(), keyinputs);
            proof {
                assert(recorded_views(cache@) =~= recorded_views(before).insert(
                    identifier,
                    had + more,
                ));
                assert forall|j: int| 0 <= j < i + 1 implies entry_is_covered(
                    self.into_domain(),
                    #[trigger] config.in_app@[j],
                    recorded_views(cache@),
                ) by {
                    let entry = config.in_app@[j];
                    match self.into_domain().application_spec(entry.0) {
                        Ok(other) => {
                            if j < i {
                                assert(entry_is_covered(
                                    self.into_domain(),
                                    config.in_app@[j],
                                    recorded_views(before),
                                ));
                                if other == identifier {
                                    lemma_remaps_stay_covered(
                                        self.into_domain(),
                                        entry.1.0@,
                                        had,
                                        more,
                                    );
                                }
                            } else {
                                lemma_remaps_stay_covered_behind(
                                    self.into_domain(),
                                    entry.1.0@,
                                    more,
                                    had,
                                );
                            }
                        },
                        Err(_) => {},
                    }
                }
            }
            i += 1;
        }
        assert(config.in_app@.take(i as int) =~= config.in_app@);
        let ghost by_application = recorded_views(cache@);
        let built = PossibleKeyinputFinder::new(global, cache);
        proof {
            assert forall|application: A| #[trigger]
                built.recorded(Some(application)) == recorded_under(
                    by_application,
                    application,
                ) by {}
        }
        Ok(built)
    }
}

} // verus!
