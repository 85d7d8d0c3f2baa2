use mapper::action::Action;
use mapper::application::Application;
use mapper::config::intercepts::check_config_fits;
use mapper::config::into_domain::IsIntoDomain;
use mapper::config::invalid_config_error::{InvalidConfigError, InvalidConfigErrorView};
use mapper::config::parser::Parser;
use mapper::config::values;
use mapper::focus::Focus;
use mapper::key::{Key, KeyInput, Modifier, Modifiers};
use mapper::keybind::keybind_for_focus::IsKeyBindForFocus;

struct StringIntoDomain;

impl IsIntoDomain<String, String, String, String> for StringIntoDomain {
    fn application_spec(&self, _app: values::Application) -> Result<String, InvalidConfigErrorView> {
        unreachable!()
    }

    fn key_spec(&self, _name: vstd::seq::Seq<char>) -> Result<String, InvalidConfigErrorView> {
        unreachable!()
    }

    fn modifier_spec(&self, _name: vstd::seq::Seq<char>) -> Result<String, InvalidConfigErrorView> {
        unreachable!()
    }

    fn execution_spec(&self, _execution: values::Execution) -> Result<String, InvalidConfigErrorView> {
        unreachable!()
    }

    fn into_domain_application(&self, app: values::Application) -> Result<Application<String>, InvalidConfigError> {
        Ok(Application::new(app.0))
    }

    fn into_domain_key(&self, key: values::Key) -> Result<Key<String>, InvalidConfigError> {
        if key.0.starts_with("Bad") {
            Err(InvalidConfigError::UnexpectedKey(key.0))
        } else {
            Ok(Key::new(key.0))
        }
    }

    fn into_domain_modifier(&self, modifier: values::Modifier) -> Result<Modifier<String>, InvalidConfigError> {
        if modifier.0.starts_with("Bad") {
            Err(InvalidConfigError::UnexpectedModifier(modifier.0))
        } else {
            Ok(Modifier::new(modifier.0))
        }
    }

    fn into_domain_execution(&self, execution: values::Execution) -> Result<String, InvalidConfigError> {
        Ok(execution.0)
    }
}

fn remap(from: &str, to: &str, with: Option<Vec<&str>>) -> (values::KeyInput, values::Action) {
    (
        values::KeyInput(from.to_string()),
        values::Action::KeyInput {
            to: values::KeyInput(to.to_string()),
            with: with.map(|names| names.into_iter().map(|n| values::Modifier(n.to_string())).collect()),
        },
    )
}

fn command(from: &str, execute: &str) -> (values::KeyInput, values::Action) {
    (
        values::KeyInput(from.to_string()),
        values::Action::Execution { execute: values::Execution(execute.to_string()) },
    )
}

fn in_app(app: &str, remaps: Vec<(values::KeyInput, values::Action)>) -> (values::Application, values::Remaps) {
    (values::Application(app.to_string()), values::Remaps(remaps))
}

fn key_input(key: &str, modifiers: Vec<&str>) -> KeyInput<String, String> {
    KeyInput::new(
        Key::new(key.to_string()),
        Modifiers::new(modifiers.into_iter().map(|m| Modifier::new(m.to_string())).collect()),
    )
}

fn focused(app: &str) -> Focus<String> {
    Focus::Focused { application: Application::new(app.to_string()) }
}

fn with_all_combinations(key: &str) -> Vec<KeyInput<String, String>> {
    vec![
        key_input(key, vec![]),
        key_input(key, vec!["Shift"]),
        key_input(key, vec!["Mod2"]),
        key_input(key, vec!["Shift", "Mod2"]),
    ]
}

fn combination_config() -> values::Config {
    values::Config {
        remap: values::Remaps(vec![
            remap("h", "Left", Some(vec!["Shift", "Mod2"])),
            remap("l", "Right", Some(vec!["Shift", "Mod2"])),
        ]),
        in_app: vec![in_app(
            "app",
            vec![remap("a", "s", Some(vec!["Shift", "Mod2"])), remap("c", "x", Some(vec!["Shift", "Mod2"]))],
        )],
    }
}

#[test]
fn possible_keyinput_finder_calculates_all_possible_inapp_keyinputs() {
    let finder = Parser::build(&StringIntoDomain).build_possible_keyinput_finder(combination_config()).unwrap();
    let inapp_keyinputs = finder.find(focused("app"));
    let mut expect = vec![];
    expect.extend(with_all_combinations("h"));
    expect.extend(with_all_combinations("l"));
    expect.extend(with_all_combinations("c"));
    expect.extend(with_all_combinations("a"));
    expect.sort();
    assert_eq!(inapp_keyinputs, expect);
}

#[test]
fn possible_keyinput_finder_calculates_all_possible_global_keyinputs() {
    let finder = Parser::build(&StringIntoDomain).build_possible_keyinput_finder(combination_config()).unwrap();
    let mut global_keyinputs = finder.find(Focus::NoFocus);
    global_keyinputs.sort();
    let mut expect = vec![];
    expect.extend(with_all_combinations("h"));
    expect.extend(with_all_combinations("l"));
    expect.sort();
    assert_eq!(global_keyinputs, expect);
}

#[test]
fn possible_keyinput_finder_records_the_combinations_in_their_order() {
    let finder = Parser::build(&StringIntoDomain).build_possible_keyinput_finder(combination_config()).unwrap();
    let mut expect = vec![];
    expect.extend(with_all_combinations("h"));
    expect.extend(with_all_combinations("l"));
    assert_eq!(finder.find(Focus::NoFocus), expect);
}

#[test]
fn possible_keyinput_finder_returns_global_and_inapp_keyinputs() {
    let config = values::Config {
        remap: values::Remaps(vec![remap("h", "Left", Some(vec!["global"]))]),
        in_app: vec![in_app("app", vec![remap("h", "x", Some(vec!["inapp"]))])],
    };
    let finder = Parser::build(&StringIntoDomain).build_possible_keyinput_finder(config).unwrap();
    let result = finder.find(focused("app"));
    let mut expect = vec![
        key_input("h", vec![]),
        key_input("h", vec!["inapp"]),
        key_input("h", vec!["global"]),
    ];
    expect.sort();
    assert_eq!(result, expect);
}

#[test]
fn possible_keyinput_finder_with_three_modifiers_has_eight_combinations() {
    let config = values::Config {
        remap: values::Remaps(vec![remap("h", "Left", Some(vec!["a", "b", "c"]))]),
        in_app: vec![],
    };
    let finder = Parser::build(&StringIntoDomain).build_possible_keyinput_finder(config).unwrap();
    assert_eq!(
        finder.find(Focus::NoFocus),
        vec![
            key_input("h", vec![]),
            key_input("h", vec!["a"]),
            key_input("h", vec!["b"]),
            key_input("h", vec!["c"]),
            key_input("h", vec!["a", "b"]),
            key_input("h", vec!["a", "c"]),
            key_input("h", vec!["b", "c"]),
            key_input("h", vec!["a", "b", "c"]),
        ]
    );
}

#[test]
fn possible_keyinput_finder_keeps_the_modifiers_of_the_rule() {
    let config = values::Config {
        remap: values::Remaps(vec![remap("Control-j", "Down", Some(vec!["Shift"]))]),
        in_app: vec![],
    };
    let finder = Parser::build(&StringIntoDomain).build_possible_keyinput_finder(config).unwrap();
    assert_eq!(
        finder.find(Focus::NoFocus),
        vec![key_input("j", vec!["Control"]), key_input("j", vec!["Control", "Shift"])]
    );
}

#[test]
fn possible_keyinput_finder_records_commands_and_plain_remaps_as_they_stand() {
    let config = values::Config {
        remap: values::Remaps(vec![command("Mod4-t", "xterm"), remap("h", "Left", None)]),
        in_app: vec![in_app("app", vec![])],
    };
    let finder = Parser::build(&StringIntoDomain).build_possible_keyinput_finder(config).unwrap();
    assert_eq!(finder.find(Focus::NoFocus), vec![key_input("t", vec!["Mod4"]), key_input("h", vec![])]);
    assert_eq!(finder.find(focused("app")), vec![key_input("h", vec![]), key_input("t", vec!["Mod4"])]);
    assert_eq!(finder.find(focused("other")), vec![key_input("h", vec![]), key_input("t", vec!["Mod4"])]);
}

#[test]
fn possible_keyinput_finder_adds_up_two_entries_of_one_application() {
    let config = values::Config {
        remap: values::Remaps(vec![]),
        in_app: vec![
            in_app("app", vec![remap("a", "b", None)]),
            in_app("app", vec![remap("c", "d", None)]),
        ],
    };
    let finder = Parser::build(&StringIntoDomain).build_possible_keyinput_finder(config).unwrap();
    assert_eq!(finder.find(focused("app")), vec![key_input("a", vec![]), key_input("c", vec![])]);
    assert_eq!(finder.find(Focus::NoFocus), vec![]);
}

#[test]
fn possible_keyinput_finder_fails_on_the_first_wrong_name() {
    let parser = Parser::build(&StringIntoDomain);
    let bad_modifier = values::Config {
        remap: values::Remaps(vec![remap("h", "Left", Some(vec!["Shift", "BadOne", "BadTwo"]))]),
        in_app: vec![],
    };
    assert_eq!(
        parser.build_possible_keyinput_finder(bad_modifier).err(),
        Some(InvalidConfigError::UnexpectedModifier("BadOne".to_string()))
    );
    let bad_key = values::Config {
        remap: values::Remaps(vec![remap("h", "Left", None)]),
        in_app: vec![in_app("app", vec![remap("BadKey", "x", Some(vec!["BadOne"]))])],
    };
    assert_eq!(
        parser.build_possible_keyinput_finder(bad_key).err(),
        Some(InvalidConfigError::UnexpectedKey("BadKey".to_string()))
    );
    let empty_key = values::Config {
        remap: values::Remaps(vec![command("", "xterm")]),
        in_app: vec![],
    };
    assert_eq!(parser.build_possible_keyinput_finder(empty_key).err(), Some(InvalidConfigError::EmptyKey));
}

fn execution_config() -> values::Config {
    values::Config {
        remap: values::Remaps(vec![command("global", "global_execution")]),
        in_app: vec![in_app("app", vec![command("inapp", "inapp_execution")])],
    }
}

fn execution(text: &str) -> Option<Action<String, String, String>> {
    Some(Action::Execution { execution: text.to_string() })
}

#[test]
fn keybind_for_focus_from_config_matches_global_remap() {
    let keybind_for_focus = Parser::build(&StringIntoDomain).build_keybind_for_focus(execution_config()).unwrap();
    assert_eq!(keybind_for_focus.pressed(Focus::NoFocus, key_input("global", vec![])), execution("global_execution"));
}

#[test]
fn keybind_for_focus_from_config_matches_inapp_remap() {
    let keybind_for_focus = Parser::build(&StringIntoDomain).build_keybind_for_focus(execution_config()).unwrap();
    assert_eq!(keybind_for_focus.pressed(focused("app"), key_input("inapp", vec![])), execution("inapp_execution"));
}

#[test]
fn keybind_for_focus_from_config_matches_global_remap_through_focused_application() {
    let keybind_for_focus = Parser::build(&StringIntoDomain).build_keybind_for_focus(execution_config()).unwrap();
    assert_eq!(keybind_for_focus.pressed(focused("app"), key_input("global", vec![])), execution("global_execution"));
}

#[test]
fn keybind_for_focus_from_config_does_not_match_nonexistent_remap() {
    let keybind_for_focus = Parser::build(&StringIntoDomain).build_keybind_for_focus(execution_config()).unwrap();
    assert_eq!(keybind_for_focus.pressed(Focus::NoFocus, key_input("nonexistent", vec![])), None);
    assert_eq!(keybind_for_focus.released(Focus::NoFocus, key_input("global", vec![])), None);
}

#[test]
fn keybind_for_focus_from_config_inapp_overrides_global() {
    let config = values::Config {
        remap: values::Remaps(vec![remap("common_0", "global_key_0", None)]),
        in_app: vec![in_app("app_0", vec![remap("common_0", "inapp_key_0", None)])],
    };
    let keybind_for_focus = Parser::build(&StringIntoDomain).build_keybind_for_focus(config).unwrap();
    assert_eq!(
        keybind_for_focus.pressed(focused("app_0"), key_input("common_0", vec![])),
        Some(Action::Key { key_input: key_input("inapp_key_0", vec![]) })
    );
    assert_eq!(
        keybind_for_focus.pressed(Focus::NoFocus, key_input("common_0", vec![])),
        Some(Action::Key { key_input: key_input("global_key_0", vec![]) })
    );
}

#[test]
fn keybind_for_focus_from_config_later_entry_of_one_application_counts() {
    let config = values::Config {
        remap: values::Remaps(vec![]),
        in_app: vec![
            in_app("app", vec![remap("a", "first", None)]),
            in_app("app", vec![remap("a", "second", None)]),
        ],
    };
    let keybind_for_focus = Parser::build(&StringIntoDomain).build_keybind_for_focus(config).unwrap();
    assert_eq!(
        keybind_for_focus.pressed(focused("app"), key_input("a", vec![])),
        Some(Action::Key { key_input: key_input("second", vec![]) })
    );
}

#[test]
fn keybind_for_focus_from_config_end_to_end() {
    let config = values::Config {
        remap: values::Remaps(vec![remap("h", "Left", Some(vec!["Shift"]))]),
        in_app: vec![],
    };
    let keybind_for_focus = Parser::build(&StringIntoDomain).build_keybind_for_focus(config).unwrap();
    assert_eq!(
        keybind_for_focus.pressed(Focus::NoFocus, key_input("h", vec!["Shift"])),
        Some(Action::Key { key_input: key_input("Left", vec!["Shift"]) })
    );
    assert_eq!(
        keybind_for_focus.pressed(Focus::NoFocus, key_input("h", vec![])),
        Some(Action::Key { key_input: key_input("Left", vec![]) })
    );
    assert_eq!(
        keybind_for_focus.pressed(Focus::NoFocus, key_input("h", vec!["Control"])),
        Some(Action::Key { key_input: key_input("Left", vec!["Control"]) })
    );
    assert_eq!(
        keybind_for_focus.released(Focus::NoFocus, key_input("h", vec!["Shift"])),
        Some(Action::Key { key_input: key_input("Left", vec!["Shift"]) })
    );
}

#[test]
fn keybind_for_focus_from_config_fails_on_the_first_wrong_name() {
    let parser = Parser::build(&StringIntoDomain);
    let wrong = values::Config {
        remap: values::Remaps(vec![remap("h", "BadTarget", None), remap("BadSource", "x", None)]),
        in_app: vec![in_app("app", vec![remap("", "x", None)])],
    };
    assert_eq!(
        parser.build_keybind_for_focus(wrong).err(),
        Some(InvalidConfigError::UnexpectedKey("BadTarget".to_string()))
    );
    let wrong_in_app = values::Config {
        remap: values::Remaps(vec![remap("h", "Left", None)]),
        in_app: vec![in_app("app", vec![remap("BadMod-x", "x", None)]), in_app("other", vec![remap("", "x", None)])],
    };
    assert_eq!(
        parser.build_keybind_for_focus(wrong_in_app).err(),
        Some(InvalidConfigError::UnexpectedModifier("BadMod".to_string()))
    );
    let empty = values::Config {
        remap: values::Remaps(vec![remap("Shift-", "Left", None)]),
        in_app: vec![],
    };
    assert_eq!(parser.build_keybind_for_focus(empty).err(), Some(InvalidConfigError::EmptyKey));
}

#[test]
fn check_config_fits_counts_the_possible_modifiers() {
    let many: Vec<&str> = (0..usize::BITS).map(|_| "m").collect();
    let few: Vec<&str> = (1..usize::BITS).map(|_| "m").collect();
    let fits = values::Config {
        remap: values::Remaps(vec![remap("h", "Left", Some(few.clone())), command("t", "xterm")]),
        in_app: vec![in_app("app", vec![remap("a", "b", None), remap("c", "d", Some(vec![]))])],
    };
    assert_eq!(check_config_fits(&fits), true);
    let global_does_not = values::Config {
        remap: values::Remaps(vec![remap("h", "Left", Some(few.clone())), remap("l", "Right", Some(many.clone()))]),
        in_app: vec![],
    };
    assert_eq!(check_config_fits(&global_does_not), false);
    let in_app_does_not = values::Config {
        remap: values::Remaps(vec![]),
        in_app: vec![in_app("a", vec![]), in_app("b", vec![remap("l", "Right", Some(many))])],
    };
    assert_eq!(check_config_fits(&in_app_does_not), false);
}
