use mapper::action::{Action, ActionView};
use mapper::application::Application;
use mapper::event::Event;
use mapper::focus::Focus;
use mapper::key::{KeyInput, KeyInputView};
use mapper::keybind::keybind_for_focus::IsKeyBindForFocus;
use mapper::possible_keyinput_finder::PossibleKeyinputFinder;
use mapper::state::{Command, State};
use std::collections::BTreeMap;

struct MockKeyBindForFocus {
    expect_pressed: BTreeMap<(Focus<String>, KeyInput<String, String>), Action<String, String, String>>,
    expect_released: BTreeMap<(Focus<String>, KeyInput<String, String>), Action<String, String, String>>,
}

impl IsKeyBindForFocus<String, String, String, String> for MockKeyBindForFocus {
    fn pressed_spec(&self, _focus: Option<String>, _key_input: KeyInputView<String, String>) -> Option<ActionView<String, String, String>> {
        unreachable!()
    }

    fn released_spec(&self, _focus: Option<String>, _key_input: KeyInputView<String, String>) -> Option<ActionView<String, String, String>> {
        unreachable!()
    }

    fn pressed(&self, focus: Focus<String>, key_input: KeyInput<String, String>) -> Option<Action<String, String, String>> {
        self.expect_pressed.get(&(focus, key_input)).cloned()
    }

    fn released(&self, focus: Focus<String>, key_input: KeyInput<String, String>) -> Option<Action<String, String, String>> {
        self.expect_released.get(&(focus, key_input)).cloned()
    }
}

fn no_rules() -> MockKeyBindForFocus {
    MockKeyBindForFocus { expect_pressed: BTreeMap::new(), expect_released: BTreeMap::new() }
}

fn empty_finder() -> PossibleKeyinputFinder<String, String, String> {
    PossibleKeyinputFinder::new(vec![], BTreeMap::new())
}

fn from() -> KeyInput<String, String> {
    KeyInput::of(String::from("a"), vec![String::from("Alt")])
}

fn to() -> KeyInput<String, String> {
    KeyInput::of(String::from("b"), vec![String::from("Control")])
}

#[test]
fn state_updates_application_when_application_changed() {
    let mut state = State::new(no_rules(), empty_finder());
    assert_eq!(state.application.is_none(), true);
    state.handle(Event::ApplicationChanged {
        next_application: Some(Application::new("next_app".to_string())),
    });
    assert_eq!(state.application, Some(Application::new("next_app".to_string())));
    assert_eq!(state.focus(), Focus::Focused { application: Application::new("next_app".to_string()) });
    state.handle(Event::ApplicationChanged { next_application: None });
    assert_eq!(state.application, None);
    assert_eq!(state.focus(), Focus::NoFocus);
}

#[test]
fn state_ungrabs_and_grabs_keys_when_application_changed() {
    let mut by_application = BTreeMap::new();
    by_application.insert("next_app".to_string(), vec![to()]);
    let mut state = State::new(no_rules(), PossibleKeyinputFinder::new(vec![from()], by_application));
    assert_eq!(state.start(), vec![Command::GrabKeys { key_inputs: vec![from()] }]);
    let commands = state.handle(Event::ApplicationChanged {
        next_application: Some(Application::new("next_app".to_string())),
    });
    assert_eq!(
        commands,
        vec![Command::UngrabKeys, Command::GrabKeys { key_inputs: vec![from(), to()] }]
    );
    let commands = state.handle(Event::ApplicationChanged { next_application: None });
    assert_eq!(commands, vec![Command::UngrabKeys, Command::GrabKeys { key_inputs: vec![from()] }]);
}

#[test]
fn state_presses_converted_key_when_keybind_exists() {
    let mut rules = no_rules();
    rules.expect_pressed.insert((Focus::NoFocus, from()), Action::Key { key_input: to() });
    let mut state = State::new(rules, empty_finder());
    assert_eq!(
        state.handle(Event::KeyPressed { key_input: from() }),
        vec![Command::PressKey { key_input: to() }]
    );
    assert_eq!(state.application, None);
}

#[test]
fn state_presses_bare_key_when_keybind_does_not_exist() {
    let mut state = State::new(no_rules(), empty_finder());
    assert_eq!(
        state.handle(Event::KeyPressed { key_input: from() }),
        vec![Command::PressKey { key_input: from() }]
    );
}

#[test]
fn state_releases_converted_key_when_keybind_exists() {
    let mut rules = no_rules();
    rules.expect_released.insert((Focus::NoFocus, from()), Action::Key { key_input: to() });
    let mut state = State::new(rules, empty_finder());
    assert_eq!(
        state.handle(Event::KeyReleased { key_input: from() }),
        vec![Command::ReleaseKey { key_input: to() }]
    );
}

#[test]
fn state_releases_bare_key_when_keybind_does_not_exist() {
    let mut state = State::new(no_rules(), empty_finder());
    assert_eq!(
        state.handle(Event::KeyReleased { key_input: from() }),
        vec![Command::ReleaseKey { key_input: from() }]
    );
}

#[test]
fn state_executes_the_command_of_an_execution() {
    let mut rules = no_rules();
    rules.expect_pressed.insert(
        (Focus::Focused { application: Application::new("app".to_string()) }, from()),
        Action::Execution { execution: "xterm".to_string() },
    );
    let mut state = State::new(rules, empty_finder());
    state.handle(Event::ApplicationChanged { next_application: Some(Application::new("app".to_string())) });
    assert_eq!(
        state.handle(Event::KeyPressed { key_input: from() }),
        vec![Command::Execute { execution: "xterm".to_string() }]
    );
}

#[test]
fn state_run_grabs_at_the_start_and_answers_each_event() {
    let mut rules = no_rules();
    rules.expect_pressed.insert((Focus::NoFocus, from()), Action::Key { key_input: to() });
    rules.expect_released.insert(
        (Focus::Focused { application: Application::new("next_app".to_string()) }, from()),
        Action::Key { key_input: to() },
    );
    let mut by_application = BTreeMap::new();
    by_application.insert("next_app".to_string(), vec![to()]);
    let mut state = State::new(rules, PossibleKeyinputFinder::new(vec![from()], by_application));
    let commands = state.run(vec![
        Event::KeyPressed { key_input: from() },
        Event::KeyReleased { key_input: from() },
        Event::ApplicationChanged { next_application: Some(Application::new("next_app".to_string())) },
        Event::KeyPressed { key_input: from() },
        Event::KeyReleased { key_input: from() },
    ]);
    assert_eq!(
        commands,
        vec![
            Command::GrabKeys { key_inputs: vec![from()] },
            Command::PressKey { key_input: to() },
            Command::ReleaseKey { key_input: from() },
            Command::UngrabKeys,
            Command::GrabKeys { key_inputs: vec![from(), to()] },
            Command::PressKey { key_input: from() },
            Command::ReleaseKey { key_input: to() },
        ]
    );
    assert_eq!(state.application, Some(Application::new("next_app".to_string())));
}

#[test]
fn state_run_without_events_only_grabs() {
    let mut state = State::new(no_rules(), empty_finder());
    assert_eq!(state.run(vec![]), vec![Command::GrabKeys { key_inputs: vec![] }]);
    assert_eq!(state.application, None);
}

#[test]
fn state_run_ungrabs_once_and_grabs_twice_when_application_changed() {
    let mut state = State::new(no_rules(), empty_finder());
    let commands = state.run(vec![Event::ApplicationChanged {
        next_application: Some(Application::new("next_app".to_string())),
    }]);
    let ungrabbed = commands.iter().filter(|command| matches!(command, Command::UngrabKeys)).count();
    let grabbed = commands.iter().filter(|command| matches!(command, Command::GrabKeys { .. })).count();
    assert_eq!(ungrabbed, 1);
    assert_eq!(grabbed, 2);
    assert_eq!(state.application, Some(Application::new("next_app".to_string())));
}
