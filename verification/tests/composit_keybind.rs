use mapper::action::{Action, ActionView};
use mapper::key::{Key, KeyInput, KeyInputView, Modifier, Modifiers};
use mapper::keybind::composit_keybind::CompositKeyBind;
use mapper::keybind::KeyBind;
use mapper::keymap::Keymap;

struct TestAction {
    from: String,
    execution: String,
}

impl KeyBind<String, String, String> for TestAction {
    fn pressed_spec(&self, _key_input: KeyInputView<String, String>) -> Option<ActionView<String, String, String>> {
        unreachable!()
    }

    fn released_spec(&self, _key_input: KeyInputView<String, String>) -> Option<ActionView<String, String, String>> {
        unreachable!()
    }

    fn pressed(&self, key_input: &KeyInput<String, String>) -> Option<Action<String, String, String>> {
        if self.from == key_input.key().raw_value() {
            Some(Action::Execution { execution: format!("pressed/{}", self.execution.clone()) })
        } else {
            None
        }
    }

    fn released(&self, key_input: &KeyInput<String, String>) -> Option<Action<String, String, String>> {
        if self.from == key_input.key().raw_value() {
            Some(Action::Execution { execution: format!("released/{}", self.execution.clone()) })
        } else {
            None
        }
    }
}

fn bare(key: &str) -> KeyInput<String, String> {
    KeyInput::new(Key::new(key.to_string()), Modifiers::new(vec![]))
}

fn with(key: &str, modifiers: Vec<&str>) -> KeyInput<String, String> {
    KeyInput::new(
        Key::new(key.to_string()),
        Modifiers::new(modifiers.into_iter().map(|m| Modifier::new(m.to_string())).collect()),
    )
}

#[test]
fn composit_keybind_matches_according_to_input() {
    let keybind_1 = TestAction { from: "bind_1".to_string(), execution: "exec_1".to_string() };
    let keybind_2 = TestAction { from: "bind_2".to_string(), execution: "exec_2".to_string() };
    let composit_keybind = CompositKeyBind::new(vec![keybind_1, keybind_2]);

    assert_eq!(
        composit_keybind.pressed(&bare("bind_1")),
        Some(Action::Execution { execution: "pressed/exec_1".to_string() })
    );
    assert_eq!(
        composit_keybind.released(&bare("bind_2")),
        Some(Action::Execution { execution: "released/exec_2".to_string() })
    );
    assert_eq!(composit_keybind.pressed(&bare("nonexistent")), None);
}

#[test]
fn composit_keybind_first_match_wins() {
    let first = TestAction { from: "same".to_string(), execution: "first".to_string() };
    let second = TestAction { from: "same".to_string(), execution: "second".to_string() };
    let composit_keybind = CompositKeyBind::new(vec![first, second]);
    assert_eq!(
        composit_keybind.pressed(&bare("same")),
        Some(Action::Execution { execution: "pressed/first".to_string() })
    );
    assert_eq!(
        composit_keybind.released(&bare("same")),
        Some(Action::Execution { execution: "released/first".to_string() })
    );
}

#[test]
fn composit_keybind_of_keymaps_answers_with_the_first_that_matches() {
    let broad: Keymap<String, String> = Keymap::new(with("h", vec![]), with("Left", vec![]));
    let narrow: Keymap<String, String> = Keymap::new(with("h", vec!["Shift"]), with("Home", vec![]));
    let broad_first = CompositKeyBind::new(vec![
        Keymap::new(with("h", vec![]), with("Left", vec![])),
        Keymap::new(with("h", vec!["Shift"]), with("Home", vec![])),
    ]);
    let narrow_first = CompositKeyBind::new(vec![narrow, broad]);
    let observed = with("h", vec!["Shift"]);
    let from_broad: Option<Action<String, String, String>> = broad_first.pressed(&observed);
    let from_narrow: Option<Action<String, String, String>> = narrow_first.pressed(&observed);
    assert_eq!(from_broad, Some(Action::Key { key_input: with("Left", vec!["Shift"]) }));
    assert_eq!(from_narrow, Some(Action::Key { key_input: with("Home", vec![]) }));
}

#[test]
fn composit_keybind_without_rules_has_no_action() {
    let composit_keybind: CompositKeyBind<TestAction> = CompositKeyBind::new(vec![]);
    assert_eq!(composit_keybind.pressed(&bare("a")), None);
    assert_eq!(composit_keybind.released(&bare("a")), None);
}
