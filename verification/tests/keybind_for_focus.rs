use mapper::action::{Action, ActionView};
use mapper::application::Application;
use mapper::focus::Focus;
use mapper::key::{Key, KeyInput, KeyInputView, Modifiers};
use mapper::keybind::keybind_for_focus::{IsKeyBindForFocus, KeyBindForFocus};
use mapper::keybind::KeyBind;
use std::collections::BTreeMap;

struct MockKeyBind {
    from: String,
    execution: String,
}

impl KeyBind<String, String, String> for MockKeyBind {
    fn pressed_spec(&self, _key_input: KeyInputView<String, String>) -> Option<ActionView<String, String, String>> {
        unreachable!()
    }

    fn released_spec(&self, _key_input: KeyInputView<String, String>) -> Option<ActionView<String, String, String>> {
        unreachable!()
    }

    fn pressed(&self, key_input: &KeyInput<String, String>) -> Option<Action<String, String, String>> {
        if self.from == key_input.key().raw_value() {
            Some(Action::Execution { execution: format!("pressed/{}", self.execution.clone()) })
        } else {
            None
        }
    }

    fn released(&self, key_input: &KeyInput<String, String>) -> Option<Action<String, String, String>> {
        if self.from == key_input.key().raw_value() {
            Some(Action::Execution { execution: format!("released/{}", self.execution.clone()) })
        } else {
            None
        }
    }
}

fn global_and_inapp() -> KeyBindForFocus<String, MockKeyBind> {
    let global_keybind =
        MockKeyBind { from: "global".to_string(), execution: "global_execution".to_string() };
    let inapp_keybind =
        MockKeyBind { from: "inapp".to_string(), execution: "inapp_execution".to_string() };
    let mut keybind_by_application = BTreeMap::new();
    keybind_by_application.insert("app".to_string(), inapp_keybind);
    KeyBindForFocus::new(global_keybind, keybind_by_application)
}

fn bare(key: &str) -> KeyInput<String, String> {
    KeyInput::new(Key::new(key.to_string()), Modifiers::new(vec![]))
}

fn focused(app: &str) -> Focus<String> {
    Focus::Focused { application: Application::new(app.to_string()) }
}

fn execution(text: &str) -> Option<Action<String, String, String>> {
    Some(Action::Execution { execution: text.to_string() })
}

#[test]
fn keybind_for_focus_pressed_matches_global_remap() {
    assert_eq!(
        global_and_inapp().pressed(Focus::NoFocus, bare("global")),
        execution("pressed/global_execution")
    );
}

#[test]
fn keybind_for_focus_pressed_matches_inapp_remap() {
    assert_eq!(
        global_and_inapp().pressed(focused("app"), bare("inapp")),
        execution("pressed/inapp_execution")
    );
}

#[test]
fn keybind_for_focus_pressed_matches_global_remap_through_focused_application() {
    assert_eq!(
        global_and_inapp().pressed(focused("app"), bare("global")),
        execution("pressed/global_execution")
    );
}

#[test]
fn keybind_for_focus_pressed_does_not_match_nonexistent_remap() {
    assert_eq!(global_and_inapp().pressed(Focus::NoFocus, bare("nonexistent")), None);
}

#[test]
fn keybind_for_focus_released_matches_global_remap() {
    assert_eq!(
        global_and_inapp().released(Focus::NoFocus, bare("global")),
        execution("released/global_execution")
    );
}

#[test]
fn keybind_for_focus_released_matches_inapp_remap() {
    assert_eq!(
        global_and_inapp().released(focused("app"), bare("inapp")),
        execution("released/inapp_execution")
    );
}

#[test]
fn keybind_for_focus_released_matches_global_remap_through_focused_application() {
    assert_eq!(
        global_and_inapp().released(focused("app"), bare("global")),
        execution("released/global_execution")
    );
}

#[test]
fn keybind_for_focus_released_does_not_match_nonexistent_remap() {
    assert_eq!(global_and_inapp().released(Focus::NoFocus, bare("nonexistent")), None);
}

#[test]
fn keybind_for_focus_inapp_remap_is_out_of_reach_without_focus() {
    assert_eq!(global_and_inapp().pressed(Focus::NoFocus, bare("inapp")), None);
}

#[test]
fn keybind_for_focus_other_application_falls_through_to_global() {
    assert_eq!(global_and_inapp().pressed(focused("other-app"), bare("inapp")), None);
    assert_eq!(
        global_and_inapp().pressed(focused("other-app"), bare("global")),
        execution("pressed/global_execution")
    );
}

#[test]
fn keybind_for_focus_inapp_remap_goes_before_global_remap() {
    let global_keybind = MockKeyBind { from: "common".to_string(), execution: "global".to_string() };
    let inapp_keybind = MockKeyBind { from: "common".to_string(), execution: "inapp".to_string() };
    let mut keybind_by_application = BTreeMap::new();
    keybind_by_application.insert("app".to_string(), inapp_keybind);
    let keybind_for_focus = KeyBindForFocus::new(global_keybind, keybind_by_application);
    assert_eq!(keybind_for_focus.pressed(focused("app"), bare("common")), execution("pressed/inapp"));
    assert_eq!(keybind_for_focus.pressed(Focus::NoFocus, bare("common")), execution("pressed/global"));
}
