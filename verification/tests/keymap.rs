use mapper::action::Action;
use mapper::key::{Key, KeyInput, Modifier, Modifiers};
use mapper::keybind::KeyBind;
use mapper::keymap::Keymap;

fn key_input(key: &str, modifiers: Vec<&str>) -> KeyInput<String, String> {
    KeyInput::new(
        Key::new(key.to_string()),
        Modifiers::new(modifiers.into_iter().map(|m| Modifier::new(m.to_string())).collect()),
    )
}

fn ctrl_j_to_down() -> Keymap<String, String> {
    Keymap::new(key_input("j", vec!["Ctrl"]), key_input("Down", vec![]))
}

fn pressed(keymap: &Keymap<String, String>, observed: &KeyInput<String, String>) -> Option<Action<String, String, String>> {
    keymap.pressed(observed)
}

fn released(keymap: &Keymap<String, String>, observed: &KeyInput<String, String>) -> Option<Action<String, String, String>> {
    keymap.released(observed)
}

#[test]
fn keymap_pressed_maps_equivalent_key_input() {
    assert_eq!(
        pressed(&ctrl_j_to_down(), &key_input("j", vec!["Ctrl"])),
        Some(Action::Key { key_input: key_input("Down", vec![]) })
    );
}

#[test]
fn keymap_pressed_maps_superset_key_input_merged() {
    assert_eq!(
        pressed(&ctrl_j_to_down(), &key_input("j", vec!["Ctrl", "Shift"])),
        Some(Action::Key { key_input: key_input("Down", vec!["Shift"]) })
    );
}

#[test]
fn keymap_pressed_does_not_match_different_key_input() {
    assert_eq!(pressed(&ctrl_j_to_down(), &key_input("j", vec![])), None);
}

#[test]
fn keymap_released_maps_equivalent_key_input() {
    assert_eq!(
        released(&ctrl_j_to_down(), &key_input("j", vec!["Ctrl"])),
        Some(Action::Key { key_input: key_input("Down", vec![]) })
    );
}

#[test]
fn keymap_released_maps_superset_key_input_merged() {
    assert_eq!(
        released(&ctrl_j_to_down(), &key_input("j", vec!["Ctrl", "Shift"])),
        Some(Action::Key { key_input: key_input("Down", vec!["Shift"]) })
    );
}

#[test]
fn keymap_released_does_not_match_different_key_input() {
    assert_eq!(released(&ctrl_j_to_down(), &key_input("j", vec![])), None);
}

#[test]
fn keymap_keeps_the_modifiers_of_the_target() {
    let keymap: Keymap<String, String> =
        Keymap::new(key_input("h", vec![]), key_input("Left", vec!["Mod4"]));
    assert_eq!(
        pressed(&keymap, &key_input("h", vec!["Control"])),
        Some(Action::Key { key_input: key_input("Left", vec!["Control", "Mod4"]) })
    );
}

#[test]
fn keymap_does_not_match_another_key() {
    assert_eq!(pressed(&ctrl_j_to_down(), &key_input("k", vec!["Ctrl"])), None);
}
