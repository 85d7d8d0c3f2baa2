use mapper::key::{Key, KeyInput, Modifier, Modifiers};
use mapper::x::modifier_mask::{key_input_of_event, modifiers_of_state, state_of_modifiers};

#[test]
fn modifiers_of_state_gives_one_modifier_for_each_bit() {
    assert_eq!(modifiers_of_state(0), vec![]);
    assert_eq!(modifiers_of_state(1), vec![Modifier::new(1)]);
    assert_eq!(modifiers_of_state(0b10101), vec![Modifier::new(1), Modifier::new(4), Modifier::new(16)]);
    assert_eq!(modifiers_of_state(0x8000_0000), vec![Modifier::new(0x8000_0000)]);
    assert_eq!(modifiers_of_state(u32::MAX).len(), 32);
}

#[test]
fn key_input_of_event_holds_the_key_and_the_modifiers() {
    assert_eq!(
        key_input_of_event(0xff0d, 5),
        KeyInput::new(Key::new(0xff0d), Modifiers::new(vec![Modifier::new(4), Modifier::new(1)]))
    );
    assert_eq!(key_input_of_event(0x68, 0), KeyInput::new(Key::new(0x68), Modifiers::new(vec![])));
}

#[test]
fn state_of_modifiers_ors_the_masks() {
    assert_eq!(state_of_modifiers(&KeyInput::of(1, vec![])), 0);
    assert_eq!(state_of_modifiers(&KeyInput::of(1, vec![4, 1, 64])), 69);
    assert_eq!(state_of_modifiers(&KeyInput::of(1, vec![3, 6])), 7);
}

#[test]
fn state_of_modifiers_gives_the_state_of_the_event_back() {
    let states: Vec<u32> = vec![0, 1, 5, 0x1f, 0xdead_beef, u32::MAX];
    for state in states {
        assert_eq!(state_of_modifiers(&key_input_of_event(7, state)), state);
    }
}
