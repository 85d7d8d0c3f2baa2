use mapper::action::Action;
use mapper::application::Application;
use mapper::config::parser::Parser;
use mapper::config::values;
use mapper::event::Event;
use mapper::focus::Focus;
use mapper::key::{Key, KeyInput, Modifier, Modifiers};
use mapper::keybind::keybind_for_focus::IsKeyBindForFocus;
use mapper::state::{Command, State};
use mapper::x::x_into_domain::XIntoDomain;
use mapper::x::XExecution;

const H: u64 = 0x68;
const T: u64 = 0x74;
const LEFT: u64 = 0xff51;
const HOME: u64 = 0xff50;
const SHIFT: u32 = 1;
const CONTROL: u32 = 4;
const MOD4: u32 = 64;

fn x_into_domain() -> XIntoDomain {
    XIntoDomain::new(
        vec![
            ("h".to_string(), H),
            ("t".to_string(), T),
            ("Left".to_string(), LEFT),
            ("Home".to_string(), HOME),
        ],
        vec![
            ("Shift".to_string(), SHIFT),
            ("Control".to_string(), CONTROL),
            ("Mod4".to_string(), MOD4),
        ],
    )
}

fn ki(key: u64, modifiers: Vec<u32>) -> KeyInput<u64, u32> {
    KeyInput::new(Key::new(key), Modifiers::new(modifiers.into_iter().map(Modifier::new).collect()))
}

fn config() -> values::Config {
    values::Config {
        remap: values::Remaps(vec![
            (
                values::KeyInput("h".to_string()),
                values::Action::KeyInput {
                    to: values::KeyInput("Left".to_string()),
                    with: Some(vec![values::Modifier("Shift".to_string())]),
                },
            ),
            (
                values::KeyInput("Mod4-t".to_string()),
                values::Action::Execution { execute: values::Execution("xterm".to_string()) },
            ),
        ]),
        in_app: vec![(
            values::Application("editor".to_string()),
            values::Remaps(vec![(
                values::KeyInput("Control-h".to_string()),
                values::Action::KeyInput { to: values::KeyInput("Home".to_string()), with: None },
            )]),
        )],
    }
}

#[test]
fn end_to_end_remap_with_possible_modifier() {
    let into_domain = x_into_domain();
    let keybind_for_focus = Parser::build(&into_domain).build_keybind_for_focus(config()).unwrap();
    assert_eq!(
        keybind_for_focus.pressed(Focus::NoFocus, ki(H, vec![SHIFT])),
        Some(Action::Key { key_input: ki(LEFT, vec![SHIFT]) })
    );
    assert_eq!(
        keybind_for_focus.pressed(Focus::NoFocus, ki(H, vec![])),
        Some(Action::Key { key_input: ki(LEFT, vec![]) })
    );
    assert_eq!(
        keybind_for_focus.pressed(Focus::NoFocus, ki(H, vec![CONTROL])),
        Some(Action::Key { key_input: ki(LEFT, vec![CONTROL]) })
    );
    assert_eq!(keybind_for_focus.pressed(Focus::NoFocus, ki(LEFT, vec![])), None);
}

#[test]
fn end_to_end_command_fires_on_its_exact_chord_only() {
    let into_domain = x_into_domain();
    let keybind_for_focus = Parser::build(&into_domain).build_keybind_for_focus(config()).unwrap();
    assert_eq!(
        keybind_for_focus.pressed(Focus::NoFocus, ki(T, vec![MOD4])),
        Some(Action::Execution { execution: XExecution::ShellCommand("xterm".to_string()) })
    );
    assert_eq!(keybind_for_focus.pressed(Focus::NoFocus, ki(T, vec![MOD4, SHIFT])), None);
    assert_eq!(keybind_for_focus.pressed(Focus::NoFocus, ki(T, vec![])), None);
    assert_eq!(keybind_for_focus.released(Focus::NoFocus, ki(T, vec![MOD4])), None);
}

#[test]
fn end_to_end_state_follows_the_focus() {
    let into_domain = x_into_domain();
    let parser = Parser::build(&into_domain);
    let keybind_for_focus = parser.build_keybind_for_focus(config()).unwrap();
    let finder = parser.build_possible_keyinput_finder(config()).unwrap();
    let mut state = State::new(keybind_for_focus, finder);

    assert_eq!(
        state.start(),
        vec![Command::GrabKeys {
            key_inputs: vec![ki(H, vec![]), ki(H, vec![SHIFT]), ki(T, vec![MOD4])]
        }]
    );
    assert_eq!(
        state.handle(Event::KeyPressed { key_input: ki(H, vec![CONTROL]) }),
        vec![Command::PressKey { key_input: ki(LEFT, vec![CONTROL]) }]
    );
    assert_eq!(
        state.handle(Event::ApplicationChanged {
            next_application: Some(Application::new("editor".to_string()))
        }),
        vec![
            Command::UngrabKeys,
            Command::GrabKeys {
                key_inputs: vec![
                    ki(H, vec![]),
                    ki(H, vec![SHIFT]),
                    ki(H, vec![CONTROL]),
                    ki(T, vec![MOD4])
                ]
            }
        ]
    );
    assert_eq!(
        state.handle(Event::KeyPressed { key_input: ki(H, vec![CONTROL]) }),
        vec![Command::PressKey { key_input: ki(HOME, vec![]) }]
    );
    assert_eq!(
        state.handle(Event::KeyReleased { key_input: ki(H, vec![CONTROL]) }),
        vec![Command::ReleaseKey { key_input: ki(HOME, vec![]) }]
    );
    assert_eq!(
        state.handle(Event::KeyPressed { key_input: ki(H, vec![SHIFT]) }),
        vec![Command::PressKey { key_input: ki(LEFT, vec![SHIFT]) }]
    );
    assert_eq!(
        state.handle(Event::KeyPressed { key_input: ki(T, vec![MOD4]) }),
        vec![Command::Execute { execution: XExecution::ShellCommand("xterm".to_string()) }]
    );
    assert_eq!(
        state.handle(Event::KeyReleased { key_input: ki(T, vec![MOD4]) }),
        vec![Command::ReleaseKey { key_input: ki(T, vec![MOD4]) }]
    );
    assert_eq!(
        state.handle(Event::KeyPressed { key_input: ki(LEFT, vec![]) }),
        vec![Command::PressKey { key_input: ki(LEFT, vec![]) }]
    );
}
