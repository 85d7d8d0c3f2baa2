//! A platform-independent engine that resolves key remapping rules.
//!
//! A rule answers a key input with another key input or with a command.
//! Rules hold everywhere or for one application, and those of the focused
//! application go first. The engine says for each key input that comes in
//! what is to be done for it, and for each focus which key inputs have to be
//! intercepted so that the rules can fire at all. It does no input or output
//! of its own.
//!
//! The raw values of keys, modifiers, applications and commands are
//! parameters. The contracts hold for raw types that obey the laws of the
//! module `laws`, as the primitive integers do.

pub mod action;
pub mod application;
pub mod config;
pub mod event;
pub mod focus;
pub mod key;
pub mod keybind;
pub mod keymap;
pub mod laws;
pub mod possible_keyinput_finder;
pub mod state;
pub mod x;

pub use crate::action::Action;
pub use crate::application::Application;
pub use crate::event::Event;
pub use crate::focus::Focus;
pub use crate::key::{Key, KeyInput, Matching, Modifier, Modifiers};
pub use crate::keybind::composit_keybind::CompositKeyBind;
pub use crate::keybind::configured_keybind::ConfiguredKeyBind;
pub use crate::keybind::execution_keybind::ExecutionKeyBind;
pub use crate::keybind::keybind_for_focus::{IsKeyBindForFocus, KeyBindForFocus};
pub use crate::keybind::KeyBind;
pub use crate::keymap::Keymap;
pub use crate::possible_keyinput_finder::PossibleKeyinputFinder;
pub use crate::state::{Command, State};
