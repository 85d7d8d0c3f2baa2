//! The configuration as it is written: names and texts, not yet resolved.

use vstd::prelude::*;

verus! {

/// The name of an application.
#[derive(Debug, PartialEq, Eq, PartialOrd, Ord, Clone)]
pub struct Application(pub String);

/// A key input as text: modifier names and a key name, joined by hyphens,
/// the key name last.
#[derive(Debug, PartialEq, Eq, PartialOrd, Ord, Clone)]
pub struct KeyInput(pub String);

/// The name of a key.
#[derive(Debug, PartialEq, Eq, PartialOrd, Ord, Clone)]
pub struct Key(pub String);

/// The name of a modifier.
#[derive(Debug, PartialEq, Eq, PartialOrd, Ord, Clone)]
pub struct Modifier(pub String);

/// A command as text.
#[derive(Debug, PartialEq, Eq, PartialOrd, Ord, Clone)]
pub struct Execution(pub String);

/// What a key input is remapped to.
#[derive(Debug, Clone)]
pub enum Action {
    /// Another key input. The rule still fires while any of the modifiers
    /// named by `with` are held in addition to its own.
    KeyInput { to: KeyInput, with: Option<Vec<Modifier>> },
    /// A command.
    Execution { execute: Execution },
}

/// Remappings, in the order in which they are tried.
#[derive(Debug, Clone)]
pub struct Remaps(pub Vec<(KeyInput, Action)>);

/// A whole configuration: the remappings that hold everywhere, and those
/// that hold while a window of one application has the focus.
#[derive(Debug, Clone)]
pub struct Config {
    pub remap: Remaps,
    pub in_app: Vec<(Application, Remaps)>,
}

} // verus!
