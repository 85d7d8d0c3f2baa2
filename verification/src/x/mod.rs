//! The engine with the values of an X server: key symbols, modifier masks,
//! window classes and shell commands.

pub mod modifier_mask;
pub mod x_into_domain;

use vstd::prelude::*;

verus! {

/// The class of the window of an application.
pub type XAppIdentifier = String;

/// A key symbol.
pub type XKeySymbol = u64;

/// The mask of one modifier: one bit of the state of a key event.
pub type XModifier = u32;

/// A command that a key input can be bound to.
#[derive(Debug, PartialEq, Eq)]
pub enum XExecution {
    ShellCommand(String),
}

impl Clone for XExecution {
    fn clone(&self) -> (copy: Self)
        ensures
            copy == *self,
    {
        match self {
            XExecution::ShellCommand(command) => XExecution::ShellCommand(command.clone()),
        }
    }
}

/// The key symbols, the modifier masks and the commands of an X server obey
/// the laws that the engine asks of them. The class of a window is a
/// `String`, of whose order nothing is shown here.
pub proof fn lemma_x_laws()
    ensures
        crate::laws::order_law::<XKeySymbol>(),
        crate::laws::clone_law::<XKeySymbol>(),
        crate::laws::order_law::<XModifier>(),
        crate::laws::clone_law::<XModifier>(),
        crate::laws::clone_law::<XExecution>(),
        crate::keybind::bind_laws::<XKeySymbol, XModifier, XExecution>(),
{
    crate::laws::lemma_integer_laws();
    assert forall|a: XExecution, b: XExecution| #[trigger] cloned(a, b) implies a == b by {}
}

pub type Application = crate::application::Application<XAppIdentifier>;

pub type KeyInput = crate::key::KeyInput<XKeySymbol, XModifier>;

pub type Key = crate::key::Key<XKeySymbol>;

pub type Modifier = crate::key::Modifier<XModifier>;

pub type Modifiers = crate::key::Modifiers<XModifier>;

pub type Focus = crate::focus::Focus<XAppIdentifier>;

pub type Action = crate::action::Action<XKeySymbol, XModifier, XExecution>;

pub type Event = crate::event::Event<XKeySymbol, XModifier, XAppIdentifier>;

pub type PossibleKeyinputFinder = crate::possible_keyinput_finder::PossibleKeyinputFinder<
    XAppIdentifier,
    XKeySymbol,
    XModifier,
>;

/// A rule that binds a key input to a shell command.
pub type XExecutionKeyBind = crate::keybind::execution_keybind::ExecutionKeyBind<
    XKeySymbol,
    XModifier,
    XExecution,
>;

} // verus!
