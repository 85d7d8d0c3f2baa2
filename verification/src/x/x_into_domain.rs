//! The names of keys and modifiers, resolved with tables of symbols.

use crate::config::into_domain::IsIntoDomain;
use crate::config::invalid_config_error::{InvalidConfigError, InvalidConfigErrorView};
use crate::config::values;
use crate::x::{Application, Key, Modifier, XAppIdentifier, XExecution, XKeySymbol, XModifier};
use vstd::prelude::*;

verus! {

/// The value that `table` gives for `name`: that of the first entry with
/// this name, if there is one.
pub open spec fn looked_up<V>(table: Seq<(String, V)>, name: Seq<char>) -> Option<V>
    decreases table.len(),
{
    if table.len() == 0 {
        None
    } else if table[0].0@ == name {
        Some(table[0].1)
    } else {
        looked_up(table.drop_first(), name)
    }
}

/// Resolves names with a table of key symbols and a table of modifier masks.
/// An application goes by its name, and a command is a shell command.
pub struct XIntoDomain {
    keysyms: Vec<(String, XKeySymbol)>,
    modifier_masks: Vec<(String, XModifier)>,
}

impl XIntoDomain {
    /// The key symbols by name.
    pub closed spec fn keysyms(&self) -> Seq<(String, XKeySymbol)> {
        self.keysyms@
    }

    /// The modifier masks by name.
    pub closed spec fn modifier_masks(&self) -> Seq<(String, XModifier)> {
        self.modifier_masks@
    }

    pub fn new(keysyms: Vec<(String, XKeySymbol)>, modifier_masks: Vec<(String, XModifier)>) -> (into_domain:
        Self)
        ensures
            into_domain.keysyms() == keysyms@,
            into_domain.modifier_masks() == modifier_masks@,
    {
        Self { keysyms: keysyms, modifier_masks: modifier_masks }
    }
}

/// Looks `name` up in `table`.
fn look_up<V: Copy>(table: &Vec<(String, V)>, name: &String) -> (found: Option<V>)
    ensures
        found == looked_up(table@, name@),
{
    let mut i: usize = 0;
    assert(table@.skip(0) =~= table@);
    while i < table.len()
        invariant
            i <= table.len(),
            looked_up(table@, name@) == looked_up(table@.skip(i as int), name@),
        decreases table.len() - i,
    {
        proof {
            assert(table@.skip(i as int)[0] == table@[i as int]);
            assert(table@.skip(i as int).drop_first() =~= table@.skip(i + 1));
        }
        if table[i].0 == *name {
            return Some(table[i].1);
        }
        i += 1;
    }
    None
}

impl IsIntoDomain<XAppIdentifier, XKeySymbol, XModifier, XExecution> for XIntoDomain {
    open spec fn application_spec(&self, app: values::Application) -> Result<
        XAppIdentifier,
        InvalidConfigErrorView,
    > {
        Ok(app.0)
    }

    open spec fn key_spec(&self, name: Seq<char>) -> Result<XKeySymbol, InvalidConfigErrorView> {
        match looked_up(self.keysyms(), name) {
            Some(keysym) => Ok(keysym),
            None => Err(InvalidConfigErrorView::UnexpectedKey(name)),
        }
    }

    open spec fn modifier_spec(&self, name: Seq<char>) -> Result<
        XModifier,
        InvalidConfigErrorView,
    > {
        match looked_up(self.modifier_masks(), name) {
            Some(mask) => Ok(mask),
            None => Err(InvalidConfigErrorView::UnexpectedModifier(name)),
        }
    }

    open spec fn execution_spec(&self, execution: values::Execution) -> Result<
        XExecution,
        InvalidConfigErrorView,
    > {
        Ok(XExecution::ShellCommand(execution.0))
    }

    fn into_domain_application(&self, app: values::Application) -> (application: Result<
        Application,
        InvalidConfigError,
    >) {
        Ok(Application::new(app.0))
    }

    fn into_domain_key(&self, key: values::Key) -> (resolved: Result<Key, InvalidConfigError>) {
        match look_up(&self.keysyms, &key.0) {
            Some(keysym) => Ok(Key::new(keysym)),
            None => Err(InvalidConfigError::UnexpectedKey(key.0)),
        }
    }

    fn into_domain_modifier(&self, modifier: values::Modifier) -> (resolved: Result<
        Modifier,
        InvalidConfigError,
    >) {
        match look_up(&self.modifier_masks, &modifier.0) {
            Some(mask) => Ok(Modifier::new(mask)),
            None => Err(InvalidConfigError::UnexpectedModifier(modifier.0)),
        }
    }

    fn into_domain_execution(&self, execution: values::Execution) -> (resolved: Result<
        XExecution,
        InvalidConfigError,
    >) {
        Ok(XExecution::ShellCommand(execution.0))
    }
}

} // verus!
