//! The engine between the events that come in and the commands that go out.
//!
//! The state knows which application has the focus. It is told of each event
//! in turn, and answers each with the commands that are to be carried out for
//! it: which key inputs to intercept from now on, which key input to send,
//! which command to run. Carrying them out is left to whoever feeds the
//! events in.

use crate::action::{Action, ActionView};
use crate::application::Application;
use crate::event::{Event, EventView};
use crate::focus::Focus;
use crate::key::{KeyInput, KeyInputView};
use crate::keybind::keybind_for_focus::{focus_laws, IsKeyBindForFocus};
use crate::laws::clone_law;
use crate::possible_keyinput_finder::{finder_laws, is_found, PossibleKeyinputFinder};
use core::marker::PhantomData;
use vstd::prelude::*;

verus! {

/// The laws of the raw types under which events can be handled.
pub open spec fn state_laws<A: Ord + Clone, K: Ord + Clone, M: Ord + Clone, C: Clone>() -> bool {
    &&& finder_laws::<A, K, M>()
    &&& focus_laws::<A, K, M, C>()
    &&& clone_law::<A>()
}

/// Something to be carried out in answer to an event.
#[derive(Clone, Debug, PartialEq, Eq)]
pub enum Command<K, M, C> {
    /// Stop intercepting all key inputs.
    UngrabKeys,
    /// Intercept these key inputs from now on.
    GrabKeys { key_inputs: Vec<KeyInput<K, M>> },
    /// Send this key input going down.
    PressKey { key_input: KeyInput<K, M> },
    /// Send this key input going up.
    ReleaseKey { key_input: KeyInput<K, M> },
    /// Run this command.
    Execute { execution: C },
}

/// What a command is.
#[verifier::reject_recursive_types(M)]
pub enum CommandView<K, M, C> {
    UngrabKeys,
    GrabKeys { key_inputs: Seq<KeyInputView<K, M>> },
    PressKey { key_input: KeyInputView<K, M> },
    ReleaseKey { key_input: KeyInputView<K, M> },
    Execute { execution: C },
}

impl<K, M, C> View for Command<K, M, C> {
    type V = CommandView<K, M, C>;

    open spec fn view(&self) -> CommandView<K, M, C> {
        match self {
            Command::UngrabKeys => CommandView::UngrabKeys,
            Command::GrabKeys { key_inputs } => CommandView::GrabKeys {
                key_inputs: key_inputs.deep_view(),
            },
            Command::PressKey { key_input } => CommandView::PressKey { key_input: key_input@ },
            Command::ReleaseKey { key_input } => CommandView::ReleaseKey {
                key_input: key_input@,
            },
            Command::Execute { execution } => CommandView::Execute { execution: *execution },
        }
    }
}

impl<K, M, C> DeepView for Command<K, M, C> {
    type V = CommandView<K, M, C>;

    open spec fn deep_view(&self) -> CommandView<K, M, C> {
        self@
    }
}

/// The command for a key input that went down, given the action that the
/// rules have for it: the key input of the action is sent in its place, or
/// the command of the action is run; a key input for which the rules have no
/// action is sent on as it came.
pub open spec fn command_for_pressed<K, M, C>(
    action: Option<ActionView<K, M, C>>,
    key_input: KeyInputView<K, M>,
) -> CommandView<K, M, C> {
    match action {
        Some(ActionView::Key { key_input: bound_key_input }) => CommandView::PressKey {
            key_input: bound_key_input,
        },
        Some(ActionView::Execution { execution }) => CommandView::Execute {
            execution: execution,
        },
        None => CommandView::PressKey { key_input: key_input },
    }
}

/// The command for a key input that went up; as `command_for_pressed`.
pub open spec fn command_for_released<K, M, C>(
    action: Option<ActionView<K, M, C>>,
    key_input: KeyInputView<K, M>,
) -> CommandView<K, M, C> {
    match action {
        Some(ActionView::Key { key_input: bound_key_input }) => CommandView::ReleaseKey {
            key_input: bound_key_input,
        },
        Some(ActionView::Execution { execution }) => CommandView::Execute {
            execution: execution,
        },
        None => CommandView::ReleaseKey { key_input: key_input },
    }
}

/// The identifier of an application, if there is one.
pub open spec fn identifier_of<A>(application: Option<Application<A>>) -> Option<A> {
    match application {
        Some(application) => Some(application@),
        None => None,
    }
}

/// The focus, and the rules and the key inputs to intercept that go by it.
#[verifier::reject_recursive_types(A)]
pub struct State<A, K, M, C, KBFF> {
    pub application: Option<Application<A>>,
    key_bind_for_focus: KBFF,
    possible_keyinput_finder: PossibleKeyinputFinder<A, K, M>,
    _c: PhantomData<C>,
}

impl<
    A: Ord + Clone,
    K: Ord + Clone,
    M: Ord + Clone,
    C: Clone,
    KBFF: IsKeyBindForFocus<A, K, M, C>,
> State<A, K, M, C, KBFF> {
    /// The rules that the state resolves key inputs with.
    pub closed spec fn key_bind_for_focus(&self) -> KBFF {
        self.key_bind_for_focus
    }

    /// The finder that the state takes the key inputs to intercept from.
    pub closed spec fn possible_keyinput_finder(&self) -> PossibleKeyinputFinder<A, K, M> {
        self.possible_keyinput_finder
    }

    /// The identifier of the application that has the focus, if one has.
    pub closed spec fn focus_spec(&self) -> Option<A> {
        identifier_of(self.application)
    }

    /// Whether `key_inputs` is what is to be intercepted under the focus of
    /// the state.
    pub open spec fn is_watched(&self, key_inputs: Seq<KeyInputView<K, M>>) -> bool {
        is_found(
            self.possible_keyinput_finder().recorded(None),
            self.possible_keyinput_finder().of_application(self.focus_spec()),
            key_inputs,
        )
    }

    /// The focus after `event`, where it was `focus` before.
    pub open spec fn focus_after(focus: Option<A>, event: EventView<K, M, A>) -> Option<A> {
        match event {
            EventView::ApplicationChanged { next_application } => next_application,
            _ => focus,
        }
    }

    /// The commands that answer `event` where the focus is `focus`.
    ///
    /// When the focus moves, the key inputs that are intercepted are
    /// exchanged for those of the new focus. A key input that goes down or up
    /// is resolved by the rules under the focus, and answered with one
    /// command.
    pub open spec fn reaction(&self, focus: Option<A>, event: EventView<K, M, A>) -> Seq<
        CommandView<K, M, C>,
    > {
        match event {
            EventView::ApplicationChanged { next_application } => seq![
                CommandView::UngrabKeys,
                CommandView::GrabKeys {
                    key_inputs: self.possible_keyinput_finder().found(next_application),
                },
            ],
            EventView::KeyPressed { key_input } => seq![
                command_for_pressed(
                    self.key_bind_for_focus().pressed_spec(focus, key_input),
                    key_input,
                ),
            ],
            EventView::KeyReleased { key_input } => seq![
                command_for_released(
                    self.key_bind_for_focus().released_spec(focus, key_input),
                    key_input,
                ),
            ],
        }
    }

    /// The commands that answer `events` one after the other, where the
    /// focus is `focus` before the first of them.
    pub open spec fn reactions(&self, focus: Option<A>, events: Seq<EventView<K, M, A>>) -> Seq<
        CommandView<K, M, C>,
    >
        decreases events.len(),
    {
        if events.len() == 0 {
            Seq::empty()
        } else {
            self.reaction(focus, events[0]) + self.reactions(
                Self::focus_after(focus, events[0]),
                events.drop_first(),
            )
        }
    }

    /// The focus after all of `events`, where it was `focus` before.
    pub open spec fn focus_after_all(focus: Option<A>, events: Seq<EventView<K, M, A>>) -> Option<
        A,
    >
        decreases events.len(),
    {
        if events.len() == 0 {
            focus
        } else {
            Self::focus_after_all(Self::focus_after(focus, events[0]), events.drop_first())
        }
    }

    /// A state in which nothing has the focus yet.
    pub fn new(
        key_bind_for_focus: KBFF,
        possible_keyinput_finder: PossibleKeyinputFinder<A, K, M>,
    ) -> (state: Self)
        ensures
            state.focus_spec() is None,
            state.key_bind_for_focus() == key_bind_for_focus,
            state.possible_keyinput_finder() == possible_keyinput_finder,
    {
        Self {
            application: None,
            key_bind_for_focus: key_bind_for_focus,
            possible_keyinput_finder: possible_keyinput_finder,
            _c: PhantomData,
        }
    }

    /// Where the focus is.
    pub fn focus(&self) -> (focus: Focus<A>)
        ensures
            clone_law::<A>() ==> focus@ == self.focus_spec(),
    {
        match &self.application {
            Some(app) => Focus::Focused { application: app.duplicate() },
            None => Focus::NoFocus,
        }
    }

    /// The key inputs to intercept under the focus of the state.
    pub fn watch_target_key_inputs(&self) -> (key_inputs: Vec<KeyInput<K, M>>)
        requires
            state_laws::<A, K, M, C>(),
        ensures
            self.is_watched(key_inputs.deep_view()),
            key_inputs.deep_view() == self.possible_keyinput_finder().found(self.focus_spec()),
    {
        self.possible_keyinput_finder.find(self.focus())
    }

    /// What is to be done before the first event: the key inputs of the
    /// focus of the state are to be intercepted.
    pub fn start(&self) -> (commands: Vec<Command<K, M, C>>)
        requires
            state_laws::<A, K, M, C>(),
        ensures
            commands.deep_view() == seq![
                CommandView::<K, M, C>::GrabKeys {
                    key_inputs: self.possible_keyinput_finder().found(self.focus_spec()),
                },
            ],
    {
        let mut commands: Vec<Command<K, M, C>> = Vec::new();
        let command = Command::GrabKeys { key_inputs: self.watch_target_key_inputs() };
        commands.push(command);
        assert(commands.deep_view() =~= seq![command@]);
        commands
    }

    /// Takes in one event, and answers with what is to be done for it.
    ///
    /// When the focus moves, the state follows it, and the key inputs to
    /// intercept are exchanged for those of the new focus. A key input that
    /// goes down or up is resolved by the rules under the focus as it is,
    /// leaves the focus where it was, and is answered with one command.
    pub fn handle(&mut self, event: Event<K, M, A>) -> (commands: Vec<Command<K, M, C>>)
        requires
            state_laws::<A, K, M, C>(),
        ensures
            final(self).key_bind_for_focus() == old(self).key_bind_for_focus(),
            final(self).possible_keyinput_finder() == old(self).possible_keyinput_finder(),
            final(self).focus_spec() == Self::focus_after(old(self).focus_spec(), event@),
            commands.deep_view() == old(self).reaction(old(self).focus_spec(), event@),
    {
        let ghost focus = self.focus_spec();
        let mut commands: Vec<Command<K, M, C>> = Vec::new();
        match event {
            Event::ApplicationChanged { next_application } => {
                self.application = next_application;
                let grab = Command::GrabKeys { key_inputs: self.watch_target_key_inputs() };
                commands.push(Command::UngrabKeys);
                commands.push(grab);
                assert(commands.deep_view() =~= seq![CommandView::UngrabKeys, grab@]);
            },
            Event::KeyPressed { key_input } => {
                let command = match self.key_bind_for_focus.pressed(
                    self.focus(),
                    key_input.duplicate(),
                ) {
                    Some(Action::Key { key_input: bound_key_input }) => Command::PressKey {
                        key_input: bound_key_input,
                    },
                    Some(Action::Execution { execution }) => Command::Execute {
                        execution: execution,
                    },
                    None => Command::PressKey { key_input: key_input },
                };
                commands.push(command);
                assert(commands.deep_view() =~= seq![command@]);
            },
            Event::KeyReleased { key_input } => {
                let command = match self.key_bind_for_focus.released(
                    self.focus(),
                    key_input.duplicate(),
                ) {
                    Some(Action::Key { key_input: bound_key_input }) => Command::ReleaseKey {
                        key_input: bound_key_input,
                    },
                    Some(Action::Execution { execution }) => Command::Execute {
                        execution: execution,
                    },
                    None => Command::ReleaseKey { key_input: key_input },
                };
                commands.push(command);
                assert(commands.deep_view() =~= seq![command@]);
            },
        }
        commands
    }

    /// Takes in a whole stream of events, and answers with all that is to be
    /// done for it, in order: first the key inputs of the focus of the state
    /// are to be intercepted, then each event has its answer.
    pub fn run(&mut self, events: Vec<Event<K, M, A>>) -> (commands: Vec<Command<K, M, C>>)
        requires
            state_laws::<A, K, M, C>(),
        ensures
            final(self).key_bind_for_focus() == old(self).key_bind_for_focus(),
            final(self).possible_keyinput_finder() == old(self).possible_keyinput_finder(),
            final(self).focus_spec() == Self::focus_after_all(
                old(self).focus_spec(),
                events.deep_view(),
            ),
            commands.deep_view() == seq![
                CommandView::<K, M, C>::GrabKeys {
                    key_inputs: old(self).possible_keyinput_finder().found(old(self).focus_spec()),
                },
            ] + old(self).reactions(old(self).focus_spec(), events.deep_view()),
    {
        let ghost before = *self;
        let ghost all = events.deep_view();
        let mut commands = self.start();
        let ghost first = commands.deep_view();
        let mut rest = events;
        assert(first + Seq::empty() =~= first);
        while rest.len() > 0
            invariant
                state_laws::<A, K, M, C>(),
                self.key_bind_for_focus() == before.key_bind_for_focus(),
                self.possible_keyinput_finder() == before.possible_keyinput_finder(),
                Self::focus_after_all(self.focus_spec(), rest.deep_view())
                    == Self::focus_after_all(before.focus_spec(), all),
                first + before.reactions(before.focus_spec(), all) == commands.deep_view()
                    + self.reactions(self.focus_spec(), rest.deep_view()),
            decreases rest.len(),
        {
            let ghost pending = rest.deep_view();
            let ghost done = commands.deep_view();
            let ghost focus = self.focus_spec();
            let ghost was = *self;
            let event = rest.remove(0);
            let mut answer = self.handle(event);
            let ghost answered = answer.deep_view();
            commands.append(&mut answer);
            proof {
                let next = self.focus_spec();
                let later = pending.drop_first();
                assert(rest.deep_view() =~= later);
                assert(pending[0] == event@);
                assert(commands.deep_view() =~= done + answered);
                Self::lemma_reactions_go_by_rules_and_finder(was, before, focus, pending);
                Self::lemma_reactions_go_by_rules_and_finder(*self, before, next, later);
                assert(before.reaction(focus, pending[0]) == answered);
                assert(before.reactions(focus, pending) == answered + before.reactions(
                    next,
                    later,
                ));
                assert(done + (answered + self.reactions(next, later)) =~= (done + answered)
                    + self.reactions(next, later));
            }
        }
        assert(rest.deep_view() =~= Seq::empty());
        assert(commands.deep_view() + Seq::empty() =~= commands.deep_view());
        commands
    }

    /// What two states answer is the same where they have the same rules and
    /// the same finder.
    proof fn lemma_reactions_go_by_rules_and_finder(
        one: Self,
        other: Self,
        focus: Option<A>,
        events: Seq<EventView<K, M, A>>,
    )
        requires
            one.key_bind_for_focus() == other.key_bind_for_focus(),
            one.possible_keyinput_finder() == other.possible_keyinput_finder(),
        ensures
            one.reactions(focus, events) == other.reactions(focus, events),
        decreases events.len(),
    {
        if events.len() > 0 {
            Self::lemma_reactions_go_by_rules_and_finder(
                one,
                other,
                Self::focus_after(focus, events[0]),
                events.drop_first(),
            );
        }
    }
}

} // verus!
