//! The state-machine protocol: the `State` / `Command` / `Event` vocabulary,
//! the pure transition function, and the collaborator capabilities through
//! which command execution feeds events back into a queue.
//!
//! The vocabulary here is the placeholder supplied with the core: the concrete
//! states, commands and events belong to the embedding application, and the
//! shipped transition function is the do-nothing stub.

use vstd::prelude::*;

use crate::step::AsyncStep;

verus! {

/// The dispatcher's current mode. Exactly one live value exists per running
/// drain loop, owned by that loop and changed only through [`transition`].
#[derive(Clone, Copy, PartialEq, Eq, Structural, Debug)]
pub enum State {
    Standby,
    Active,
}

/// A domain action for the application's [`CommandHandler`] to execute.
#[derive(Clone, Copy, PartialEq, Eq, Structural, Debug)]
pub enum Command {
    Act,
}

/// An occurrence reported to the state machine through a `Notify` step.
#[derive(Clone, Copy, PartialEq, Eq, Structural, Debug)]
pub enum Event {
    Ping,
}

/// The state half of a transition's outcome: move to a new state, or stay.
#[derive(Clone, Copy, PartialEq, Eq, Structural, Debug)]
pub enum Transition {
    Next(State),
    Same,
}

/// What [`transition`] returns for each input pair: the shipped transition
/// table is the do-nothing stub, which commands nothing and keeps the state.
pub open spec fn spec_transition(s: State, e: Event) -> (Option<Command>, Transition) {
    (None, Transition::Same)
}

/// The state that applying a [`Transition`] to `s` leaves behind.
pub open spec fn apply_transition_spec(s: State, t: Transition) -> State {
    match t {
        Transition::Next(n) => n,
        Transition::Same => s,
    }
}

/// The pure transition function: an optional command to perform and the state
/// to move to. Its result depends on its two inputs alone, so two calls on the
/// same pair return the same outcome and leave both inputs untouched.
pub fn transition(s: &State, e: &Event) -> (r: (Option<Command>, Transition))
    ensures
        r == spec_transition(*s, *e),
{
    (None, Transition::Same)
}

/// The capability to post an event as deferred work. A queue implements it
/// directly, so any holder of a queue reference can report events without
/// naming a concrete producer type. Posting appends to the tail — it never
/// reorders what is already queued — and a full queue drops the event.
pub trait EventNotifier {
    /// The steps queued behind this capability, oldest first.
    spec fn queued(&self) -> Seq<AsyncStep>;

    /// Posts `event` as a `Notify` step at the tail, or drops it when no
    /// capacity remains.
    fn notify(&mut self, event: Event)
        ensures
            final(self).queued() == old(self).queued().push(AsyncStep::Notify { event })
                || final(self).queued() == old(self).queued(),
    ;
}

/// The application collaborator that executes commands. While handling a
/// command it may post new events through the notifier it is handed; it can
/// only append `Notify` steps at the tail of what is queued — the notifier
/// capability offers nothing else — never remove or reorder steps already
/// waiting.
pub trait CommandHandler {
    /// The commands this handler has executed, oldest first. The default
    /// history is empty; an implementation proved against `handle`'s
    /// contract supplies its own record in place of it.
    open spec fn handled(&self) -> Seq<Command> {
        Seq::empty()
    }

    /// Executes `command`, recording it as handled and posting any resulting
    /// events through `notifier`. Domain failures are the handler's own
    /// affair: nothing is returned.
    fn handle<N: EventNotifier>(&mut self, command: &Command, notifier: &mut N)
        ensures
            final(self).handled() == old(self).handled().push(*command),
            old(notifier).queued().is_prefix_of(final(notifier).queued()),
            forall|i: int|
                old(notifier).queued().len() <= i < final(notifier).queued().len()
                    ==> final(notifier).queued()[i] is Notify,
    ;
}

} // verus!
