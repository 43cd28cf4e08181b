//! Cooperative dispatch core for deferred work items.
//!
//! Work items ("steps") are posted onto bounded FIFO queues and drained by a
//! cooperative dispatcher that also drives a small state-machine protocol:
//! `Notify` steps run the transition function, `Perform` steps invoke the
//! application's command handler, and `Stop` ends the drain and hands the
//! final state back to the caller.

mod queue;
mod state_machine;
mod step;

pub use queue::AsyncQueue;
pub use queue::AsyncQueues;
pub use state_machine::Command;
pub use state_machine::CommandHandler;
pub use state_machine::Event;
pub use state_machine::EventNotifier;
pub use state_machine::State;
pub use state_machine::Transition;
pub use state_machine::apply_transition_spec;
pub use state_machine::spec_transition;
pub use state_machine::transition;
pub use step::AsyncStep;
pub use step::apply_transition;
pub use step::dispatch_queue_effect;
pub use step::Run2U32;
pub use step::RunOutcome;
pub use step::RunU32;
pub use step::RunUnit;
pub use step::collect_dequeues;
pub use step::first_stop;
pub use step::fold_steps;
pub use step::has_stop;
pub use step::lemma_causality;
pub use step::lemma_fold_steps_concat;
pub use step::lemma_exactly_once;
pub use step::lemma_fifo;
pub use step::quiet;
pub use step::reachable_state;
pub use step::remaining_dequeues;
pub use step::spawns_no_work;
pub use step::step_state;
