use std::cell::RefCell;
use std::rc::Rc;

use async_steps::AsyncQueue;
use async_steps::AsyncQueues;
use async_steps::AsyncStep;
use async_steps::Command;
use async_steps::CommandHandler;
use async_steps::Event;
use async_steps::EventNotifier;
use async_steps::RunOutcome;
use async_steps::RunUnit;
use async_steps::State;
use async_steps::Transition;
use async_steps::apply_transition;
use async_steps::transition;

#[derive(Clone, Copy, PartialEq, Debug)]
enum Happened {
    Ran(u32),
    Handled,
}

struct Mark {
    log: Rc<RefCell<Vec<Happened>>>,
    tag: u32,
}

impl RunUnit for Mark {
    fn run(&mut self) {
        self.log.borrow_mut().push(Happened::Ran(self.tag));
    }
}

fn unit_step(log: &Rc<RefCell<Vec<Happened>>>, tag: u32) -> AsyncStep {
    AsyncStep::StepUnit { run: Box::new(Mark { log: log.clone(), tag }) }
}

/// Records every command it executes and posts no event.
struct RecordingHandler {
    log: Rc<RefCell<Vec<Happened>>>,
}

impl CommandHandler for RecordingHandler {
    fn handle<N: EventNotifier>(&mut self, command: &Command, _notifier: &mut N) {
        let Command::Act = command;
        self.log.borrow_mut().push(Happened::Handled);
    }
}

/// Posts one event for every command it executes.
struct NotifyingHandler;

impl CommandHandler for NotifyingHandler {
    fn handle<N: EventNotifier>(&mut self, _command: &Command, notifier: &mut N) {
        notifier.notify(Event::Ping);
    }
}

struct MarkArgs {
    log: Rc<RefCell<Vec<Happened>>>,
}

impl async_steps::RunU32 for MarkArgs {
    fn run(&mut self, arg: u32) {
        self.log.borrow_mut().push(Happened::Ran(arg));
    }
}

impl async_steps::Run2U32 for MarkArgs {
    fn run(&mut self, arg0: u32, arg1: u32) {
        self.log.borrow_mut().push(Happened::Ran(arg0));
        self.log.borrow_mut().push(Happened::Ran(arg1));
    }
}

#[test]
fn raw_steps_invoke_their_callback_with_the_carried_arguments() {
    let log: Rc<RefCell<Vec<Happened>>> = Rc::new(RefCell::new(Vec::new()));
    let mut q = AsyncQueue::new();
    let mut handler = RecordingHandler { log: log.clone() };
    assert!(q.enqueue(AsyncStep::StepU32 {
        run: Box::new(MarkArgs { log: log.clone() }),
        arg: 41,
    }));
    assert!(q.enqueue(AsyncStep::Step2U32 {
        run: Box::new(MarkArgs { log: log.clone() }),
        arg0: 42,
        arg1: 43,
    }));
    let outcome = AsyncStep::run_queue(&mut q, State::Standby, &mut handler, 100);
    assert_eq!(outcome, RunOutcome::Idle(State::Standby));
    assert_eq!(
        *log.borrow(),
        vec![Happened::Ran(41), Happened::Ran(42), Happened::Ran(43)],
    );
}

#[test]
fn transition_is_pure_and_is_the_stub() {
    let first = transition(&State::Standby, &Event::Ping);
    let second = transition(&State::Standby, &Event::Ping);
    assert_eq!(first, (None, Transition::Same));
    assert_eq!(first, second);
    let third = transition(&State::Active, &Event::Ping);
    assert_eq!(third, (None, Transition::Same));
}

#[test]
fn stop_semantics_later_steps_never_run() {
    let log: Rc<RefCell<Vec<Happened>>> = Rc::new(RefCell::new(Vec::new()));
    let mut q = AsyncQueue::new();
    let mut handler = RecordingHandler { log: log.clone() };
    assert!(q.enqueue(AsyncStep::Notify { event: Event::Ping }));
    assert!(q.enqueue(AsyncStep::Stop));
    assert!(q.enqueue(unit_step(&log, 9)));
    let outcome = AsyncStep::run_queue(&mut q, State::Standby, &mut handler, 100);
    assert_eq!(outcome, RunOutcome::Stopped(State::Standby));
    assert!(log.borrow().is_empty(), "the step behind Stop must never run");
    assert!(matches!(q.dequeue(), Some(AsyncStep::StepUnit { .. })));
    assert!(q.dequeue().is_none());
}

#[test]
fn exactly_once_each_step_runs_once_and_never_again() {
    let log: Rc<RefCell<Vec<Happened>>> = Rc::new(RefCell::new(Vec::new()));
    let mut q = AsyncQueue::new();
    let mut handler = RecordingHandler { log: log.clone() };
    assert!(q.enqueue(unit_step(&log, 1)));
    assert!(q.enqueue(unit_step(&log, 2)));
    let outcome = AsyncStep::run_queue(&mut q, State::Standby, &mut handler, 100);
    assert_eq!(outcome, RunOutcome::Idle(State::Standby));
    assert_eq!(*log.borrow(), vec![Happened::Ran(1), Happened::Ran(2)]);
    let again = AsyncStep::run_queue(&mut q, State::Standby, &mut handler, 100);
    assert_eq!(again, RunOutcome::Idle(State::Standby));
    assert_eq!(*log.borrow(), vec![Happened::Ran(1), Happened::Ran(2)]);
}

#[test]
fn budget_exhaustion_leaves_the_rest_queued() {
    let log: Rc<RefCell<Vec<Happened>>> = Rc::new(RefCell::new(Vec::new()));
    let mut q = AsyncQueue::new();
    let mut handler = RecordingHandler { log: log.clone() };
    assert!(q.enqueue(unit_step(&log, 1)));
    assert!(q.enqueue(unit_step(&log, 2)));
    let outcome = AsyncStep::run_queue(&mut q, State::Standby, &mut handler, 1);
    assert_eq!(outcome, RunOutcome::Exhausted(State::Standby));
    assert_eq!(*log.borrow(), vec![Happened::Ran(1)]);
    assert!(matches!(q.dequeue(), Some(AsyncStep::StepUnit { .. })));
    assert!(q.dequeue().is_none());
}

#[test]
fn causality_commanded_perform_joins_the_tail_and_runs_last() {
    let log: Rc<RefCell<Vec<Happened>>> = Rc::new(RefCell::new(Vec::new()));
    let mut q = AsyncQueue::new();
    let mut state = State::Standby;
    assert!(q.enqueue(unit_step(&log, 5)));
    apply_transition((Some(Command::Act), Transition::Same), &mut q, &mut state);
    assert_eq!(state, State::Standby);
    let mut handler = RecordingHandler { log: log.clone() };
    let outcome = AsyncStep::run_queue(&mut q, state, &mut handler, 100);
    assert_eq!(outcome, RunOutcome::Idle(State::Standby));
    assert_eq!(*log.borrow(), vec![Happened::Ran(5), Happened::Handled]);
}

#[test]
fn apply_transition_moves_the_state_and_queues_nothing_without_a_command() {
    let mut q = AsyncQueue::new();
    let mut state = State::Standby;
    apply_transition((None, Transition::Next(State::Active)), &mut q, &mut state);
    assert_eq!(state, State::Active);
    assert!(q.dequeue().is_none());
}

#[test]
fn handler_events_posted_during_perform_land_behind_everything_queued() {
    let log: Rc<RefCell<Vec<Happened>>> = Rc::new(RefCell::new(Vec::new()));
    let mut q = AsyncQueue::new();
    let mut handler = NotifyingHandler;
    assert!(q.enqueue(AsyncStep::Perform { command: Command::Act }));
    assert!(q.enqueue(AsyncStep::Stop));
    assert!(q.enqueue(unit_step(&log, 3)));
    let outcome = AsyncStep::run_queue(&mut q, State::Standby, &mut handler, 100);
    assert_eq!(outcome, RunOutcome::Stopped(State::Standby));
    assert!(matches!(q.dequeue(), Some(AsyncStep::StepUnit { .. })));
    assert!(matches!(q.dequeue(), Some(AsyncStep::Notify { event: Event::Ping })));
    assert!(q.dequeue().is_none());
}

#[test]
fn priority_queue_is_served_before_the_default_queue() {
    let log: Rc<RefCell<Vec<Happened>>> = Rc::new(RefCell::new(Vec::new()));
    let mut hi = AsyncQueue::new();
    let mut lo = AsyncQueue::new();
    let mut handler = RecordingHandler { log: log.clone() };
    assert!(lo.enqueue(unit_step(&log, 20)));
    assert!(hi.enqueue(unit_step(&log, 10)));
    assert!(hi.enqueue(unit_step(&log, 11)));
    let outcome = AsyncStep::run_queue_hilo(&mut hi, &mut lo, State::Standby, &mut handler, 100);
    assert_eq!(outcome, RunOutcome::Idle(State::Standby));
    assert_eq!(
        *log.borrow(),
        vec![Happened::Ran(10), Happened::Ran(11), Happened::Ran(20)],
    );
}

#[test]
fn stop_on_the_priority_queue_leaves_the_default_queue_untouched() {
    let log: Rc<RefCell<Vec<Happened>>> = Rc::new(RefCell::new(Vec::new()));
    let mut hi = AsyncQueue::new();
    let mut lo = AsyncQueue::new();
    let mut handler = RecordingHandler { log: log.clone() };
    assert!(hi.enqueue(unit_step(&log, 1)));
    assert!(hi.enqueue(AsyncStep::Stop));
    assert!(lo.enqueue(unit_step(&log, 2)));
    let outcome = AsyncStep::run_queue_hilo(&mut hi, &mut lo, State::Standby, &mut handler, 100);
    assert_eq!(outcome, RunOutcome::Stopped(State::Standby));
    assert_eq!(*log.borrow(), vec![Happened::Ran(1)]);
    assert!(matches!(lo.dequeue(), Some(AsyncStep::StepUnit { .. })));
}

#[test]
fn scheduling_decision_takes_the_priority_head_when_both_queues_hold_work() {
    let log: Rc<RefCell<Vec<Happened>>> = Rc::new(RefCell::new(Vec::new()));
    let mut hi = AsyncQueue::new();
    let mut lo = AsyncQueue::new();
    assert!(hi.enqueue(unit_step(&log, 1)));
    assert!(lo.enqueue(unit_step(&log, 2)));
    let first = AsyncStep::next_step(&mut hi, &mut lo).expect("a step is pending");
    assert!(first.0, "the step must come from the priority queue");
    let second = AsyncStep::next_step(&mut hi, &mut lo).expect("a step is pending");
    assert!(!second.0, "only an empty priority queue yields the default head");
    assert!(AsyncStep::next_step(&mut hi, &mut lo).is_none());
}

#[test]
fn zero_budget_dispatches_nothing_and_reports_exhausted() {
    let log: Rc<RefCell<Vec<Happened>>> = Rc::new(RefCell::new(Vec::new()));
    let mut q = AsyncQueue::new();
    let mut handler = RecordingHandler { log: log.clone() };
    assert!(q.enqueue(unit_step(&log, 8)));
    let outcome = AsyncStep::run_queue(&mut q, State::Standby, &mut handler, 0);
    assert_eq!(outcome, RunOutcome::Exhausted(State::Standby));
    assert!(log.borrow().is_empty());
    assert!(matches!(q.dequeue(), Some(AsyncStep::StepUnit { .. })));
    assert!(q.dequeue().is_none());
}

#[test]
fn default_queue_stop_holds_even_when_the_handler_feeds_events_back() {
    let log: Rc<RefCell<Vec<Happened>>> = Rc::new(RefCell::new(Vec::new()));
    let mut hi = AsyncQueue::new();
    let mut lo = AsyncQueue::new();
    let mut handler = NotifyingHandler;
    assert!(lo.enqueue(AsyncStep::Perform { command: Command::Act }));
    assert!(lo.enqueue(AsyncStep::Stop));
    assert!(lo.enqueue(unit_step(&log, 4)));
    let outcome = AsyncStep::run_queue_hilo(&mut hi, &mut lo, State::Standby, &mut handler, 100);
    assert_eq!(outcome, RunOutcome::Stopped(State::Standby));
    assert!(log.borrow().is_empty(), "the step behind Stop must never run");
    assert!(hi.dequeue().is_none());
    assert!(matches!(lo.dequeue(), Some(AsyncStep::StepUnit { .. })));
    assert!(matches!(lo.dequeue(), Some(AsyncStep::Notify { event: Event::Ping })));
    assert!(lo.dequeue().is_none());
}

#[test]
fn run_default_queues_drains_the_pair_by_priority() {
    let log: Rc<RefCell<Vec<Happened>>> = Rc::new(RefCell::new(Vec::new()));
    let mut queues = AsyncQueues::new();
    let mut handler = RecordingHandler { log: log.clone() };
    assert!(unit_step(&log, 2).enqueue_default(&mut queues));
    assert!(unit_step(&log, 1).enqueue_priority(&mut queues));
    let outcome = AsyncStep::run_default_queues(&mut queues, State::Standby, &mut handler, 100);
    assert_eq!(outcome, RunOutcome::Idle(State::Standby));
    assert_eq!(*log.borrow(), vec![Happened::Ran(1), Happened::Ran(2)]);
}

#[test]
fn end_to_end_notify_then_unit_then_commanded_perform() {
    let log: Rc<RefCell<Vec<Happened>>> = Rc::new(RefCell::new(Vec::new()));
    let mut q = AsyncQueue::new();
    let mut state = State::Standby;
    let mut handler = RecordingHandler { log: log.clone() };
    assert!(q.enqueue(AsyncStep::Notify { event: Event::Ping }));
    assert!(q.enqueue(unit_step(&log, 6)));
    let keep_going = q
        .dequeue()
        .expect("the Notify step")
        .dispatch(&mut q, &mut state, &mut handler);
    assert!(keep_going);
    assert_eq!(state, State::Standby);
    apply_transition((Some(Command::Act), Transition::Same), &mut q, &mut state);
    let outcome = AsyncStep::run_queue(&mut q, state, &mut handler, 100);
    assert_eq!(outcome, RunOutcome::Idle(State::Standby));
    assert_eq!(*log.borrow(), vec![Happened::Ran(6), Happened::Handled]);
}
