use std::cell::RefCell;
use std::rc::Rc;

use async_steps::AsyncQueue;
use async_steps::AsyncQueues;
use async_steps::AsyncStep;
use async_steps::Event;
use async_steps::EventNotifier;
use async_steps::RunU32;

struct MarkU32 {
    log: Rc<RefCell<Vec<u32>>>,
}

impl RunU32 for MarkU32 {
    fn run(&mut self, arg: u32) {
        self.log.borrow_mut().push(arg);
    }
}

fn tagged(log: &Rc<RefCell<Vec<u32>>>, arg: u32) -> AsyncStep {
    AsyncStep::StepU32 { run: Box::new(MarkU32 { log: log.clone() }), arg }
}

fn arg_of(step: AsyncStep) -> u32 {
    match step {
        AsyncStep::StepU32 { arg, .. } => arg,
        _ => panic!("expected a StepU32"),
    }
}

#[test]
fn fifo_dequeue_order_equals_enqueue_order() {
    let log: Rc<RefCell<Vec<u32>>> = Rc::new(RefCell::new(Vec::new()));
    let mut q = AsyncQueue::new();
    for i in 0..5u32 {
        assert!(q.enqueue(tagged(&log, i)));
    }
    for i in 0..5u32 {
        let step = q.dequeue().expect("queue should still hold a step");
        assert_eq!(arg_of(step), i);
    }
    assert!(q.dequeue().is_none());
}

#[test]
fn dequeue_on_empty_returns_none() {
    let mut q = AsyncQueue::new();
    assert!(q.dequeue().is_none());
}

#[test]
fn overflow_sixty_five_enqueues_one_failure_sixty_four_retrievable() {
    let log: Rc<RefCell<Vec<u32>>> = Rc::new(RefCell::new(Vec::new()));
    let mut q = AsyncQueue::new();
    let mut failures = 0;
    for i in 0..65u32 {
        if !q.enqueue(tagged(&log, i)) {
            failures += 1;
            assert_eq!(i, 64, "only the sixty-fifth enqueue may fail");
        }
    }
    assert_eq!(failures, 1);
    let mut retrieved = 0;
    while let Some(step) = q.dequeue() {
        assert_eq!(arg_of(step), retrieved);
        retrieved += 1;
    }
    assert_eq!(retrieved, 64);
}

#[test]
fn notify_appends_a_notify_step_at_the_tail() {
    let log: Rc<RefCell<Vec<u32>>> = Rc::new(RefCell::new(Vec::new()));
    let mut q = AsyncQueue::new();
    assert!(q.enqueue(tagged(&log, 7)));
    q.notify(Event::Ping);
    assert_eq!(arg_of(q.dequeue().expect("first step")), 7);
    assert!(matches!(q.dequeue(), Some(AsyncStep::Notify { event: Event::Ping })));
    assert!(q.dequeue().is_none());
}

#[test]
fn enqueue_default_and_priority_go_to_their_own_queues() {
    let log: Rc<RefCell<Vec<u32>>> = Rc::new(RefCell::new(Vec::new()));
    let mut queues = AsyncQueues::new();
    assert!(tagged(&log, 1).enqueue_default(&mut queues));
    assert!(tagged(&log, 2).enqueue_priority(&mut queues));
    assert_eq!(arg_of(queues.priority_queue.dequeue().expect("priority step")), 2);
    assert!(queues.priority_queue.dequeue().is_none());
    assert_eq!(arg_of(queues.default_queue.dequeue().expect("default step")), 1);
    assert!(queues.default_queue.dequeue().is_none());
}
