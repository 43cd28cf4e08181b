//! Bounded FIFO queues of steps.
//!
//! An [`AsyncQueue`] stores up to 64 steps in first-in, first-out order. The
//! storage is the lock-free multi-producer queue of the `heapless` crate, kept
//! behind a small trusted layer; everything above that layer is verified
//! against the sequential view of its contents. The lock-freedom of the
//! underlying structure matters only to concurrent embedders and is not part
//! of the verified model, which speaks of exclusive access.

use vstd::prelude::*;

use crate::state_machine::Event;
use crate::state_machine::EventNotifier;
use crate::step::AsyncStep;

verus! {

/// The `heapless` queue behind [`AsyncQueue`]. Verus cannot take the crate's
/// own type in a declaration (its storage parameter carries a sealed trait
/// bound), so the collection sits in a private field of this opaque holder and
/// is reached only through the trusted wrappers below.
#[verifier::external_body]
pub struct StepStore {
    inner: heapless::mpmc::Queue<AsyncStep, 64>,
}

/// The steps the held `heapless` queue stores, oldest first.
pub uninterp spec fn store_contents(q: StepStore) -> Seq<AsyncStep>;

/// Relies on `heapless::mpmc::Queue::new`: a freshly built queue holds
/// nothing.
#[verifier::external_body]
#[allow(deprecated)]
fn store_new() -> (q: StepStore)
    ensures
        store_contents(q) == Seq::<AsyncStep>::empty(),
{
    StepStore { inner: heapless::mpmc::Queue::new() }
}

/// Relies on `heapless::mpmc::Queue::enqueue`: under exclusive access it
/// stores the item at the tail when fewer than 64 items are held, and returns
/// the item back (here dropped, reporting `false`) when all 64 slots are
/// taken.
#[verifier::external_body]
fn store_enqueue(q: &mut StepStore, step: AsyncStep) -> (ok: bool)
    ensures
        store_contents(*old(q)).len() < 64 ==> ok && store_contents(*final(q)) == store_contents(
            *old(q),
        ).push(step),
        store_contents(*old(q)).len() >= 64 ==> !ok && store_contents(*final(q)) == store_contents(
            *old(q),
        ),
{
    q.inner.enqueue(step).is_ok()
}

/// Relies on `heapless::mpmc::Queue::dequeue`: under exclusive access it
/// removes and returns the oldest item, or returns nothing when the queue is
/// empty.
#[verifier::external_body]
fn store_dequeue(q: &mut StepStore) -> (r: Option<AsyncStep>)
    ensures
        store_contents(*old(q)).len() == 0 ==> r is None && store_contents(*final(q))
            == store_contents(*old(q)),
        store_contents(*old(q)).len() > 0 ==> r == Some(store_contents(*old(q))[0])
            && store_contents(*final(q)) == store_contents(*old(q)).drop_first(),
{
    q.inner.dequeue()
}

/// A bounded FIFO queue of steps with a fixed capacity of 64. Enqueuing never
/// blocks: a full queue drops the offered step and reports failure. Dequeuing
/// never blocks: an empty queue reports nothing to do.
pub struct AsyncQueue {
    store: StepStore,
}

impl View for AsyncQueue {
    type V = Seq<AsyncStep>;

    closed spec fn view(&self) -> Seq<AsyncStep> {
        store_contents(self.store)
    }
}

impl AsyncQueue {
    /// Builds an empty queue.
    pub fn new() -> (q: AsyncQueue)
        ensures
            q@ == Seq::<AsyncStep>::empty(),
    {
        AsyncQueue { store: store_new() }
    }

    /// Stores `step` at the tail when capacity remains; otherwise drops it
    /// and reports failure. Success is owed exactly when fewer than 64 steps
    /// are held.
    pub fn enqueue(&mut self, step: AsyncStep) -> (ok: bool)
        ensures
            old(self)@.len() < 64 ==> ok && final(self)@ == old(self)@.push(step),
            old(self)@.len() >= 64 ==> !ok && final(self)@ == old(self)@,
    {
        store_enqueue(&mut self.store, step)
    }

    /// Removes and returns the oldest step, or reports an empty queue.
    pub fn dequeue(&mut self) -> (r: Option<AsyncStep>)
        ensures
            old(self)@.len() == 0 ==> r is None && final(self)@ == old(self)@,
            old(self)@.len() > 0 ==> r == Some(old(self)@[0])
                && final(self)@ == old(self)@.drop_first(),
    {
        store_dequeue(&mut self.store)
    }
}

impl EventNotifier for AsyncQueue {
    open spec fn queued(&self) -> Seq<AsyncStep> {
        self@
    }

    /// Posting an event builds a `Notify` step and enqueues it here, at the
    /// tail; a full queue drops the event.
    fn notify(&mut self, event: Event)
        ensures
            old(self)@.len() < 64 ==> final(self)@ == old(self)@.push(
                AsyncStep::Notify { event },
            ),
            old(self)@.len() >= 64 ==> final(self)@ == old(self)@,
    {
        let _ = self.enqueue(AsyncStep::Notify { event });
    }
}

/// The pair of process-wide queues of the two-level scheduler: steps on the
/// priority queue are served strictly before steps on the default queue. The
/// embedder owns one value of this for the lifetime of its dispatch loop.
pub struct AsyncQueues {
    /// Served first at every scheduling decision.
    pub priority_queue: AsyncQueue,
    /// Served only when the priority queue is empty.
    pub default_queue: AsyncQueue,
}

impl AsyncQueues {
    /// Builds the pair, both queues empty.
    pub fn new() -> (qs: AsyncQueues)
        ensures
            qs.priority_queue@ == Seq::<AsyncStep>::empty(),
            qs.default_queue@ == Seq::<AsyncStep>::empty(),
    {
        AsyncQueues { priority_queue: AsyncQueue::new(), default_queue: AsyncQueue::new() }
    }
}

} // verus!
