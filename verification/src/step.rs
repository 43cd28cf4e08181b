//! Deferred work items and the model of draining them.
//!
//! An [`AsyncStep`] is one unit of deferred work, moved into a queue and
//! consumed exactly once when dispatched. The spec functions here model what a
//! drain pass does to the dispatcher's state and when it stops.

use vstd::prelude::*;

use crate::queue::AsyncQueue;
use crate::queue::AsyncQueues;
use crate::state_machine::Command;
use crate::state_machine::CommandHandler;
use crate::state_machine::Event;
use crate::state_machine::State;
use crate::state_machine::Transition;
use crate::state_machine::apply_transition_spec;
use crate::state_machine::spec_transition;
use crate::state_machine::transition;

verus! {

/// A deferred callback taking no argument, supplied by the application.
/// The raw step variants carry boxed callables rather than bare function
/// pointers; this trades the strict no-allocation guarantee for a hosted
/// setting, and lets a callback capture its own state.
pub trait RunUnit {
    /// How many times this callback has run. The default history counts
    /// nothing; an implementation proved against `run`'s contract supplies
    /// its own count in place of it.
    open spec fn invocations(&self) -> nat {
        0
    }

    fn run(&mut self)
        ensures
            final(self).invocations() == old(self).invocations() + 1,
    ;
}

/// A deferred callback taking one fixed-width argument.
pub trait RunU32 {
    /// The arguments this callback has been run with, oldest first. The
    /// default history records nothing; an implementation proved against
    /// `run`'s contract supplies its own record in place of it.
    open spec fn invocations(&self) -> Seq<u32> {
        Seq::empty()
    }

    fn run(&mut self, arg: u32)
        ensures
            final(self).invocations() == old(self).invocations().push(arg),
    ;
}

/// A deferred callback taking two fixed-width arguments.
pub trait Run2U32 {
    /// The argument pairs this callback has been run with, oldest first. The
    /// default history records nothing; an implementation proved against
    /// `run`'s contract supplies its own record in place of it.
    open spec fn invocations(&self) -> Seq<(u32, u32)> {
        Seq::empty()
    }

    fn run(&mut self, arg0: u32, arg1: u32)
        ensures
            final(self).invocations() == old(self).invocations().push((arg0, arg1)),
    ;
}

fn invoke_unit(cb: &mut Box<dyn RunUnit>)
    ensures
        final(cb).invocations() == old(cb).invocations() + 1,
{
    cb.run()
}

fn invoke_u32(cb: &mut Box<dyn RunU32>, arg: u32)
    ensures
        final(cb).invocations() == old(cb).invocations().push(arg),
{
    cb.run(arg)
}

fn invoke_2u32(cb: &mut Box<dyn Run2U32>, arg0: u32, arg1: u32)
    ensures
        final(cb).invocations() == old(cb).invocations().push((arg0, arg1)),
{
    cb.run(arg0, arg1)
}

/// One unit of deferred work. The raw forms carry an application callback and
/// its fixed-width arguments; the high-level forms drive the state-machine
/// protocol; `Stop` ends the drain loop that dequeues it.
pub enum AsyncStep {
    /// Run a callback with no argument.
    StepUnit { run: Box<dyn RunUnit> },
    /// Run a callback with one `u32` argument.
    StepU32 { run: Box<dyn RunU32>, arg: u32 },
    /// Run a callback with two `u32` arguments.
    Step2U32 { run: Box<dyn Run2U32>, arg0: u32, arg1: u32 },
    /// Execute a command through the application's handler.
    Perform { command: Command },
    /// Feed an event to the state machine.
    Notify { event: Event },
    /// End the drain loop, returning the current state to its caller.
    Stop,
}

/// What one drain pass ended with, each carrying the state the dispatcher
/// reached: `Stopped` when a `Stop` step was dispatched, `Idle` when every
/// queue ran dry and the caller should wait for producers before draining
/// again, and `Exhausted` when the pass's step budget ran out first.
#[derive(Clone, Copy, PartialEq, Eq, Structural, Debug)]
pub enum RunOutcome {
    Stopped(State),
    Idle(State),
    Exhausted(State),
}

/// The dispatcher's state after dispatching one step from state `s`: a
/// `Notify` applies the transition for its event, every other step leaves the
/// state alone.
pub open spec fn step_state(s: State, step: AsyncStep) -> State {
    match step {
        AsyncStep::Notify { event } => apply_transition_spec(s, spec_transition(s, event).1),
        _ => s,
    }
}

/// The dispatcher's state after dispatching `steps` in order from state `s`.
pub open spec fn fold_steps(s: State, steps: Seq<AsyncStep>) -> State
    decreases steps.len(),
{
    if steps.len() == 0 {
        s
    } else {
        fold_steps(step_state(s, steps[0]), steps.drop_first())
    }
}

/// Whether some step of `steps` is `Stop`.
pub open spec fn has_stop(steps: Seq<AsyncStep>) -> bool
    decreases steps.len(),
{
    steps.len() > 0 && (steps[0] is Stop || has_stop(steps.drop_first()))
}

/// The index of the first `Stop` among `steps` (their length when none is).
pub open spec fn first_stop(steps: Seq<AsyncStep>) -> int
    decreases steps.len(),
{
    if steps.len() == 0 {
        0
    } else if steps[0] is Stop {
        0
    } else {
        1 + first_stop(steps.drop_first())
    }
}

/// How dispatching one step relates a queue's contents `before` the step to
/// its contents `after`. A `Perform` hands the queue to the application's
/// handler, which may append events at the tail but removes and reorders
/// nothing. A `Notify` whose transition commands `c` appends `Perform(c)` at
/// the tail — behind everything already queued — or drops it when the queue
/// is full. Every other step leaves the queue as it was.
pub open spec fn dispatch_queue_effect(
    step: AsyncStep,
    s: State,
    before: Seq<AsyncStep>,
    after: Seq<AsyncStep>,
) -> bool {
    match step {
        AsyncStep::Perform { .. } => before.is_prefix_of(after) && (forall|i: int|
            before.len() <= i < after.len() ==> after[i] is Notify),
        AsyncStep::Notify { event } => match spec_transition(s, event).0 {
            Some(c) => {
                if before.len() < 64 {
                    after == before.push(AsyncStep::Perform { command: c })
                } else {
                    after == before
                }
            },
            None => after == before,
        },
        _ => after == before,
    }
}

/// Applies a transition's outcome: moves `state` as the outcome directs, and
/// when the outcome carries a command, appends a `Perform` step for it at the
/// tail of `queue` — the same queue the originating event came from — where a
/// full queue drops it.
pub fn apply_transition(
    outcome: (Option<Command>, Transition),
    queue: &mut AsyncQueue,
    state: &mut State,
)
    ensures
        *final(state) == apply_transition_spec(*old(state), outcome.1),
        match outcome.0 {
            Some(c) => {
                if old(queue)@.len() < 64 {
                    final(queue)@ == old(queue)@.push(AsyncStep::Perform { command: c })
                } else {
                    final(queue)@ == old(queue)@
                }
            },
            None => final(queue)@ == old(queue)@,
        },
{
    let (o, t) = outcome;
    match t {
        Transition::Next(s) => {
            *state = s;
        },
        Transition::Same => {},
    }
    if let Some(c) = o {
        let _ = (AsyncStep::Perform { command: c }).enqueue(queue);
    }
}

impl AsyncStep {
    /// Moves this step onto `queue`, at the tail. A full queue drops the step
    /// and reports failure; success is owed exactly when capacity remains.
    pub fn enqueue(self, queue: &mut AsyncQueue) -> (ok: bool)
        ensures
            old(queue)@.len() < 64 ==> ok && final(queue)@ == old(queue)@.push(self),
            old(queue)@.len() >= 64 ==> !ok && final(queue)@ == old(queue)@,
    {
        queue.enqueue(self)
    }

    /// Moves this step onto the default queue of the pair; the priority queue
    /// is untouched.
    pub fn enqueue_default(self, queues: &mut AsyncQueues) -> (ok: bool)
        ensures
            old(queues).default_queue@.len() < 64 ==> ok && final(queues).default_queue@ == old(
                queues,
            ).default_queue@.push(self),
            old(queues).default_queue@.len() >= 64 ==> !ok && final(queues).default_queue@ == old(
                queues,
            ).default_queue@,
            final(queues).priority_queue@ == old(queues).priority_queue@,
    {
        self.enqueue(&mut queues.default_queue)
    }

    /// Moves this step onto the priority queue of the pair; the default queue
    /// is untouched.
    pub fn enqueue_priority(self, queues: &mut AsyncQueues) -> (ok: bool)
        ensures
            old(queues).priority_queue@.len() < 64 ==> ok && final(queues).priority_queue@ == old(
                queues,
            ).priority_queue@.push(self),
            old(queues).priority_queue@.len() >= 64 ==> !ok && final(queues).priority_queue@ == old(
                queues,
            ).priority_queue@,
            final(queues).default_queue@ == old(queues).default_queue@,
    {
        self.enqueue(&mut queues.priority_queue)
    }

    /// Executes this step: raw steps invoke their callback exactly once with
    /// the carried arguments, recorded in the callback's invocation history;
    /// `Perform` delegates to the application's
    /// handler, with `queue` as its notifier, recording the command in the
    /// handler's history; `Notify` runs the transition function, moves the
    /// state, and queues any commanded `Perform` at the tail of the same
    /// queue. Returns the continue-signal: `false` exactly for `Stop`.
    pub fn dispatch<H: CommandHandler>(
        &mut self,
        queue: &mut AsyncQueue,
        state: &mut State,
        handler: &mut H,
    ) -> (keep_going: bool)
        ensures
            keep_going == !(*old(self) is Stop),
            *final(state) == step_state(*old(state), *old(self)),
            dispatch_queue_effect(*old(self), *old(state), old(queue)@, final(queue)@),
            *old(self) matches AsyncStep::Perform { command } ==> final(handler).handled() == old(
                handler,
            ).handled().push(command),
            !(*old(self) is Perform) ==> final(handler).handled() == old(handler).handled(),
            *old(self) matches AsyncStep::StepUnit { run: r0 } ==> (*final(self) matches
                AsyncStep::StepUnit { run: r1 } && r1.invocations() == r0.invocations() + 1),
            *old(self) matches AsyncStep::StepU32 { run: r0, arg: a0 } ==> (*final(self) matches
                AsyncStep::StepU32 { run: r1, arg: a1 } && r1.invocations() == r0.invocations(
            ).push(a0) && a1 == a0),
            *old(self) matches AsyncStep::Step2U32 { run: r0, arg0: x0, arg1: y0 } ==> (*final(self)
                matches AsyncStep::Step2U32 { run: r1, arg0: x1, arg1: y1 } && r1.invocations()
                == r0.invocations().push((x0, y0)) && x1 == x0 && y1 == y0),
            *old(self) is Perform || *old(self) is Notify || *old(self) is Stop ==> *final(self)
                == *old(self),
    {
        match self {
            AsyncStep::StepUnit { run } => {
                invoke_unit(run);
                true
            },
            AsyncStep::StepU32 { run, arg } => {
                invoke_u32(run, *arg);
                true
            },
            AsyncStep::Step2U32 { run, arg0, arg1 } => {
                invoke_2u32(run, *arg0, *arg1);
                true
            },
            AsyncStep::Perform { command } => {
                handler.handle(command, queue);
                true
            },
            AsyncStep::Notify { event } => {
                let outcome = transition(state, event);
                apply_transition(outcome, queue, state);
                true
            },
            AsyncStep::Stop => false,
        }
    }
}

/// Whether dispatching `step` from state `s` leaves every queue as it was: a
/// `Perform` hands the queue to the handler, and a `Notify` whose transition
/// commands something appends a `Perform`; every other step queues nothing.
pub open spec fn spawns_no_work(s: State, step: AsyncStep) -> bool {
    match step {
        AsyncStep::Perform { .. } => false,
        AsyncStep::Notify { event } => spec_transition(s, event).0 is None,
        _ => true,
    }
}

/// Whether draining `steps` in order from state `s` adds no step to any
/// queue along the way.
pub open spec fn quiet(s: State, steps: Seq<AsyncStep>) -> bool
    decreases steps.len(),
{
    steps.len() == 0 || (spawns_no_work(s, steps[0]) && quiet(
        step_state(s, steps[0]),
        steps.drop_first(),
    ))
}

impl AsyncStep {
    /// One drain pass over a single queue: repeatedly dequeue and dispatch
    /// until a `Stop` step ends the pass, the queue runs dry, or `budget`
    /// steps have been dispatched. `Stopped` carries the state reached by
    /// everything dispatched before the `Stop`; steps queued behind the
    /// `Stop` are left on the queue, never executed by this pass. `Idle`
    /// means every queued step was dispatched and the embedder should wait
    /// for producers — firmware sleeps on its idle instruction — before
    /// draining again. The budget exists because command handlers may feed
    /// events back into the queue without end; a pass over a queue whose
    /// first `Stop` sits at position `k` is owed its `Stopped` outcome
    /// whenever `budget` exceeds `k`, however much is fed back meanwhile.
    /// `Stopped` is never returned unless a `Stop` was queued to begin with —
    /// feedback can only add `Notify` and `Perform` steps — and `Exhausted`
    /// carries the state reached when the budget ran out, which for a quiet
    /// drain is exactly the fold over the first `budget` steps.
    #[verifier::rlimit(30)]
    pub fn run_queue<H: CommandHandler>(
        queue: &mut AsyncQueue,
        start: State,
        handler: &mut H,
        budget: usize,
    ) -> (r: RunOutcome)
        ensures
            has_stop(old(queue)@) && budget > first_stop(old(queue)@) ==> r == RunOutcome::Stopped(
                fold_steps(start, old(queue)@.take(first_stop(old(queue)@))),
            ) && old(queue)@.skip(first_stop(old(queue)@) + 1).is_prefix_of(final(queue)@),
            has_stop(old(queue)@) && budget > first_stop(old(queue)@) && quiet(
                start,
                old(queue)@.take(first_stop(old(queue)@)),
            ) ==> final(queue)@ == old(queue)@.skip(first_stop(old(queue)@) + 1),
            !has_stop(old(queue)@) && quiet(start, old(queue)@) && budget > old(queue)@.len()
                ==> r == RunOutcome::Idle(fold_steps(start, old(queue)@)) && final(queue)@.len()
                == 0,
            r is Idle ==> final(queue)@.len() == 0,
            r is Stopped ==> has_stop(old(queue)@),
            r is Exhausted && budget <= old(queue)@.len() ==> old(queue)@.skip(
                budget as int,
            ).is_prefix_of(final(queue)@),
            (match r {
                RunOutcome::Stopped(s) => reachable_state(start, s),
                RunOutcome::Idle(s) => reachable_state(start, s),
                RunOutcome::Exhausted(s) => reachable_state(start, s),
            }),
            budget == 0 ==> r == RunOutcome::Exhausted(start) && final(queue)@ == old(queue)@,
            has_stop(old(queue)@) && budget <= first_stop(old(queue)@) && quiet(
                start,
                old(queue)@.take(budget as int),
            ) ==> r == RunOutcome::Exhausted(fold_steps(start, old(queue)@.take(budget as int)))
                && final(queue)@ == old(queue)@.skip(budget as int),
            !has_stop(old(queue)@) && budget <= old(queue)@.len() && quiet(
                start,
                old(queue)@.take(budget as int),
            ) ==> r == RunOutcome::Exhausted(fold_steps(start, old(queue)@.take(budget as int)))
                && final(queue)@ == old(queue)@.skip(budget as int),
    {
        let mut state = start;
        let mut fuel = budget;
        let ghost q0 = queue@;
        let ghost mut done: Seq<AsyncStep> = Seq::empty();
        let ghost mut extra: Seq<AsyncStep> = Seq::empty();
        proof {
            assert(q0 == old(queue)@);
            assert(done + queue@ =~= queue@);
            assert(q0 + extra =~= q0);
            if has_stop(q0) {
                lemma_first_stop_props(q0);
            }
        }
        loop
            invariant
                q0 == old(queue)@,
                done + queue@ == q0 + extra,
                forall|i: int| 0 <= i < done.len() ==> !(done[i] is Stop),
                forall|i: int| 0 <= i < extra.len() ==> !(extra[i] is Stop),
                state == fold_steps(start, done),
                done.len() + fuel == budget,
                has_stop(q0) ==> done.len() <= first_stop(q0),
                done.len() == 0 ==> extra == Seq::<AsyncStep>::empty(),
                has_stop(q0) && quiet(
                    start,
                    q0.take(min_int(budget as int, first_stop(q0))),
                ) ==> extra == Seq::<AsyncStep>::empty(),
                !has_stop(q0) && quiet(
                    start,
                    q0.take(min_int(budget as int, q0.len() as int)),
                ) ==> extra == Seq::<AsyncStep>::empty(),
            decreases fuel,
        {
            let ghost pre_q = queue@;
            let ghost pre_state = state;
            let ghost n = done.len() as int;
            if fuel == 0 {
                proof {
                    if has_stop(q0) && budget > first_stop(q0) {
                        assert(false);
                    }
                    if !has_stop(q0) && quiet(start, q0) && budget > q0.len() {
                        lemma_quiet_take(start, q0, q0.len() as int);
                        assert(q0.take(q0.len() as int) =~= q0);
                        assert(done + queue@ =~= q0);
                        assert(false);
                    }
                    if budget == 0 {
                        assert(done + queue@ =~= queue@);
                        assert(q0 + extra =~= q0);
                    }
                    if has_stop(q0) && budget <= first_stop(q0) && quiet(
                        start,
                        q0.take(budget as int),
                    ) {
                        assert(extra == Seq::<AsyncStep>::empty());
                        assert(done + queue@ =~= q0);
                        assert forall|i: int| 0 <= i < n implies done[i] == q0[i] by {
                            assert((done + queue@)[i] == done[i]);
                        }
                        assert(done =~= q0.take(budget as int));
                        assert(queue@ =~= q0.skip(budget as int));
                    }
                    if !has_stop(q0) && budget <= q0.len() && quiet(
                        start,
                        q0.take(budget as int),
                    ) {
                        assert(extra == Seq::<AsyncStep>::empty());
                        assert(done + queue@ =~= q0);
                        assert forall|i: int| 0 <= i < n implies done[i] == q0[i] by {
                            assert((done + queue@)[i] == done[i]);
                        }
                        assert(done =~= q0.take(budget as int));
                        assert(queue@ =~= q0.skip(budget as int));
                    }
                }
                proof {
                    assert(state == fold_steps(start, done));
                    assert(reachable_state(start, state));
                    if budget <= q0.len() {
                        assert(queue@ =~= (q0 + extra).skip(n));
                        assert(q0.skip(n) =~= (q0 + extra).skip(n).take(q0.len() - n));
                        assert(q0.skip(n).is_prefix_of(queue@));
                    }
                }
                return RunOutcome::Exhausted(state);
            }
            match queue.dequeue() {
                None => {
                    proof {
                        assert(pre_q.len() == 0);
                        assert(done + pre_q =~= done);
                        if has_stop(q0) {
                            lemma_first_stop_props(q0);
                            assert(done.len() == q0.len() + extra.len());
                            assert(false);
                        }
                        if quiet(start, q0) {
                            lemma_quiet_take(start, q0, min_int(budget as int, q0.len() as int));
                            assert(done =~= q0 + extra);
                            assert(done =~= q0);
                        }
                        if !has_stop(q0) && budget <= q0.len() && quiet(
                            start,
                            q0.take(budget as int),
                        ) {
                            assert(extra == Seq::<AsyncStep>::empty());
                            assert(done + pre_q =~= q0);
                            assert(false);
                        }
                    }
                    proof {
                        assert(state == fold_steps(start, done));
                        assert(reachable_state(start, state));
                    }
                    return RunOutcome::Idle(state);
                },
                Some(mut step) => {
                    let ghost st = step;
                    let ghost mid_q = queue@;
                    proof {
                        assert(pre_q.len() > 0);
                        assert(st == pre_q[0]);
                        assert(mid_q == pre_q.drop_first());
                        if n < q0.len() {
                            assert((done + pre_q)[n] == pre_q[0]);
                            assert((q0 + extra)[n] == q0[n]);
                            assert(st == q0[n]);
                        }
                    }
                    let keep_going = step.dispatch(queue, &mut state, handler);
                    fuel = fuel - 1;
                    if !keep_going {
                        proof {
                            assert(st is Stop);
                            assert(queue@ == mid_q);
                            if n < q0.len() {
                                assert forall|i: int| 0 <= i < n implies !(q0[i] is Stop) by {
                                    assert((done + pre_q)[i] == done[i]);
                                    assert((q0 + extra)[i] == q0[i]);
                                }
                                lemma_first_stop_at(q0, n);
                                assert forall|i: int| 0 <= i < n implies done[i] == q0[i] by {
                                    assert((done + pre_q)[i] == done[i]);
                                    assert((q0 + extra)[i] == q0[i]);
                                }
                                assert(done =~= q0.take(n));
                                assert(pre_q =~= (q0 + extra).skip(n));
                                assert(mid_q =~= (q0 + extra).skip(n + 1));
                                assert(q0.skip(n + 1) =~= (q0 + extra).skip(n + 1).take(
                                    q0.len() - n - 1,
                                ));
                                assert(q0.skip(n + 1).is_prefix_of(queue@));
                                if quiet(start, q0.take(n)) {
                                    assert(extra == Seq::<AsyncStep>::empty());
                                    assert(mid_q =~= q0.skip(n + 1));
                                }
                            } else {
                                assert(pre_q =~= (q0 + extra).skip(n));
                                assert(st == (q0 + extra)[n]);
                                assert((q0 + extra)[n] == extra[n - q0.len()]);
                                assert(false);
                            }
                        }
                        proof {
                            assert(state == fold_steps(start, done));
                            assert(reachable_state(start, state));
                        }
                        return RunOutcome::Stopped(state);
                    }
                    proof {
                        assert(!(st is Stop));
                        assert(mid_q.is_prefix_of(queue@)) by {
                            if st is Perform {
                            } else if st is Notify {
                                if queue@ != mid_q {
                                    assert(queue@.subrange(0, mid_q.len() as int) =~= mid_q);
                                }
                            }
                        }
                        let appended = queue@.skip(mid_q.len() as int);
                        assert(queue@ =~= mid_q + appended);
                        assert forall|j: int| 0 <= j < appended.len() implies !(appended[j]
                            is Stop) by {
                            assert(appended[j] == queue@[mid_q.len() + j]);
                        }
                        if has_stop(q0) {
                            lemma_first_stop_props(q0);
                            let k = first_stop(q0);
                            assert(n < q0.len());
                            if n == k {
                                assert(st is Stop);
                            }
                            assert(n < k);
                            let m = min_int(budget as int, k);
                            if quiet(start, q0.take(m)) {
                                assert(extra == Seq::<AsyncStep>::empty());
                                assert(done + pre_q =~= q0);
                                assert(done =~= q0.take(n));
                                assert(n < m);
                                lemma_quiet_at(start, q0.take(m), n);
                                assert(q0.take(m).take(n) =~= q0.take(n));
                                assert(q0.take(m)[n] == q0[n]);
                                assert(spawns_no_work(pre_state, st));
                                assert(queue@ == mid_q);
                                assert(appended =~= Seq::<AsyncStep>::empty());
                            }
                        }
                        if !has_stop(q0) {
                            let m = min_int(budget as int, q0.len() as int);
                            if quiet(start, q0.take(m)) {
                                assert(extra == Seq::<AsyncStep>::empty());
                                assert(done + pre_q =~= q0);
                                assert(n < q0.len());
                                assert(done =~= q0.take(n));
                                assert(n < m);
                                lemma_quiet_at(start, q0.take(m), n);
                                assert(q0.take(m).take(n) =~= q0.take(n));
                                assert(q0.take(m)[n] == q0[n]);
                                assert(spawns_no_work(pre_state, st));
                                assert(queue@ == mid_q);
                                assert(appended =~= Seq::<AsyncStep>::empty());
                            }
                        }
                        lemma_fold_steps_push(start, done, st);
                        assert(seq![st] + mid_q =~= pre_q);
                        assert(done.push(st) + mid_q =~= done + pre_q);
                        assert(done.push(st) + (mid_q + appended) =~= (done + pre_q) + appended);
                        assert((q0 + extra) + appended =~= q0 + (extra + appended));
                        done = done.push(st);
                        extra = extra + appended;
                        assert(done + queue@ == q0 + extra);
                    }
                },
            }
        }
    }
    /// The scheduling decision of the two-queue loop, at one decision point:
    /// while the priority queue holds anything, its head is taken and the
    /// default queue is not touched; only an empty priority queue lets the
    /// default queue's head through. The flag reports whether the step came
    /// from the priority queue.
    pub fn next_step(
        hi_queue: &mut AsyncQueue,
        lo_queue: &mut AsyncQueue,
    ) -> (r: Option<(bool, AsyncStep)>)
        ensures
            old(hi_queue)@.len() > 0 ==> r == Some((true, old(hi_queue)@[0]))
                && final(hi_queue)@ == old(hi_queue)@.drop_first()
                && final(lo_queue)@ == old(lo_queue)@,
            old(hi_queue)@.len() == 0 && old(lo_queue)@.len() > 0 ==> r == Some(
                (false, old(lo_queue)@[0]),
            ) && final(hi_queue)@ == old(hi_queue)@
                && final(lo_queue)@ == old(lo_queue)@.drop_first(),
            old(hi_queue)@.len() == 0 && old(lo_queue)@.len() == 0 ==> r is None
                && final(hi_queue)@ == old(hi_queue)@ && final(lo_queue)@ == old(lo_queue)@,
    {
        match hi_queue.dequeue() {
            Some(step) => Some((true, step)),
            None => match lo_queue.dequeue() {
                Some(step) => Some((false, step)),
                None => None,
            },
        }
    }

    /// One drain pass over two queues under strict priority: every iteration
    /// serves `hi_queue` first and turns to `lo_queue` only when `hi_queue`
    /// has nothing pending at that instant — sustained priority work may
    /// starve the default queue, by design. A dispatched `Perform` or
    /// `Notify` feeds back into the queue its step came from. The pass ends
    /// at the first dispatched `Stop` (`Stopped`), when both queues run dry
    /// (`Idle`), or after `budget` dispatched steps (`Exhausted`). While the
    /// priority queue still holds its first `Stop`, the default queue is
    /// never touched, and `Stopped` is never returned unless one of the two
    /// queues held a `Stop` to begin with.
    #[verifier::rlimit(60)]
    pub fn run_queue_hilo<H: CommandHandler>(
        hi_queue: &mut AsyncQueue,
        lo_queue: &mut AsyncQueue,
        start: State,
        handler: &mut H,
        budget: usize,
    ) -> (r: RunOutcome)
        ensures
            has_stop(old(hi_queue)@) && budget > first_stop(old(hi_queue)@) ==> r
                == RunOutcome::Stopped(
                fold_steps(start, old(hi_queue)@.take(first_stop(old(hi_queue)@))),
            ) && old(hi_queue)@.skip(first_stop(old(hi_queue)@) + 1).is_prefix_of(final(hi_queue)@)
                && final(lo_queue)@ == old(lo_queue)@,
            has_stop(old(hi_queue)@) && budget > first_stop(old(hi_queue)@) && quiet(
                start,
                old(hi_queue)@.take(first_stop(old(hi_queue)@)),
            ) ==> final(hi_queue)@ == old(hi_queue)@.skip(first_stop(old(hi_queue)@) + 1),
            !has_stop(old(hi_queue)@) && quiet(start, old(hi_queue)@) && has_stop(old(lo_queue)@)
                && quiet(
                fold_steps(start, old(hi_queue)@),
                old(lo_queue)@.take(first_stop(old(lo_queue)@)),
            ) && budget > old(hi_queue)@.len() + first_stop(old(lo_queue)@) ==> r
                == RunOutcome::Stopped(
                fold_steps(
                    fold_steps(start, old(hi_queue)@),
                    old(lo_queue)@.take(first_stop(old(lo_queue)@)),
                ),
            ) && final(hi_queue)@.len() == 0 && final(lo_queue)@ == old(lo_queue)@.skip(
                first_stop(old(lo_queue)@) + 1,
            ),
            !has_stop(old(hi_queue)@) && quiet(start, old(hi_queue)@) && !has_stop(old(lo_queue)@)
                && quiet(fold_steps(start, old(hi_queue)@), old(lo_queue)@) && budget > old(
                hi_queue,
            )@.len() + old(lo_queue)@.len() ==> r == RunOutcome::Idle(
                fold_steps(fold_steps(start, old(hi_queue)@), old(lo_queue)@),
            ) && final(hi_queue)@.len() == 0 && final(lo_queue)@.len() == 0,
            r is Idle ==> final(hi_queue)@.len() == 0 && final(lo_queue)@.len() == 0,
            r is Stopped ==> has_stop(old(hi_queue)@) || has_stop(old(lo_queue)@),
            (match r {
                RunOutcome::Stopped(s) => reachable_state(start, s),
                RunOutcome::Idle(s) => reachable_state(start, s),
                RunOutcome::Exhausted(s) => reachable_state(start, s),
            }),
            budget == 0 ==> r == RunOutcome::Exhausted(start) && final(hi_queue)@ == old(
                hi_queue,
            )@ && final(lo_queue)@ == old(lo_queue)@,
            !has_stop(old(hi_queue)@) && quiet(start, old(hi_queue)@) && has_stop(old(lo_queue)@)
                && budget > old(hi_queue)@.len() + first_stop(old(lo_queue)@) ==> r
                == RunOutcome::Stopped(
                fold_steps(
                    fold_steps(start, old(hi_queue)@),
                    old(lo_queue)@.take(first_stop(old(lo_queue)@)),
                ),
            ) && final(hi_queue)@.len() == 0 && old(lo_queue)@.skip(
                first_stop(old(lo_queue)@) + 1,
            ).is_prefix_of(final(lo_queue)@),
    {
        let mut state = start;
        let mut fuel = budget;
        let ghost h0 = hi_queue@;
        let ghost l0 = lo_queue@;
        let ghost mut done_h: Seq<AsyncStep> = Seq::empty();
        let ghost mut extra_h: Seq<AsyncStep> = Seq::empty();
        let ghost mut done_l: Seq<AsyncStep> = Seq::empty();
        let ghost mut extra_l: Seq<AsyncStep> = Seq::empty();
        proof {
            assert(done_h + hi_queue@ =~= hi_queue@);
            assert(h0 + extra_h =~= h0);
            assert(done_l + lo_queue@ =~= lo_queue@);
            assert(l0 + extra_l =~= l0);
            if has_stop(h0) {
                lemma_first_stop_props(h0);
            }
            if has_stop(l0) {
                lemma_first_stop_props(l0);
            }
        }
        loop
            invariant
                h0 == old(hi_queue)@,
                l0 == old(lo_queue)@,
                done_h + hi_queue@ == h0 + extra_h,
                done_l + lo_queue@ == l0 + extra_l,
                forall|i: int| 0 <= i < done_h.len() ==> !(done_h[i] is Stop),
                forall|i: int| 0 <= i < done_l.len() ==> !(done_l[i] is Stop),
                forall|i: int| 0 <= i < extra_h.len() ==> !(extra_h[i] is Stop),
                forall|i: int| 0 <= i < extra_l.len() ==> !(extra_l[i] is Stop),
                done_l.len() > 0 ==> hi_queue@.len() == 0,
                state == fold_steps(fold_steps(start, done_h), done_l),
                done_h.len() + done_l.len() + fuel == budget,
                has_stop(h0) ==> done_h.len() <= first_stop(h0),
                has_stop(h0) ==> done_l == Seq::<AsyncStep>::empty() && lo_queue@ == l0,
                has_stop(l0) ==> done_l.len() <= first_stop(l0),
                done_h.len() == 0 ==> extra_h == Seq::<AsyncStep>::empty(),
                done_l.len() == 0 ==> extra_l == Seq::<AsyncStep>::empty(),
                has_stop(h0) && quiet(start, h0.take(first_stop(h0))) ==> extra_h
                    == Seq::<AsyncStep>::empty(),
                !has_stop(h0) && quiet(start, h0) ==> extra_h == Seq::<AsyncStep>::empty(),
                !has_stop(h0) && quiet(start, h0) && has_stop(l0) && quiet(
                    fold_steps(start, h0),
                    l0.take(first_stop(l0)),
                ) ==> extra_l == Seq::<AsyncStep>::empty(),
                !has_stop(h0) && quiet(start, h0) && !has_stop(l0) && quiet(
                    fold_steps(start, h0),
                    l0,
                ) ==> extra_l == Seq::<AsyncStep>::empty(),
            decreases fuel,
        {
            if fuel == 0 {
                proof {
                    if has_stop(h0) && budget > first_stop(h0) {
                        assert(false);
                    }
                    if !has_stop(h0) && quiet(start, h0) {
                        assert(done_h.len() <= h0.len());
                        if has_stop(l0) && budget > h0.len() + first_stop(l0) {
                            assert(false);
                        }
                        if !has_stop(l0) && quiet(fold_steps(start, h0), l0) && budget > h0.len()
                            + l0.len() {
                            assert(done_l.len() <= l0.len());
                            assert(false);
                        }
                    }
                    if budget == 0 {
                        assert(done_h + hi_queue@ =~= hi_queue@);
                        assert(h0 + extra_h =~= h0);
                        assert(done_l + lo_queue@ =~= lo_queue@);
                        assert(l0 + extra_l =~= l0);
                    }
                }
                proof {
                    lemma_fold_steps_concat(start, done_h, done_l);
                    assert(state == fold_steps(start, done_h + done_l));
                    assert(reachable_state(start, state));
                }
                return RunOutcome::Exhausted(state);
            }
            let ghost pre_h = hi_queue@;
            let ghost pre_l = lo_queue@;
            let ghost pre_state = state;
            let ghost nh = done_h.len() as int;
            let ghost nl = done_l.len() as int;
            match AsyncStep::next_step(hi_queue, lo_queue) {
                Some((true, mut step)) => {
                    let ghost st = step;
                    let ghost mid_q = hi_queue@;
                    proof {
                        if pre_h.len() == 0 {
                            assert(false);
                        }
                        assert(done_l == Seq::<AsyncStep>::empty());
                        assert(st == pre_h[0]);
                        assert(lo_queue@ == pre_l);
                        if nh < h0.len() {
                            assert((done_h + pre_h)[nh] == pre_h[0]);
                            assert((h0 + extra_h)[nh] == h0[nh]);
                            assert(st == h0[nh]);
                        }
                    }
                    let keep_going = step.dispatch(hi_queue, &mut state, handler);
                    fuel = fuel - 1;
                    if !keep_going {
                        proof {
                            assert(st is Stop);
                            assert(hi_queue@ == mid_q);
                            if nh < h0.len() {
                                assert forall|i: int| 0 <= i < nh implies !(h0[i] is Stop) by {
                                    assert((done_h + pre_h)[i] == done_h[i]);
                                    assert((h0 + extra_h)[i] == h0[i]);
                                }
                                lemma_first_stop_at(h0, nh);
                                assert forall|i: int| 0 <= i < nh implies done_h[i] == h0[i] by {
                                    assert((done_h + pre_h)[i] == done_h[i]);
                                    assert((h0 + extra_h)[i] == h0[i]);
                                }
                                assert(done_h =~= h0.take(nh));
                                assert(pre_h =~= (h0 + extra_h).skip(nh));
                                assert(mid_q =~= (h0 + extra_h).skip(nh + 1));
                                assert(h0.skip(nh + 1) =~= (h0 + extra_h).skip(nh + 1).take(
                                    h0.len() - nh - 1,
                                ));
                                assert(h0.skip(nh + 1).is_prefix_of(hi_queue@));
                                if quiet(start, h0.take(nh)) {
                                    assert(extra_h == Seq::<AsyncStep>::empty());
                                    assert(mid_q =~= h0.skip(nh + 1));
                                }
                            } else {
                                assert(pre_h =~= (h0 + extra_h).skip(nh));
                                assert(st == (h0 + extra_h)[nh]);
                                assert((h0 + extra_h)[nh] == extra_h[nh - h0.len()]);
                                assert(false);
                            }
                        }
                        proof {
                    lemma_fold_steps_concat(start, done_h, done_l);
                    assert(state == fold_steps(start, done_h + done_l));
                    assert(reachable_state(start, state));
                }
                        return RunOutcome::Stopped(state);
                    }
                    proof {
                        assert(!(st is Stop));
                        assert(mid_q.is_prefix_of(hi_queue@)) by {
                            if st is Perform {
                            } else if st is Notify {
                                if hi_queue@ != mid_q {
                                    assert(hi_queue@.subrange(0, mid_q.len() as int) =~= mid_q);
                                }
                            }
                        }
                        let appended = hi_queue@.skip(mid_q.len() as int);
                        assert(hi_queue@ =~= mid_q + appended);
                        assert forall|j: int| 0 <= j < appended.len() implies !(appended[j]
                            is Stop) by {
                            assert(appended[j] == hi_queue@[mid_q.len() + j]);
                        }
                        if has_stop(h0) {
                            lemma_first_stop_props(h0);
                            let k = first_stop(h0);
                            assert(nh < h0.len());
                            if nh == k {
                                assert(st is Stop);
                            }
                            assert(nh < k);
                            if quiet(start, h0.take(k)) {
                                assert(extra_h == Seq::<AsyncStep>::empty());
                                assert(done_h + pre_h =~= h0);
                                assert(done_h =~= h0.take(nh));
                                lemma_quiet_at(start, h0.take(k), nh);
                                assert(h0.take(k).take(nh) =~= h0.take(nh));
                                assert(h0.take(k)[nh] == h0[nh]);
                                assert(fold_steps(start, done_h) == pre_state);
                                assert(spawns_no_work(pre_state, st));
                                assert(hi_queue@ == mid_q);
                                assert(appended =~= Seq::<AsyncStep>::empty());
                            }
                        }
                        if !has_stop(h0) && quiet(start, h0) {
                            assert(extra_h == Seq::<AsyncStep>::empty());
                            assert(done_h + pre_h =~= h0);
                            assert(nh < h0.len());
                            assert(done_h =~= h0.take(nh));
                            lemma_quiet_at(start, h0, nh);
                            assert(fold_steps(start, done_h) == pre_state);
                            assert(spawns_no_work(pre_state, st));
                            assert(hi_queue@ == mid_q);
                            assert(appended =~= Seq::<AsyncStep>::empty());
                        }
                        lemma_fold_steps_push(start, done_h, st);
                        assert(seq![st] + mid_q =~= pre_h);
                        assert(done_h.push(st) + mid_q =~= done_h + pre_h);
                        assert(done_h.push(st) + (mid_q + appended) =~= (done_h + pre_h)
                            + appended);
                        assert((h0 + extra_h) + appended =~= h0 + (extra_h + appended));
                        done_h = done_h.push(st);
                        extra_h = extra_h + appended;
                        assert(done_h + hi_queue@ == h0 + extra_h);
                        assert(fold_steps(fold_steps(start, done_h), done_l) == state);
                    }
                },
                Some((false, mut step)) => {
                            let ghost st = step;
                            let ghost mid_q = lo_queue@;
                            proof {
                                assert(pre_h.len() == 0);
                                assert(hi_queue@ == pre_h);
                                if has_stop(h0) {
                                    lemma_first_stop_props(h0);
                                    assert(done_h + pre_h =~= done_h);
                                    assert(done_h.len() == h0.len() + extra_h.len());
                                    assert(false);
                                }
                                if pre_l.len() == 0 {
                                    assert(false);
                                }
                                assert(st == pre_l[0]);
                                if nl < l0.len() {
                                    assert((done_l + pre_l)[nl] == pre_l[0]);
                                    assert((l0 + extra_l)[nl] == l0[nl]);
                                    assert(st == l0[nl]);
                                }
                            }
                            let keep_going = step.dispatch(lo_queue, &mut state, handler);
                            fuel = fuel - 1;
                            if !keep_going {
                                proof {
                                    assert(st is Stop);
                                    assert(lo_queue@ == mid_q);
                                    if has_stop(l0) {
                                        lemma_first_stop_props(l0);
                                    }
                                    if nl < l0.len() {
                                        assert forall|i: int| 0 <= i < nl implies !(l0[i]
                                            is Stop) by {
                                            assert((done_l + pre_l)[i] == done_l[i]);
                                            assert((l0 + extra_l)[i] == l0[i]);
                                        }
                                        lemma_first_stop_at(l0, nl);
                                        assert forall|i: int| 0 <= i < nl implies done_l[i]
                                            == l0[i] by {
                                            assert((done_l + pre_l)[i] == done_l[i]);
                                            assert((l0 + extra_l)[i] == l0[i]);
                                        }
                                        assert(done_l =~= l0.take(nl));
                                        if !has_stop(h0) && quiet(start, h0) {
                                            assert(extra_h == Seq::<AsyncStep>::empty());
                                            assert(done_h + pre_h =~= done_h);
                                            assert(done_h =~= h0);
                                            assert(pre_l =~= (l0 + extra_l).skip(nl));
                                            assert(mid_q =~= (l0 + extra_l).skip(nl + 1));
                                            assert(l0.skip(nl + 1) =~= (l0 + extra_l).skip(
                                                nl + 1,
                                            ).take(l0.len() - nl - 1));
                                            assert(l0.skip(nl + 1).is_prefix_of(lo_queue@));
                                            if quiet(fold_steps(start, h0), l0.take(nl)) {
                                                assert(extra_l == Seq::<AsyncStep>::empty());
                                                assert(mid_q =~= l0.skip(nl + 1));
                                            }
                                        }
                                    } else {
                                        assert(pre_l =~= (l0 + extra_l).skip(nl));
                                        assert(st == (l0 + extra_l)[nl]);
                                        assert((l0 + extra_l)[nl] == extra_l[nl - l0.len()]);
                                        assert(false);
                                    }
                                }
                                proof {
                    lemma_fold_steps_concat(start, done_h, done_l);
                    assert(state == fold_steps(start, done_h + done_l));
                    assert(reachable_state(start, state));
                }
                        return RunOutcome::Stopped(state);
                            }
                            proof {
                                assert(!(st is Stop));
                                assert(mid_q.is_prefix_of(lo_queue@)) by {
                                    if st is Perform {
                                    } else if st is Notify {
                                        if lo_queue@ != mid_q {
                                            assert(lo_queue@.subrange(0, mid_q.len() as int)
                                                =~= mid_q);
                                        }
                                    }
                                }
                                let appended = lo_queue@.skip(mid_q.len() as int);
                                assert(lo_queue@ =~= mid_q + appended);
                                assert forall|j: int| 0 <= j < appended.len() implies !(
                                appended[j] is Stop) by {
                                    assert(appended[j] == lo_queue@[mid_q.len() + j]);
                                }
                                if has_stop(l0) {
                                    lemma_first_stop_props(l0);
                                    let k = first_stop(l0);
                                    assert(nl < l0.len());
                                    if nl == k {
                                        assert(st is Stop);
                                    }
                                    assert(nl < k);
                                }
                                if !has_stop(h0) && quiet(start, h0) {
                                    assert(extra_h == Seq::<AsyncStep>::empty());
                                    assert(done_h + pre_h =~= done_h);
                                    assert(done_h =~= h0);
                                    assert(fold_steps(fold_steps(start, h0), done_l)
                                        == pre_state);
                                    if has_stop(l0) && quiet(
                                        fold_steps(start, h0),
                                        l0.take(first_stop(l0)),
                                    ) {
                                        let k = first_stop(l0);
                                        assert(extra_l == Seq::<AsyncStep>::empty());
                                        assert(done_l + pre_l =~= l0);
                                        assert(done_l =~= l0.take(nl));
                                        lemma_quiet_at(fold_steps(start, h0), l0.take(k), nl);
                                        assert(l0.take(k).take(nl) =~= l0.take(nl));
                                        assert(l0.take(k)[nl] == l0[nl]);
                                        assert(spawns_no_work(pre_state, st));
                                        assert(lo_queue@ == mid_q);
                                        assert(appended =~= Seq::<AsyncStep>::empty());
                                    }
                                    if !has_stop(l0) && quiet(fold_steps(start, h0), l0) {
                                        assert(extra_l == Seq::<AsyncStep>::empty());
                                        assert(done_l + pre_l =~= l0);
                                        assert(nl < l0.len());
                                        assert(done_l =~= l0.take(nl));
                                        lemma_quiet_at(fold_steps(start, h0), l0, nl);
                                        assert(spawns_no_work(pre_state, st));
                                        assert(lo_queue@ == mid_q);
                                        assert(appended =~= Seq::<AsyncStep>::empty());
                                    }
                                }
                                lemma_fold_steps_push(fold_steps(start, done_h), done_l, st);
                                assert(seq![st] + mid_q =~= pre_l);
                                assert(done_l.push(st) + mid_q =~= done_l + pre_l);
                                assert(done_l.push(st) + (mid_q + appended) =~= (done_l + pre_l)
                                    + appended);
                                assert((l0 + extra_l) + appended =~= l0 + (extra_l + appended));
                                done_l = done_l.push(st);
                                extra_l = extra_l + appended;
                                assert(done_l + lo_queue@ == l0 + extra_l);
                            }
                        },
                        None => {
                            proof {
                                assert(pre_h.len() == 0);
                                assert(hi_queue@ == pre_h);
                                assert(lo_queue@ == pre_l);
                                if has_stop(h0) {
                                    lemma_first_stop_props(h0);
                                    assert(done_h + pre_h =~= done_h);
                                    assert(done_h.len() == h0.len() + extra_h.len());
                                    assert(false);
                                }
                                assert(pre_l.len() == 0);
                                assert(done_l + pre_l =~= done_l);
                                if has_stop(l0) {
                                    lemma_first_stop_props(l0);
                                    assert(done_l.len() == l0.len() + extra_l.len());
                                    assert(false);
                                }
                                if quiet(start, h0) && quiet(fold_steps(start, h0), l0) {
                                    assert(extra_h == Seq::<AsyncStep>::empty());
                                    assert(extra_l == Seq::<AsyncStep>::empty());
                                    assert(done_h + pre_h =~= done_h);
                                    assert(done_h =~= h0);
                                    assert(done_l =~= l0);
                                }
                            }
                            proof {
                    lemma_fold_steps_concat(start, done_h, done_l);
                    assert(state == fold_steps(start, done_h + done_l));
                    assert(reachable_state(start, state));
                }
                            return RunOutcome::Idle(state);
                },
            }
        }
    }

    /// One strict-priority drain pass over the process's queue pair: the
    /// priority queue is served first at every scheduling decision, the
    /// default queue only while the priority queue is empty.
    #[verifier::rlimit(60)]
    pub fn run_default_queues<H: CommandHandler>(
        queues: &mut AsyncQueues,
        start: State,
        handler: &mut H,
        budget: usize,
    ) -> (r: RunOutcome)
        ensures
            has_stop(old(queues).priority_queue@) && budget > first_stop(
                old(queues).priority_queue@,
            ) ==> r == RunOutcome::Stopped(
                fold_steps(
                    start,
                    old(queues).priority_queue@.take(first_stop(old(queues).priority_queue@)),
                ),
            ) && old(queues).priority_queue@.skip(
                first_stop(old(queues).priority_queue@) + 1,
            ).is_prefix_of(final(queues).priority_queue@) && final(queues).default_queue@ == old(
                queues,
            ).default_queue@,
            has_stop(old(queues).priority_queue@) && budget > first_stop(
                old(queues).priority_queue@,
            ) && quiet(
                start,
                old(queues).priority_queue@.take(first_stop(old(queues).priority_queue@)),
            ) ==> final(queues).priority_queue@ == old(queues).priority_queue@.skip(
                first_stop(old(queues).priority_queue@) + 1,
            ),
            !has_stop(old(queues).priority_queue@) && quiet(start, old(queues).priority_queue@)
                && has_stop(old(queues).default_queue@) && quiet(
                fold_steps(start, old(queues).priority_queue@),
                old(queues).default_queue@.take(first_stop(old(queues).default_queue@)),
            ) && budget > old(queues).priority_queue@.len() + first_stop(
                old(queues).default_queue@,
            ) ==> r == RunOutcome::Stopped(
                fold_steps(
                    fold_steps(start, old(queues).priority_queue@),
                    old(queues).default_queue@.take(first_stop(old(queues).default_queue@)),
                ),
            ) && final(queues).priority_queue@.len() == 0 && final(queues).default_queue@ == old(
                queues,
            ).default_queue@.skip(first_stop(old(queues).default_queue@) + 1),
            !has_stop(old(queues).priority_queue@) && quiet(start, old(queues).priority_queue@)
                && !has_stop(old(queues).default_queue@) && quiet(
                fold_steps(start, old(queues).priority_queue@),
                old(queues).default_queue@,
            ) && budget > old(queues).priority_queue@.len() + old(queues).default_queue@.len()
                ==> r == RunOutcome::Idle(
                fold_steps(
                    fold_steps(start, old(queues).priority_queue@),
                    old(queues).default_queue@,
                ),
            ) && final(queues).priority_queue@.len() == 0 && final(queues).default_queue@.len()
                == 0,
            r is Idle ==> final(queues).priority_queue@.len() == 0
                && final(queues).default_queue@.len() == 0,
            r is Stopped ==> has_stop(old(queues).priority_queue@) || has_stop(
                old(queues).default_queue@,
            ),
            (match r {
                RunOutcome::Stopped(s) => reachable_state(start, s),
                RunOutcome::Idle(s) => reachable_state(start, s),
                RunOutcome::Exhausted(s) => reachable_state(start, s),
            }),
            budget == 0 ==> r == RunOutcome::Exhausted(start) && final(queues).priority_queue@
                == old(queues).priority_queue@ && final(queues).default_queue@ == old(
                queues,
            ).default_queue@,
            !has_stop(old(queues).priority_queue@) && quiet(start, old(queues).priority_queue@)
                && has_stop(old(queues).default_queue@) && budget > old(
                queues,
            ).priority_queue@.len() + first_stop(old(queues).default_queue@) ==> r
                == RunOutcome::Stopped(
                fold_steps(
                    fold_steps(start, old(queues).priority_queue@),
                    old(queues).default_queue@.take(first_stop(old(queues).default_queue@)),
                ),
            ) && final(queues).priority_queue@.len() == 0 && old(queues).default_queue@.skip(
                first_stop(old(queues).default_queue@) + 1,
            ).is_prefix_of(final(queues).default_queue@),
    {
        AsyncStep::run_queue_hilo(
            &mut queues.priority_queue,
            &mut queues.default_queue,
            start,
            handler,
            budget,
        )
    }
}

/// Whether the dispatcher can reach `s1` from `s0`: `s1` is the fold of some
/// sequence of dispatched steps. The state is moved only by the transition
/// function's outcomes — never by callbacks or command handlers — so every
/// state a drain pass hands back, whatever its outcome, is reachable in this
/// sense.
pub open spec fn reachable_state(s0: State, s1: State) -> bool {
    exists|steps: Seq<AsyncStep>| s1 == fold_steps(s0, steps)
}

/// The smaller of two bounds.
spec fn min_int(a: int, b: int) -> int {
    if a <= b {
        a
    } else {
        b
    }
}

/// The steps that `n` successive dequeues hand out from a queue holding
/// `steps`, in the order they are handed out.
pub open spec fn collect_dequeues(steps: Seq<AsyncStep>, n: int) -> Seq<AsyncStep>
    decreases n,
{
    if n <= 0 || steps.len() == 0 {
        Seq::empty()
    } else {
        seq![steps[0]] + collect_dequeues(steps.drop_first(), n - 1)
    }
}

/// The steps still held after `n` successive dequeues from a queue holding
/// `steps`.
pub open spec fn remaining_dequeues(steps: Seq<AsyncStep>, n: int) -> Seq<AsyncStep>
    decreases n,
{
    if n <= 0 || steps.len() == 0 {
        steps
    } else {
        remaining_dequeues(steps.drop_first(), n - 1)
    }
}

/// FIFO law: with no intervening `Stop`, dequeue order equals enqueue order —
/// `n` dequeues from a queue holding `steps` hand out exactly its first `n`
/// steps, in their queued order, and leave the rest queued in order.
pub proof fn lemma_fifo(steps: Seq<AsyncStep>, n: int)
    requires
        0 <= n <= steps.len(),
    ensures
        collect_dequeues(steps, n) == steps.take(n),
        remaining_dequeues(steps, n) == steps.skip(n),
    decreases n,
{
    if n == 0 {
        assert(steps.take(0) =~= Seq::<AsyncStep>::empty());
        assert(steps.skip(0) =~= steps);
    } else {
        lemma_fifo(steps.drop_first(), n - 1);
        assert(seq![steps[0]] + steps.drop_first().take(n - 1) =~= steps.take(n));
        assert(steps.drop_first().skip(n - 1) =~= steps.skip(n));
    }
}

/// Exactly-once law: after any number of dequeues, every enqueued step is
/// either still queued or was handed out, once; what was handed out and what
/// remains together make up exactly what was enqueued — no step is duplicated
/// and none is lost except by being handed out.
pub proof fn lemma_exactly_once(steps: Seq<AsyncStep>, n: int)
    requires
        0 <= n <= steps.len(),
    ensures
        collect_dequeues(steps, n) + remaining_dequeues(steps, n) == steps,
{
    lemma_fifo(steps, n);
    assert(steps.take(n) + steps.skip(n) =~= steps);
}

/// Causality law: a `Perform` appended for a command joins the tail of the
/// queue that held the originating `Notify`: every step already queued keeps
/// its place ahead of it, and the `Perform` itself comes last.
pub proof fn lemma_causality(before: Seq<AsyncStep>, c: Command)
    ensures
        before.push(AsyncStep::Perform { command: c }).len() == before.len() + 1,
        forall|i: int|
            0 <= i < before.len() ==> before.push(AsyncStep::Perform { command: c })[i]
                == before[i],
        before.push(AsyncStep::Perform { command: c })[before.len() as int]
            == (AsyncStep::Perform { command: c }),
{
}

/// Folding one more step equals dispatching it from the folded state.
pub proof fn lemma_fold_steps_push(s: State, steps: Seq<AsyncStep>, step: AsyncStep)
    ensures
        fold_steps(s, steps.push(step)) == step_state(fold_steps(s, steps), step),
    decreases steps.len(),
{
    assert(steps.push(step).len() == steps.len() + 1);
    assert(fold_steps(s, steps.push(step)) == fold_steps(
        step_state(s, steps.push(step)[0]),
        steps.push(step).drop_first(),
    ));
    if steps.len() == 0 {
        assert(steps.push(step).drop_first() =~= Seq::<AsyncStep>::empty());
        assert(steps.push(step)[0] == step);
        assert(fold_steps(step_state(s, step), Seq::<AsyncStep>::empty()) == step_state(s, step));
        assert(fold_steps(s, steps) == s);
    } else {
        assert(steps.push(step).drop_first() =~= steps.drop_first().push(step));
        assert(steps.push(step)[0] == steps[0]);
        lemma_fold_steps_push(step_state(s, steps[0]), steps.drop_first(), step);
        assert(fold_steps(s, steps) == fold_steps(step_state(s, steps[0]), steps.drop_first()));
    }
}

/// Within a quiet drain, the step at any position spawns no work from the
/// state folded over the steps before it.
pub proof fn lemma_quiet_at(s: State, steps: Seq<AsyncStep>, n: int)
    requires
        quiet(s, steps),
        0 <= n < steps.len(),
    ensures
        spawns_no_work(fold_steps(s, steps.take(n)), steps[n]),
    decreases n,
{
    if n == 0 {
        assert(steps.take(0) =~= Seq::<AsyncStep>::empty());
    } else {
        lemma_quiet_at(step_state(s, steps[0]), steps.drop_first(), n - 1);
        assert(steps.drop_first().take(n - 1) =~= steps.take(n).drop_first());
        assert(steps.drop_first()[n - 1] == steps[n]);
        assert(steps.take(n)[0] == steps[0]);
    }
}

/// Folding a concatenation folds the parts in order.
pub proof fn lemma_fold_steps_concat(s: State, a: Seq<AsyncStep>, b: Seq<AsyncStep>)
    ensures
        fold_steps(s, a + b) == fold_steps(fold_steps(s, a), b),
    decreases a.len(),
{
    if a.len() == 0 {
        assert(a + b =~= b);
    } else {
        assert((a + b)[0] == a[0]);
        assert((a + b).drop_first() =~= a.drop_first() + b);
        lemma_fold_steps_concat(step_state(s, a[0]), a.drop_first(), b);
    }
}

/// A quiet drain stays quiet over any of its prefixes.
pub proof fn lemma_quiet_take(s: State, steps: Seq<AsyncStep>, m: int)
    requires
        quiet(s, steps),
        0 <= m <= steps.len(),
    ensures
        quiet(s, steps.take(m)),
    decreases m,
{
    if m == 0 {
        assert(steps.take(0) =~= Seq::<AsyncStep>::empty());
    } else {
        lemma_quiet_take(step_state(s, steps[0]), steps.drop_first(), m - 1);
        assert(steps.take(m).drop_first() =~= steps.drop_first().take(m - 1));
        assert(steps.take(m)[0] == steps[0]);
    }
}

/// The first `Stop` lies within bounds, is a `Stop`, and none come before it.
pub proof fn lemma_first_stop_props(steps: Seq<AsyncStep>)
    requires
        has_stop(steps),
    ensures
        0 <= first_stop(steps) < steps.len(),
        steps[first_stop(steps)] is Stop,
        forall|i: int| 0 <= i < first_stop(steps) ==> !(steps[i] is Stop),
    decreases steps.len(),
{
    if steps[0] is Stop {
    } else {
        lemma_first_stop_props(steps.drop_first());
        assert forall|i: int| 0 <= i < first_stop(steps) implies !(steps[i] is Stop) by {
            if i > 0 {
                assert(steps.drop_first()[i - 1] == steps[i]);
            }
        }
    }
}

/// A `Stop` with none before it is the first.
pub proof fn lemma_first_stop_at(steps: Seq<AsyncStep>, n: int)
    requires
        0 <= n < steps.len(),
        steps[n] is Stop,
        forall|i: int| 0 <= i < n ==> !(steps[i] is Stop),
    ensures
        has_stop(steps),
        first_stop(steps) == n,
    decreases n,
{
    if n == 0 {
    } else {
        assert forall|i: int| 0 <= i < n - 1 implies !(steps.drop_first()[i] is Stop) by {
            assert(steps.drop_first()[i] == steps[i + 1]);
        }
        assert(steps.drop_first()[n - 1] == steps[n]);
        lemma_first_stop_at(steps.drop_first(), n - 1);
    }
}

} // verus!
