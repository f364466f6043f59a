use vstd::prelude::*;

use crate::error::RunError;
use crate::polyfill::{Lefs, Payload, TransitionModel};
use std::collections::VecDeque;

verus! {

/// A deferred effect waiting in the queue: add `constant` to the marking of
/// the transition at `transition_index`, and set its cycle to `cycle`.
#[derive(Clone, Copy, Debug, PartialEq, Eq, Structural)]
pub struct Event {
    pub cycle: usize,
    pub transition_index: usize,
    pub constant: isize,
}

/// One entry of the firing log: which transition fired, at which cycle.
#[derive(Clone, Copy, Debug, PartialEq, Eq, Structural)]
pub struct Log {
    pub estimulated_transition_index: usize,
    pub cycle: usize,
}

/// The state of one simulation run.
#[derive(Debug)]
pub struct Engine {
    pub cycle: usize,
    pub lefs: Lefs,
    /// Pending deferred effects; the front is the most recently scheduled.
    pub events: VecDeque<Event>,
    /// Every firing so far, in order.
    pub logs: Vec<Log>,
    /// How many events have been applied so far.
    pub event_count: usize,
}

/// The mathematical value of a run's state.
pub struct EngineModel {
    pub cycle: usize,
    pub transitions: Seq<TransitionModel>,
    pub stack: Seq<usize>,
    pub events: Seq<Event>,
    pub logs: Seq<Log>,
    pub event_count: usize,
}

impl View for Engine {
    type V = EngineModel;

    open spec fn view(&self) -> EngineModel {
        EngineModel {
            cycle: self.cycle,
            transitions: self.lefs.transitions_view(),
            stack: self.lefs.estimulated_transition_indices@,
            events: self.events@,
            logs: self.logs@,
            event_count: self.event_count,
        }
    }
}

/// A transition is enabled at `cycle` when its marking is not positive and
/// its cycle is `cycle`.
pub open spec fn is_enabled(t: TransitionModel, cycle: usize) -> bool {
    t.constant <= 0 && t.cycle == cycle
}

/// The positions below `k` of the transitions enabled at `cycle`, ascending.
pub open spec fn enabled_below(ts: Seq<TransitionModel>, cycle: usize, k: int) -> Seq<usize>
    decreases k,
{
    if k <= 0 {
        Seq::empty()
    } else if is_enabled(ts[k - 1], cycle) {
        enabled_below(ts, cycle, k - 1).push((k - 1) as usize)
    } else {
        enabled_below(ts, cycle, k - 1)
    }
}

/// The positions of all transitions enabled at `cycle`, ascending.
pub open spec fn enabled_indices(ts: Seq<TransitionModel>, cycle: usize) -> Seq<usize> {
    enabled_below(ts, cycle, ts.len() as int)
}

/// Adds `delta` to the marking at `target`.
pub open spec fn add_to(ts: Seq<TransitionModel>, target: usize, delta: isize) -> Result<
    Seq<TransitionModel>,
    RunError,
> {
    if target >= ts.len() {
        Err(RunError::Index(target))
    } else {
        match ts[target as int].constant.checked_add(delta) {
            None => Err(RunError::Overflow),
            Some(v) => Ok(ts.update(target as int, TransitionModel { constant: v, ..ts[target as int] })),
        }
    }
}

/// Applies the immediate effects in order; the first that fails stops it.
pub open spec fn apply_immediate(ts: Seq<TransitionModel>, effects: Seq<Payload>) -> Result<
    Seq<TransitionModel>,
    RunError,
>
    decreases effects.len(),
{
    if effects.len() == 0 {
        Ok(ts)
    } else {
        match apply_immediate(ts, effects.drop_last()) {
            Err(e) => Err(e),
            Ok(ts1) => add_to(ts1, effects.last().transition_index, effects.last().constant),
        }
    }
}

/// The event that a deferred effect becomes when it is due at `due`.
pub open spec fn event_of(p: Payload, due: usize) -> Event {
    Event { cycle: due, transition_index: p.transition_index, constant: p.constant }
}

/// The queue after the deferred effects were pushed, in order, to its front.
pub open spec fn schedule(effects: Seq<Payload>, due: usize, queue: Seq<Event>) -> Seq<Event>
    decreases effects.len(),
{
    if effects.len() == 0 {
        queue
    } else {
        seq![event_of(effects.last(), due)] + schedule(effects.drop_last(), due, queue)
    }
}

/// Fires the transition at position `i`: its immediate effects change the
/// markings, its deferred effects are queued, due at its cycle plus its delay.
pub open spec fn fire_spec(ts: Seq<TransitionModel>, queue: Seq<Event>, i: usize) -> Result<
    (Seq<TransitionModel>, Seq<Event>),
    RunError,
> {
    if i >= ts.len() {
        Err(RunError::Index(i))
    } else {
        let t = ts[i as int];
        match apply_immediate(ts, t.iul) {
            Err(e) => Err(e),
            Ok(ts1) => if t.pul.len() == 0 {
                Ok((ts1, queue))
            } else {
                match t.cycle.checked_add(t.duration) {
                    None => Err(RunError::Overflow),
                    Some(due) => Ok((ts1, schedule(t.pul, due, queue))),
                }
            },
        }
    }
}

/// Pops the stack empty, firing each position popped.
pub open spec fn fire_all(ts: Seq<TransitionModel>, queue: Seq<Event>, stack: Seq<usize>) -> Result<
    (Seq<TransitionModel>, Seq<Event>),
    RunError,
>
    decreases stack.len(),
{
    if stack.len() == 0 {
        Ok((ts, queue))
    } else {
        match fire_spec(ts, queue, stack.last()) {
            Err(e) => Err(e),
            Ok((ts1, q1)) => fire_all(ts1, q1, stack.drop_last()),
        }
    }
}

/// The log entries of popping the stack empty at `cycle`: last pushed first.
pub open spec fn firing_log(stack: Seq<usize>, cycle: usize) -> Seq<Log>
    decreases stack.len(),
{
    if stack.len() == 0 {
        Seq::empty()
    } else {
        seq![Log { estimulated_transition_index: stack.last(), cycle }] + firing_log(
            stack.drop_last(),
            cycle,
        )
    }
}

/// Applies every queued event from the front, counting each.
pub open spec fn drain(ts: Seq<TransitionModel>, queue: Seq<Event>, count: usize) -> Result<
    (Seq<TransitionModel>, usize),
    RunError,
>
    decreases queue.len(),
{
    if queue.len() == 0 {
        Ok((ts, count))
    } else {
        let ev = queue[0];
        if ev.transition_index >= ts.len() {
            Err(RunError::Index(ev.transition_index))
        } else {
            let t = ts[ev.transition_index as int];
            match t.constant.checked_add(ev.constant) {
                None => Err(RunError::Overflow),
                Some(v) => match count.checked_add(1) {
                    None => Err(RunError::Overflow),
                    Some(c) => drain(
                        ts.update(
                            ev.transition_index as int,
                            TransitionModel { constant: v, cycle: ev.cycle, ..t },
                        ),
                        queue.subrange(1, queue.len() as int),
                        c,
                    ),
                },
            }
        }
    }
}

/// The stack that a step pops: what it held, then the enabled positions.
pub open spec fn step_stack(m: EngineModel) -> Seq<usize> {
    m.stack + enabled_indices(m.transitions, m.cycle)
}

/// One step: fire every enabled transition, move the clock to the due cycle
/// of the event at the front of the queue (to `last_cycle` when it is empty),
/// then apply and count every queued event.
pub open spec fn step_spec(m: EngineModel, last_cycle: usize) -> Result<EngineModel, RunError> {
    let stack = step_stack(m);
    match fire_all(m.transitions, m.events, stack) {
        Err(e) => Err(e),
        Ok((ts1, q1)) => match drain(ts1, q1, m.event_count) {
            Err(e) => Err(e),
            Ok((ts2, c)) => Ok(
                EngineModel {
                    cycle: if q1.len() > 0 {
                        q1[0].cycle
                    } else {
                        last_cycle
                    },
                    transitions: ts2,
                    stack: Seq::empty(),
                    events: Seq::empty(),
                    logs: m.logs + firing_log(stack, m.cycle),
                    event_count: c,
                },
            ),
        },
    }
}

/// `n` steps: the state after the last step that completed, and the error
/// that stopped the next one, if one did.
pub open spec fn run_spec(m: EngineModel, n: nat, last_cycle: usize) -> (EngineModel, Option<RunError>)
    decreases n,
{
    if n == 0 {
        (m, None)
    } else {
        match step_spec(m, last_cycle) {
            Err(e) => (m, Some(e)),
            Ok(m1) => run_spec(m1, (n - 1) as nat, last_cycle),
        }
    }
}

/// How many steps a run from `first_cycle` to `last_cycle` makes.
pub open spec fn step_count(first_cycle: usize, last_cycle: usize) -> nat {
    if first_cycle < last_cycle {
        (last_cycle - first_cycle) as nat
    } else {
        0
    }
}

/// The state a run starts from: the engine's, with the clock at `first_cycle`.
pub open spec fn start_of(m: EngineModel, first_cycle: usize) -> EngineModel {
    EngineModel { cycle: first_cycle, ..m }
}

/// An error in the first `k` immediate effects is the error of the whole list.
proof fn lemma_immediate_error_stays(ts: Seq<TransitionModel>, effects: Seq<Payload>, k: int)
    requires
        0 <= k <= effects.len(),
        apply_immediate(ts, effects.take(k)) is Err,
    ensures
        apply_immediate(ts, effects) == apply_immediate(ts, effects.take(k)),
    decreases effects.len() - k,
{
    if k == effects.len() {
        assert(effects.take(k) =~= effects);
    } else {
        assert(effects.take(k + 1).drop_last() =~= effects.take(k));
        lemma_immediate_error_stays(ts, effects, k + 1);
    }
}

impl Engine {
    /// A run over `lefs`, at cycle 0, with no events, no log and no count.
    pub fn new(lefs: Lefs) -> (r: Engine)
        ensures
            r@ == (EngineModel {
                cycle: 0,
                transitions: lefs.transitions_view(),
                stack: lefs.estimulated_transition_indices@,
                events: Seq::empty(),
                logs: Seq::empty(),
                event_count: 0,
            }),
    {
        let r = Engine { cycle: 0, lefs, events: VecDeque::new(), logs: Vec::new(), event_count: 0 };
        assert(r.logs@ =~= Seq::<Log>::empty());
        r
    }

    /// Pushes the position of every enabled transition, in ascending order.
    fn pep(&mut self)
        ensures
            final(self)@ == (EngineModel { stack: step_stack(old(self)@), ..old(self)@ }),
    {
        let n = self.lefs.transitions.len();
        let mut i: usize = 0;
        while i < n
            invariant
                n == self.lefs.transitions@.len(),
                i <= n,
                self@ == (EngineModel {
                    stack: old(self)@.stack + enabled_below(old(self)@.transitions, old(self)@.cycle, i as int),
                    ..old(self)@
                }),
            decreases n - i,
        {
            let t = &self.lefs.transitions[i];
            if t.constant <= 0 && t.cycle == self.cycle {
                self.lefs.estimulated_transition_indices.push(i);
            }
            i += 1;
        }
    }

    /// Adds `delta` to the marking at `target`.
    fn add_constant(&mut self, target: usize, delta: isize) -> (r: Result<(), RunError>)
        ensures
            match add_to(old(self)@.transitions, target, delta) {
                Ok(ts) => r is Ok && final(self)@ == (EngineModel { transitions: ts, ..old(self)@ }),
                Err(e) => r == Err::<(), RunError>(e) && final(self)@ == old(self)@,
            },
    {
        if target >= self.lefs.transitions.len() {
            return Err(RunError::Index(target));
        }
        match self.lefs.transitions[target].constant.checked_add(delta) {
            None => Err(RunError::Overflow),
            Some(v) => {
                let ghost ts0 = self@.transitions;
                self.lefs.transitions[target].constant = v;
                assert(self@.transitions =~= ts0.update(
                    target as int,
                    TransitionModel { constant: v, ..ts0[target as int] },
                ));
                Ok(())
            },
        }
    }

    /// Fires the transition at position `i`, as `fire_spec` says. Effects read
    /// the transition as it was before its own immediate effects.
    fn fire(&mut self, i: usize) -> (r: Result<(), RunError>)
        ensures
            match fire_spec(old(self)@.transitions, old(self)@.events, i) {
                Ok((ts, q)) => r is Ok && final(self)@ == (EngineModel {
                    transitions: ts,
                    events: q,
                    ..old(self)@
                }),
                Err(e) => r == Err::<(), RunError>(e) && final(self)@.logs == old(self)@.logs
                    && final(self)@.event_count == old(self)@.event_count && final(self)@.stack
                    == old(self)@.stack && final(self)@.cycle == old(self)@.cycle,
            },
    {
        if i >= self.lefs.transitions.len() {
            return Err(RunError::Index(i));
        }
        let ghost m0 = self@;
        let ghost t0 = self@.transitions[i as int];
        let n_imm = self.lefs.transitions[i].iul_payloads.len();
        let mut k: usize = 0;
        while k < n_imm
            invariant
                m0 == old(self)@,
                i < m0.transitions.len(),
                t0 == m0.transitions[i as int],
                i < self@.transitions.len(),
                n_imm == t0.iul.len(),
                k <= n_imm,
                self@.transitions[i as int].iul == t0.iul,
                self@.transitions[i as int].pul == t0.pul,
                self@.transitions[i as int].cycle == t0.cycle,
                self@.transitions[i as int].duration == t0.duration,
                apply_immediate(m0.transitions, t0.iul.take(k as int)) == Ok::<
                    Seq<TransitionModel>,
                    RunError,
                >(self@.transitions),
                self@ == (EngineModel { transitions: self@.transitions, ..m0 }),
            decreases n_imm - k,
        {
            let p = self.lefs.transitions[i].iul_payloads[k];
            assert(t0.iul.take(k + 1).drop_last() =~= t0.iul.take(k as int));
            match self.add_constant(p.transition_index, p.constant) {
                Err(e) => {
                    assert(apply_immediate(m0.transitions, t0.iul.take(k + 1)) == Err::<
                        Seq<TransitionModel>,
                        RunError,
                    >(e));
                    proof {
                        lemma_immediate_error_stays(m0.transitions, t0.iul, (k + 1) as int);
                        assert(apply_immediate(m0.transitions, t0.iul) is Err);
                    }
                    return Err(e);
                },
                Ok(()) => {},
            }
            k += 1;
        }
        assert(t0.iul.take(n_imm as int) =~= t0.iul);
        let n_def = self.lefs.transitions[i].pul_payloads.len();
        if n_def > 0 {
            let due = match self.lefs.transitions[i].cycle.checked_add(
                self.lefs.transitions[i].duration,
            ) {
                None => {
                    return Err(RunError::Overflow);
                },
                Some(d) => d,
            };
            let ghost m1 = self@;
            let mut k: usize = 0;
            while k < n_def
                invariant
                    i < self@.transitions.len(),
                    n_def == t0.pul.len(),
                    k <= n_def,
                    self@.transitions[i as int].pul == t0.pul,
                    self@.events == schedule(t0.pul.take(k as int), due, m0.events),
                    self@ == (EngineModel { events: self@.events, ..m1 }),
                decreases n_def - k,
            {
                let p = self.lefs.transitions[i].pul_payloads[k];
                self.events.push_front(
                    Event { cycle: due, transition_index: p.transition_index, constant: p.constant },
                );
                assert(t0.pul.take(k + 1).drop_last() =~= t0.pul.take(k as int));
                k += 1;
            }
            assert(t0.pul.take(n_def as int) =~= t0.pul);
        }
        Ok(())
    }

    /// Applies and counts every queued event, from the front, as `drain` says.
    fn aftermath(&mut self) -> (r: Result<(), RunError>)
        ensures
            match drain(old(self)@.transitions, old(self)@.events, old(self)@.event_count) {
                Ok((ts, c)) => r is Ok && final(self)@ == (EngineModel {
                    transitions: ts,
                    events: Seq::empty(),
                    event_count: c,
                    ..old(self)@
                }),
                Err(e) => r == Err::<(), RunError>(e) && final(self)@.logs == old(self)@.logs,
            },
    {
        let ghost m0 = self@;
        while self.events.len() > 0
            invariant
                m0 == old(self)@,
                drain(self@.transitions, self@.events, self@.event_count) == drain(
                    m0.transitions,
                    m0.events,
                    m0.event_count,
                ),
                self@ == (EngineModel {
                    transitions: self@.transitions,
                    events: self@.events,
                    event_count: self@.event_count,
                    ..m0
                }),
            decreases self@.events.len(),
        {
            let ghost before = self@;
            let ev = self.events[0];
            let _ = self.events.pop_front();
            let target = ev.transition_index;
            if target >= self.lefs.transitions.len() {
                assert(drain(before.transitions, before.events, before.event_count) is Err);
                return Err(RunError::Index(target));
            }
            let v = match self.lefs.transitions[target].constant.checked_add(ev.constant) {
                None => {
                    assert(drain(before.transitions, before.events, before.event_count) is Err);
                    return Err(RunError::Overflow);
                },
                Some(v) => v,
            };
            let c = match self.event_count.checked_add(1) {
                None => {
                    assert(drain(before.transitions, before.events, before.event_count) is Err);
                    return Err(RunError::Overflow);
                },
                Some(c) => c,
            };
            let ghost ts0 = self@.transitions;
            self.lefs.transitions[target].constant = v;
            self.lefs.transitions[target].cycle = ev.cycle;
            self.event_count = c;
            assert(self@.transitions =~= ts0.update(
                target as int,
                TransitionModel { constant: v, cycle: ev.cycle, ..ts0[target as int] },
            ));
        }
        assert(self@.events =~= Seq::<Event>::empty());
        Ok(())
    }

    /// One step, as `step_spec` says. When it fails, the log and the count
    /// are as they were before it.
    fn step(&mut self, last_cycle: usize) -> (r: Result<(), RunError>)
        ensures
            match step_spec(old(self)@, last_cycle) {
                Ok(m) => r is Ok && final(self)@ == m,
                Err(e) => r == Err::<(), RunError>(e) && final(self)@.logs == old(self)@.logs
                    && final(self)@.event_count == old(self)@.event_count,
            },
    {
        let ghost m0 = self@;
        let log_len = self.logs.len();
        let count0 = self.event_count;
        self.pep();
        let ghost stack0 = self@.stack;
        while self.lefs.estimulated_transition_indices.len() > 0
            invariant
                m0 == old(self)@,
                stack0 == step_stack(m0),
                log_len == m0.logs.len(),
                count0 == m0.event_count,
                self@.cycle == m0.cycle,
                self@.event_count == m0.event_count,
                fire_all(self@.transitions, self@.events, self@.stack) == fire_all(
                    m0.transitions,
                    m0.events,
                    stack0,
                ),
                m0.logs + firing_log(stack0, m0.cycle) == self@.logs + firing_log(
                    self@.stack,
                    m0.cycle,
                ),
                log_len <= self@.logs.len(),
                self@.logs.subrange(0, log_len as int) == m0.logs,
            decreases self@.stack.len(),
        {
            let ghost before = self@;
            let i = self.lefs.estimulated_transition_indices.pop().unwrap();
            assert(before.stack.drop_last() == self@.stack);
            match self.fire(i) {
                Err(e) => {
                    self.logs.truncate(log_len);
                    return Err(e);
                },
                Ok(()) => {},
            }
            let ghost logs1 = self@.logs;
            self.logs.push(Log { estimulated_transition_index: i, cycle: self.cycle });
            assert(self@.logs + firing_log(self@.stack, m0.cycle) =~= logs1 + firing_log(
                before.stack,
                m0.cycle,
            ));
            assert(self@.logs.subrange(0, log_len as int) =~= logs1.subrange(0, log_len as int));
        }
        assert(self@.logs + firing_log(self@.stack, m0.cycle) =~= self@.logs);
        let next = if self.events.len() > 0 {
            self.events[0].cycle
        } else {
            last_cycle
        };
        self.cycle = next;
        match self.aftermath() {
            Err(e) => {
                self.logs.truncate(log_len);
                self.event_count = count0;
                Err(e)
            },
            Ok(()) => {
                assert(self@.stack =~= Seq::<usize>::empty());
                Ok(())
            },
        }
    }

    /// Runs `last_cycle - first_cycle` steps (none when `first_cycle` is not
    /// below `last_cycle`) from the clock set to `first_cycle`. The log and
    /// the count end as the last step that completed left them; the error is
    /// the one that stopped the next step.
    pub fn simulate(&mut self, first_cycle: usize, last_cycle: usize) -> (r: Result<(), RunError>)
        ensures
            ({
                let (m, err) = run_spec(
                    start_of(old(self)@, first_cycle),
                    step_count(first_cycle, last_cycle),
                    last_cycle,
                );
                &&& final(self)@.logs == m.logs
                &&& final(self)@.event_count == m.event_count
                &&& match err {
                    None => r is Ok && final(self)@ == m,
                    Some(e) => r == Err::<(), RunError>(e),
                }
            }),
    {
        self.cycle = first_cycle;
        let ghost start = self@;
        let mut j: usize = first_cycle;
        while j < last_cycle
            invariant
                start == start_of(old(self)@, first_cycle),
                first_cycle <= j,
                run_spec(self@, step_count(j, last_cycle), last_cycle) == run_spec(
                    start,
                    step_count(first_cycle, last_cycle),
                    last_cycle,
                ),
            decreases last_cycle - j,
        {
            match self.step(last_cycle) {
                Err(e) => {
                    return Err(e);
                },
                Ok(()) => {},
            }
            j += 1;
        }
        Ok(())
    }
}

} // verus!
