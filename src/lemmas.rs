use vstd::prelude::*;

use crate::engine::{
    drain, enabled_below, enabled_indices, fire_all, firing_log, is_enabled, run_spec, step_spec,
    step_stack, EngineModel, Event, Log,
};
use crate::json;
use crate::polyfill::TransitionModel;

verus! {

/// The state of a run that has not started: the clock at `first_cycle`, no
/// pending work, no log, no count.
pub open spec fn fresh_run(ts: Seq<TransitionModel>, first_cycle: usize) -> EngineModel {
    EngineModel {
        cycle: first_cycle,
        transitions: ts,
        stack: Seq::empty(),
        events: Seq::empty(),
        logs: Seq::empty(),
        event_count: 0,
    }
}

proof fn lemma_enabled_below(ts: Seq<TransitionModel>, cycle: usize, k: int)
    requires
        0 <= k <= ts.len(),
        ts.len() <= usize::MAX,
    ensures
        ({
            let e = enabled_below(ts, cycle, k);
            &&& forall|a: int, b: int| 0 <= a < b < e.len() ==> e[a] < e[b]
            &&& forall|a: int| 0 <= a < e.len() ==> e[a] < k
            &&& forall|i: int|
                0 <= i < k ==> (is_enabled(ts[i], cycle) <==> exists|a: int|
                    0 <= a < e.len() && e[a] == i)
        }),
    decreases k,
{
    if k > 0 {
        lemma_enabled_below(ts, cycle, k - 1);
        let e0 = enabled_below(ts, cycle, k - 1);
        let e = enabled_below(ts, cycle, k);
        if is_enabled(ts[k - 1], cycle) {
            assert(e[e.len() - 1] == k - 1);
        }
        assert forall|i: int| 0 <= i < k implies (is_enabled(ts[i], cycle) <==> exists|a: int|
            0 <= a < e.len() && e[a] == i) by {
            if i < k - 1 {
                if is_enabled(ts[i], cycle) {
                    let a = choose|a: int| 0 <= a < e0.len() && e0[a] == i;
                    assert(e[a] == i);
                }
                if exists|a: int| 0 <= a < e.len() && e[a] == i {
                    let a = choose|a: int| 0 <= a < e.len() && e[a] == i;
                    assert(a < e0.len());
                    assert(e0[a] == i);
                }
            } else if is_enabled(ts[i], cycle) {
                assert(e[e.len() - 1] == i);
            }
        }
    }
}

proof fn lemma_firing_log(stack: Seq<usize>, cycle: usize)
    ensures
        firing_log(stack, cycle).len() == stack.len(),
        forall|k: int|
            0 <= k < stack.len() ==> #[trigger] firing_log(stack, cycle)[k] == (Log {
                estimulated_transition_index: stack[stack.len() - 1 - k],
                cycle,
            }),
    decreases stack.len(),
{
    if stack.len() > 0 {
        lemma_firing_log(stack.drop_last(), cycle);
    }
}

proof fn lemma_drain_counts(ts: Seq<TransitionModel>, queue: Seq<Event>, count: usize)
    requires
        drain(ts, queue, count) is Ok,
    ensures
        drain(ts, queue, count)->Ok_0.1 == count + queue.len(),
    decreases queue.len(),
{
    if queue.len() > 0 {
        let ev = queue[0];
        let t = ts[ev.transition_index as int];
        let v = t.constant.checked_add(ev.constant)->Some_0;
        lemma_drain_counts(
            ts.update(ev.transition_index as int, TransitionModel { constant: v, cycle: ev.cycle, ..t }),
            queue.subrange(1, queue.len() as int),
            (count + 1) as usize,
        );
    }
}

/// In a step that starts with an empty stack, the transitions that fire are
/// exactly those enabled at the step's cycle, and they fire in strictly
/// descending order of position, each logged at that cycle.
pub proof fn lemma_step_fires_enabled_descending(m: EngineModel, last_cycle: usize)
    requires
        m.transitions.len() <= usize::MAX,
        m.stack.len() == 0,
        step_spec(m, last_cycle) is Ok,
    ensures
        ({
            let m1 = step_spec(m, last_cycle)->Ok_0;
            let fired = m1.logs.subrange(m.logs.len() as int, m1.logs.len() as int);
            &&& m1.logs.subrange(0, m.logs.len() as int) == m.logs
            &&& forall|a: int, b: int|
                0 <= a < b < fired.len() ==> fired[a].estimulated_transition_index
                    > fired[b].estimulated_transition_index
            &&& forall|a: int| 0 <= a < fired.len() ==> fired[a].cycle == m.cycle
            &&& forall|i: int|
                0 <= i < m.transitions.len() ==> (is_enabled(m.transitions[i], m.cycle)
                    <==> exists|a: int|
                    0 <= a < fired.len() && fired[a].estimulated_transition_index == i)
        }),
{
    let m1 = step_spec(m, last_cycle)->Ok_0;
    let e = enabled_indices(m.transitions, m.cycle);
    assert(step_stack(m) =~= e);
    lemma_enabled_below(m.transitions, m.cycle, m.transitions.len() as int);
    lemma_firing_log(e, m.cycle);
    let log = firing_log(e, m.cycle);
    let fired = m1.logs.subrange(m.logs.len() as int, m1.logs.len() as int);
    assert(fired =~= log);
    assert(m1.logs.subrange(0, m.logs.len() as int) =~= m.logs);
    assert forall|i: int| 0 <= i < m.transitions.len() implies (is_enabled(
        m.transitions[i],
        m.cycle,
    ) <==> exists|a: int| 0 <= a < fired.len() && fired[a].estimulated_transition_index == i) by {
        if is_enabled(m.transitions[i], m.cycle) {
            let a = choose|a: int| 0 <= a < e.len() && e[a] == i;
            assert(fired[e.len() - 1 - a].estimulated_transition_index == i);
        }
        if exists|a: int| 0 <= a < fired.len() && fired[a].estimulated_transition_index == i {
            let a = choose|a: int|
                0 <= a < fired.len() && fired[a].estimulated_transition_index == i;
            assert(e[e.len() - 1 - a] == i);
        }
    }
}

/// A step adds to the count exactly the events that it applies: those in the
/// queue once firing is over. None is left pending.
pub proof fn lemma_step_counts_applied_events(m: EngineModel, last_cycle: usize)
    requires
        step_spec(m, last_cycle) is Ok,
    ensures
        ({
            let m1 = step_spec(m, last_cycle)->Ok_0;
            let queued = fire_all(m.transitions, m.events, step_stack(m))->Ok_0.1;
            &&& m1.event_count == m.event_count + queued.len()
            &&& m1.events.len() == 0
        }),
{
    let (ts1, q1) = fire_all(m.transitions, m.events, step_stack(m))->Ok_0;
    lemma_drain_counts(ts1, q1, m.event_count);
}

/// How many events the completed steps of `n` steps from `m` apply: for each
/// step, the events in the queue once its firing is over.
pub open spec fn applied_in_run(m: EngineModel, n: nat, last_cycle: usize) -> nat
    decreases n,
{
    if n == 0 {
        0
    } else {
        match step_spec(m, last_cycle) {
            Err(_) => 0,
            Ok(m1) => fire_all(m.transitions, m.events, step_stack(m))->Ok_0.1.len()
                + applied_in_run(m1, (n - 1) as nat, last_cycle),
        }
    }
}

/// The count at the end of a run is the count it started with plus every
/// event applied by a step that completed; a step that failed adds nothing.
pub proof fn lemma_run_counts_applied_events(m: EngineModel, n: nat, last_cycle: usize)
    ensures
        run_spec(m, n, last_cycle).0.event_count == m.event_count + applied_in_run(
            m,
            n,
            last_cycle,
        ),
    decreases n,
{
    if n > 0 {
        if let Ok(m1) = step_spec(m, last_cycle) {
            lemma_step_counts_applied_events(m, last_cycle);
            lemma_run_counts_applied_events(m1, (n - 1) as nat, last_cycle);
        }
    }
}

/// Two runs over the same ingested records, between the same cycles, end in
/// the same state with the same log and count, or stop on the same error.
pub proof fn lemma_replay_is_identical(
    a: json::Lefs,
    b: json::Lefs,
    first_cycle: usize,
    steps: nat,
    last_cycle: usize,
)
    requires
        a@ == b@,
    ensures
        run_spec(fresh_run(a@, first_cycle), steps, last_cycle) == run_spec(
            fresh_run(b@, first_cycle),
            steps,
            last_cycle,
        ),
{
}

/// A network without transitions never fires and never applies an event,
/// however many steps are run.
pub proof fn lemma_empty_network_is_quiet(first_cycle: usize, steps: nat, last_cycle: usize)
    ensures
        ({
            let (m, err) = run_spec(fresh_run(Seq::empty(), first_cycle), steps, last_cycle);
            &&& err is None
            &&& m.logs.len() == 0
            &&& m.event_count == 0
        }),
    decreases steps,
{
    let m = fresh_run(Seq::empty(), first_cycle);
    if steps > 0 {
        assert(step_stack(m) =~= Seq::<usize>::empty());
        assert(m.logs + firing_log(Seq::<usize>::empty(), m.cycle) =~= Seq::<Log>::empty());
        assert(step_spec(m, last_cycle) == Ok::<EngineModel, crate::error::RunError>(
            fresh_run(Seq::empty(), last_cycle),
        ));
        lemma_empty_network_is_quiet(last_cycle, (steps - 1) as nat, last_cycle);
    }
}

} // verus!
