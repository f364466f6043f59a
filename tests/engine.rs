use censim::engine::{Engine, Log};
use censim::error::RunError;
use censim::json;
use censim::polyfill::{Lefs, Payload, Transition};

fn effect(transition_index: usize, constant: isize) -> Payload {
    Payload { transition_index, constant }
}

fn transition(
    id: usize,
    constant: isize,
    cycle: usize,
    duration: usize,
    iul: Vec<Payload>,
    pul: Vec<Payload>,
) -> Transition {
    Transition { id, constant, cycle, duration, iul_payloads: iul, pul_payloads: pul }
}

fn engine_of(transitions: Vec<Transition>) -> Engine {
    Engine::new(Lefs { transitions, estimulated_transition_indices: vec![] })
}

fn log(index: usize, cycle: usize) -> Log {
    Log { estimulated_transition_index: index, cycle }
}

fn record(
    id: usize,
    value: isize,
    cycle: usize,
    delay: usize,
    iul: Vec<(usize, isize)>,
    pul: Vec<(usize, isize)>,
) -> json::Transition {
    json::Transition {
        ii_idglobal: id,
        ii_valor: value,
        ii_tiempo: cycle,
        ii_duracion_disparo: delay,
        ii_listactes_iul: iul.into_iter().map(|(t, d)| json::Payload(t, d)).collect(),
        ii_listactes_pul: pul.into_iter().map(|(t, d)| json::Payload(t, d)).collect(),
    }
}

#[test]
fn single_deferred_effect_scenario() {
    let mut engine = engine_of(vec![
        transition(0, 0, 0, 2, vec![], vec![effect(1, 5)]),
        transition(1, 10, 0, 0, vec![], vec![]),
    ]);
    assert_eq!(engine.simulate(0, 3), Ok(()));
    assert_eq!(engine.logs, vec![log(0, 0)]);
    assert_eq!(engine.event_count, 1);
    assert_eq!(engine.lefs.transitions[1].constant, 15);
    assert_eq!(engine.lefs.transitions[1].cycle, 2);
    assert_eq!(engine.lefs.transitions[0].constant, 0);
    assert_eq!(engine.lefs.transitions[0].cycle, 0);
    assert!(engine.events.is_empty());
    assert!(engine.lefs.estimulated_transition_indices.is_empty());
}

#[test]
fn empty_network_is_quiet() {
    for last in [0usize, 1, 3, 50] {
        let mut engine = engine_of(vec![]);
        assert_eq!(engine.simulate(0, last), Ok(()));
        assert!(engine.logs.is_empty());
        assert_eq!(engine.event_count, 0);
    }
}

#[test]
fn enabled_transitions_fire_in_descending_order() {
    let mut engine = engine_of(vec![
        transition(10, 0, 0, 0, vec![], vec![]),
        transition(11, 1, 0, 0, vec![], vec![]),
        transition(12, -3, 0, 0, vec![], vec![]),
        transition(13, 0, 4, 0, vec![], vec![]),
        transition(14, -1, 0, 0, vec![], vec![]),
    ]);
    assert_eq!(engine.simulate(0, 1), Ok(()));
    assert_eq!(engine.logs, vec![log(4, 0), log(2, 0), log(0, 0)]);
}

#[test]
fn immediate_effects_do_not_enable_within_a_step() {
    // T0 lowers T1 to zero at once, but T1 is only enabled on a later scan.
    let mut engine = engine_of(vec![
        transition(0, 0, 0, 0, vec![effect(1, -1)], vec![]),
        transition(1, 1, 0, 0, vec![], vec![]),
    ]);
    assert_eq!(engine.simulate(0, 1), Ok(()));
    assert_eq!(engine.logs, vec![log(0, 0)]);
    assert_eq!(engine.lefs.transitions[1].constant, 0);
    assert_eq!(engine.cycle, 1);
}

#[test]
fn applied_event_count_sums_drained_events() {
    // Two deferred effects in the first step, then one in each of the next
    // two: T1's event is due at the cycle it fires in, so it stays enabled.
    let mut engine = engine_of(vec![
        transition(0, 0, 0, 1, vec![], vec![effect(1, -1), effect(2, 4)]),
        transition(1, 1, 0, 0, vec![], vec![effect(2, 1)]),
        transition(2, 9, 0, 0, vec![], vec![]),
    ]);
    assert_eq!(engine.simulate(0, 3), Ok(()));
    assert_eq!(engine.logs, vec![log(0, 0), log(1, 1), log(1, 1)]);
    assert_eq!(engine.event_count, 4);
    assert_eq!(engine.lefs.transitions[2].constant, 15);
    assert_eq!(engine.lefs.transitions[2].cycle, 1);
}

#[test]
fn front_of_queue_sets_next_cycle() {
    // T1 fires first and queues an event due at 5; T0 then queues one due at
    // 2 in front of it, and that one sets the clock.
    let mut engine = engine_of(vec![
        transition(0, 0, 0, 2, vec![], vec![effect(2, 1)]),
        transition(1, 0, 0, 5, vec![], vec![effect(2, 1)]),
        transition(2, 7, 0, 0, vec![], vec![]),
    ]);
    assert_eq!(engine.simulate(0, 1), Ok(()));
    assert_eq!(engine.logs, vec![log(1, 0), log(0, 0)]);
    assert_eq!(engine.cycle, 2);
    // Both events were applied; the one from the back was applied last.
    assert_eq!(engine.lefs.transitions[2].constant, 9);
    assert_eq!(engine.lefs.transitions[2].cycle, 5);
    assert_eq!(engine.event_count, 2);
}

#[test]
fn empty_queue_sets_clock_to_last_cycle() {
    let mut engine = engine_of(vec![transition(0, 5, 0, 0, vec![], vec![])]);
    assert_eq!(engine.simulate(0, 4), Ok(()));
    assert_eq!(engine.cycle, 4);
    assert!(engine.logs.is_empty());
}

#[test]
fn firing_reads_snapshot_of_itself() {
    let mut engine = engine_of(vec![transition(0, 0, 0, 3, vec![effect(0, 5)], vec![effect(0, 1)])]);
    assert_eq!(engine.simulate(0, 1), Ok(()));
    assert_eq!(engine.lefs.transitions[0].constant, 6);
    assert_eq!(engine.lefs.transitions[0].cycle, 3);
    assert_eq!(engine.cycle, 3);
    assert_eq!(engine.logs, vec![log(0, 0)]);
}

#[test]
fn no_steps_when_first_cycle_not_below_last() {
    let mut engine = engine_of(vec![transition(0, 0, 7, 0, vec![], vec![])]);
    assert_eq!(engine.simulate(7, 7), Ok(()));
    assert_eq!(engine.cycle, 7);
    assert!(engine.logs.is_empty());
    assert_eq!(engine.simulate(9, 2), Ok(()));
    assert_eq!(engine.cycle, 9);
    assert!(engine.logs.is_empty());
}

#[test]
fn fixed_step_count_after_clock_jump() {
    // The clock jumps to 10 in the first step; the run still makes all three
    // steps, and T1 fires in the second one at cycle 10.
    let mut engine = engine_of(vec![
        transition(0, 0, 0, 10, vec![], vec![effect(1, -2)]),
        transition(1, 2, 0, 0, vec![], vec![]),
    ]);
    assert_eq!(engine.simulate(0, 3), Ok(()));
    assert_eq!(engine.logs, vec![log(0, 0), log(1, 10)]);
    assert_eq!(engine.cycle, 3);
}

#[test]
fn out_of_range_immediate_target_aborts() {
    let mut engine = engine_of(vec![
        transition(0, 0, 0, 1, vec![], vec![effect(1, -1)]),
        transition(1, 1, 0, 0, vec![effect(7, 1)], vec![]),
    ]);
    assert_eq!(engine.simulate(0, 5), Err(RunError::Index(7)));
    assert_eq!(engine.logs, vec![log(0, 0)]);
    assert_eq!(engine.event_count, 1);
}

#[test]
fn out_of_range_deferred_target_aborts() {
    let mut engine = engine_of(vec![
        transition(0, 0, 0, 1, vec![], vec![effect(1, -1)]),
        transition(1, 1, 0, 2, vec![], vec![effect(0, 1), effect(3, 1)]),
    ]);
    assert_eq!(engine.simulate(0, 5), Err(RunError::Index(3)));
    assert_eq!(engine.logs, vec![log(0, 0)]);
    assert_eq!(engine.event_count, 1);
}

#[test]
fn out_of_range_stacked_position_aborts() {
    let mut engine = Engine::new(Lefs {
        transitions: vec![transition(0, 0, 0, 0, vec![], vec![])],
        estimulated_transition_indices: vec![9],
    });
    assert_eq!(engine.simulate(0, 2), Err(RunError::Index(9)));
    assert!(engine.logs.is_empty());
    assert_eq!(engine.event_count, 0);
}

#[test]
fn marking_overflow_aborts() {
    let mut engine = engine_of(vec![
        transition(0, 0, 0, 0, vec![effect(1, 1)], vec![]),
        transition(1, isize::MAX, 0, 0, vec![], vec![]),
    ]);
    assert_eq!(engine.simulate(0, 1), Err(RunError::Overflow));
    assert!(engine.logs.is_empty());
}

#[test]
fn due_cycle_overflow_aborts() {
    let mut engine = engine_of(vec![transition(0, 0, 0, usize::MAX, vec![], vec![])]);
    assert_eq!(engine.simulate(0, 1), Ok(()));
    let mut engine = engine_of(vec![transition(0, 0, 1, usize::MAX, vec![], vec![effect(0, 1)])]);
    assert_eq!(engine.simulate(1, 2), Err(RunError::Overflow));
}

#[test]
fn ingestion_keeps_record_order() {
    let records = json::Lefs {
        ia_red: vec![
            record(42, 0, 0, 2, vec![], vec![(1, 5)]),
            record(7, 10, 0, 0, vec![(0, -3)], vec![]),
        ],
    };
    let lefs = Lefs::new(records);
    assert_eq!(lefs.transitions.len(), 2);
    assert_eq!(lefs.transitions[0].id, 42);
    assert_eq!(lefs.transitions[0].duration, 2);
    assert_eq!(lefs.transitions[0].pul_payloads, vec![effect(1, 5)]);
    assert_eq!(lefs.transitions[1].id, 7);
    assert_eq!(lefs.transitions[1].constant, 10);
    assert_eq!(lefs.transitions[1].iul_payloads, vec![effect(0, -3)]);
    assert!(lefs.estimulated_transition_indices.is_empty());

    // The pair (1, 5) refers to the second record, whatever its id.
    let mut engine = Engine::new(lefs);
    assert_eq!(engine.simulate(0, 3), Ok(()));
    assert_eq!(engine.lefs.transitions[1].constant, 15);
    assert_eq!(engine.logs, vec![log(0, 0)]);
}

#[test]
fn replay_gives_identical_log() {
    let build = || json::Lefs {
        ia_red: vec![
            record(1, 0, 0, 1, vec![(2, -1)], vec![(1, -4), (2, 1)]),
            record(2, 3, 0, 0, vec![], vec![(0, -1)]),
            record(3, 0, 0, 2, vec![(1, 1)], vec![]),
        ],
    };
    let mut a = Engine::new(Lefs::new(build()));
    let mut b = Engine::new(Lefs::new(build()));
    let ra = a.simulate(0, 6);
    let rb = b.simulate(0, 6);
    assert_eq!(ra, rb);
    assert_eq!(a.logs, b.logs);
    assert_eq!(a.event_count, b.event_count);
    assert!(!a.logs.is_empty());
}
