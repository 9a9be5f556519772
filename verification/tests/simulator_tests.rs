use petrinet_core::simulator::{
    continue_simulation, select_transition, start_simulation, start_simulation_step,
    SimulatorState,
};
use petrinet_core::updates::FiringUpdates;

fn empty_session() -> SimulatorState {
    SimulatorState {
        state: Vec::new(),
        t_in: Vec::new(),
        t_effect: Vec::new(),
        deadlocked: false,
        firing_updates: FiringUpdates {
            can_enable: Vec::new(),
            might_disable: Vec::new(),
        },
    }
}

#[test]
fn single_step_fires_the_only_transition() {
    let mut sim = empty_session();
    let r = start_simulation_step(&mut sim, vec![1], vec![vec![1]], vec![vec![0]]);
    assert!(!r.deadlocked);
    assert_eq!(r.marking, vec![0]);
    assert_eq!(r.firings, vec![1]);
}

#[test]
fn continue_after_exhaustion_reports_deadlock() {
    let mut sim = empty_session();
    let r = start_simulation_step(&mut sim, vec![1], vec![vec![1]], vec![vec![0]]);
    assert!(!r.deadlocked);
    let r2 = continue_simulation(&mut sim, 1000);
    assert!(r2.deadlocked);
    assert_eq!(r2.marking, vec![0]);
    // the deadlock is sticky: a further continue answers at once
    let r3 = continue_simulation(&mut sim, 1000);
    assert!(r3.deadlocked);
    assert_eq!(r3.marking, vec![0]);
    assert_eq!(r3.firings, Vec::<i16>::new());
}

#[test]
fn run_until_deadlock_counts_the_firing() {
    let mut sim = empty_session();
    let r = start_simulation(&mut sim, vec![1], vec![vec![1]], vec![vec![0]], 1000);
    assert!(r.deadlocked);
    assert_eq!(r.marking, vec![0]);
    assert_eq!(r.firings, vec![1]);
}

#[test]
fn empty_net_is_immediately_deadlocked() {
    let mut sim = empty_session();
    let r = start_simulation(&mut sim, vec![1], vec![], vec![], 10);
    assert!(r.deadlocked);
    assert_eq!(r.marking, vec![1]);
    assert_eq!(r.firings, Vec::<i16>::new());
    let r2 = continue_simulation(&mut sim, 10);
    assert!(r2.deadlocked);
}

#[test]
fn self_loop_keeps_the_marking() {
    // a transition that consumes and reproduces the single token
    let mut sim = empty_session();
    let r = start_simulation(&mut sim, vec![1], vec![vec![1]], vec![vec![1]], 30);
    assert!(!r.deadlocked);
    assert_eq!(r.marking, vec![1]);
}

#[test]
fn step_on_deadlocked_net_reports_deadlock() {
    let mut sim = empty_session();
    let r = start_simulation_step(&mut sim, vec![0], vec![vec![1]], vec![vec![0]]);
    assert!(r.deadlocked);
    assert_eq!(r.marking, vec![0]);
    assert_eq!(r.firings, vec![0]);
}

#[test]
fn zero_budget_runs_no_firing() {
    let mut sim = empty_session();
    let r = start_simulation(
        &mut sim,
        vec![0, 1],
        vec![vec![0, 1], vec![1, 0]],
        vec![vec![1, 0], vec![0, 1]],
        0,
    );
    assert!(!r.deadlocked);
    assert_eq!(r.marking, vec![0, 1]);
    assert_eq!(r.firings, vec![0, 0]);
}

#[test]
fn step_guard_trips_above_threshold() {
    // the overflow guard runs before any firing is attempted
    let mut sim = empty_session();
    let r = start_simulation_step(&mut sim, vec![30001], vec![vec![0]], vec![vec![0]]);
    assert!(r.deadlocked);
    assert_eq!(r.marking, vec![30001]);
    assert_eq!(r.firings, vec![0]);
}

#[test]
fn selection_stays_within_the_active_set() {
    let active = vec![3, 5, 9];
    for _ in 0..20 {
        let picked = select_transition(&active);
        assert!(picked == 3 || picked == 5 || picked == 9);
    }
}

#[test]
fn two_place_cycle_preserves_tokens() {
    let mut sim = empty_session();
    let r = start_simulation(
        &mut sim,
        vec![0, 1],
        vec![vec![0, 1], vec![1, 0]],
        vec![vec![1, 0], vec![0, 1]],
        30,
    );
    assert!(!r.deadlocked);
    assert_eq!((r.marking[0] + r.marking[1]) as i32, 1);
}
