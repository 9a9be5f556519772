use petrinet_core::coverability::{is_covering, is_strictly_greater_than};
use petrinet_core::net::{effect_matrix, find_active_transitions, fire_transition, is_enabled};
use petrinet_core::reachability::{create_rg, ReachabilityGraph, RgEdge};
use petrinet_core::responses::RGResponse;
use petrinet_core::updates::{create_firing_updates, find_active_transitions_from_firing_set};

#[test]
fn fire_adds_effect_row() {
    // firing adds T_out - T_in componentwise
    let state = vec![2, 1];
    let effect = vec![vec![1, -1]];
    let fired = fire_transition(&state, &effect, 0);
    assert_eq!(fired, vec![3, 0]);
}

#[test]
fn enabledness_is_componentwise() {
    let t_in = vec![vec![1, 0], vec![0, 1], vec![0, 0]];
    let marking = vec![1, 0];
    assert!(is_enabled(&marking, &t_in, 0));
    assert!(!is_enabled(&marking, &t_in, 1));
    assert!(is_enabled(&marking, &t_in, 2));
}

#[test]
fn find_active_is_ascending() {
    let t_in = vec![vec![1, 0], vec![0, 1], vec![0, 0]];
    let marking = vec![1, 0];
    let active = find_active_transitions(&marking, &t_in);
    assert_eq!(active, vec![0, 2]);
}

#[test]
fn effect_matrix_is_out_minus_in() {
    let t_in = vec![vec![1, 0], vec![0, 2]];
    let t_out = vec![vec![0, 3], vec![1, 0]];
    let eff = effect_matrix(&t_in, &t_out);
    assert_eq!(eff, vec![vec![-1, 3], vec![1, -2]]);
}

#[test]
fn firing_updates_follow_sparsity() {
    // two-place cycle: t0 consumes p0 and adds p1; t1 consumes p1 and adds p0
    let t_in = vec![vec![1, 0], vec![0, 1]];
    let t_out = vec![vec![0, 1], vec![1, 0]];
    let fu = create_firing_updates(&t_in, &t_out);
    // t0 adds tokens to p1, so it can enable p1's consumer t1
    assert_eq!(fu.can_enable, vec![vec![false, true], vec![true, false]]);
    // t0 consumes from p0, so it might disable p0's consumers (itself)
    assert_eq!(fu.might_disable, vec![vec![true, false], vec![false, true]]);
}

#[test]
fn incremental_update_matches_full_scan() {
    // two-place cycle, one firing of t0 from [1, 0]
    let t_in = vec![vec![1, 0], vec![0, 1]];
    let t_out = vec![vec![0, 1], vec![1, 0]];
    let fu = create_firing_updates(&t_in, &t_out);
    let before = vec![1, 0];
    let active_before = find_active_transitions(&before, &t_in);
    assert_eq!(active_before, vec![0]);
    let after = vec![0, 1];
    let last_fired: usize = 0;
    let updated =
        find_active_transitions_from_firing_set(&after, &t_in, active_before, &fu, &last_fired);
    let full = find_active_transitions(&after, &t_in);
    assert_eq!(updated, vec![1]);
    assert_eq!(full, vec![1]);
}

#[test]
fn incremental_update_empty_seed_falls_back() {
    let t_in = vec![vec![1, 0], vec![0, 1]];
    let t_out = vec![vec![0, 1], vec![1, 0]];
    let fu = create_firing_updates(&t_in, &t_out);
    let marking = vec![1, 1];
    let last_fired: usize = 0;
    let updated =
        find_active_transitions_from_firing_set(&marking, &t_in, Vec::new(), &fu, &last_fired);
    assert_eq!(updated, vec![0, 1]);
}

#[test]
fn create_rg_single_firing() {
    let result = create_rg(vec![1], vec![vec![1]], vec![vec![0]]);
    let res = result.ok().unwrap();
    assert_eq!(res.rg.nodes, vec![vec![1], vec![0]]);
    assert_eq!(res.rg.edges.len(), 1);
    assert_eq!(res.rg.edges[0].from, 0);
    assert_eq!(res.rg.edges[0].to, 1);
    assert_eq!(res.rg.edges[0].label, 0);
    assert!(res.has_deadlock);
}

#[test]
fn create_rg_unbounded_message() {
    let result = create_rg(vec![1], vec![vec![0]], vec![vec![1]]);
    match result {
        Ok(_) => panic!("expected the unbounded verdict"),
        Err(msg) => assert_eq!(msg, "Net is unbounded"),
    }
}

#[test]
fn strict_domination() {
    assert!(is_strictly_greater_than(&vec![2, 1], &vec![1, 1]));
    assert!(!is_strictly_greater_than(&vec![1, 1], &vec![1, 1]));
    assert!(!is_strictly_greater_than(&vec![2, 0], &vec![1, 1]));
}

#[test]
fn covering_pseudo_mode_checks_cutoff() {
    let graph = ReachabilityGraph {
        nodes: vec![vec![1], vec![3000]],
        edges: vec![],
    };
    assert!(is_covering(1, &graph, true));
    assert!(!is_covering(0, &graph, true));
}

#[test]
fn covering_full_mode_finds_dominated_ancestor() {
    let graph = ReachabilityGraph {
        nodes: vec![vec![1], vec![2]],
        edges: vec![RgEdge {
            from: 0,
            to: 1,
            label: 0,
        }],
    };
    assert!(is_covering(1, &graph, false));
    assert!(!is_covering(0, &graph, false));
}

#[test]
fn unbounded_response_fields() {
    let resp = RGResponse::unbounded();
    assert_eq!(resp.states, 0);
    assert_eq!(resp.edges, 0);
    assert!(!resp.reversible);
    assert!(!resp.liveness);
    assert_eq!(resp.bounded, -1);
    assert_eq!(resp.bounded_vec, Vec::<i16>::new());
    assert!(!resp.has_deadlock);
    assert_eq!(resp.dot_graph, "");
    assert_eq!(resp.message, "Graph is unbounded");
}
