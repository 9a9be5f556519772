//! Value objects returned by the analysis operations.

use vstd::prelude::*;

use crate::net::{InputState, copy_marking};
use crate::reachability::ReachabilityGraph;

verus! {

/// The outcome of one simulation call: the marking reached, how often each
/// transition fired during the call, and whether the session is deadlocked.
pub struct SimulationResponse {
    pub marking: InputState,
    pub firings: InputState,
    pub deadlocked: bool,
}

impl SimulationResponse {
    /// Package a simulation outcome.
    pub fn new(marking: InputState, firings: InputState, deadlocked: bool) -> (r: Self)
        ensures
            r.marking == marking,
            r.firings == firings,
            r.deadlocked == deadlocked,
    {
        SimulationResponse { marking, firings, deadlocked }
    }
}

/// The outcome of a reachability-graph analysis.
pub struct RGResponse {
    pub states: usize,
    pub edges: usize,
    pub reversible: bool,
    pub liveness: bool,
    pub bounded: i16,
    pub bounded_vec: Vec<i16>,
    pub has_deadlock: bool,
    pub dot_graph: String,
    pub message: String,
}

/// The properties derived from a reachability graph.
pub struct RGProperties {
    pub liveness: bool,
    pub reversible: bool,
    pub bounded_vec: Vec<i16>,
    pub k_bounded: i16,
    pub has_deadlock: bool,
}

impl RGResponse {
    /// The fixed response for a net found unbounded: zero counts, all
    /// properties false, bound `-1`, and the message naming the verdict.
    pub fn unbounded() -> (r: Self)
        ensures
            r.states == 0,
            r.edges == 0,
            !r.reversible,
            !r.liveness,
            r.bounded == -1i16,
            r.bounded_vec@.len() == 0,
            !r.has_deadlock,
            r.dot_graph@.len() == 0,
            r.message@ == "Graph is unbounded"@,
    {
        RGResponse {
            states: 0,
            edges: 0,
            reversible: false,
            liveness: false,
            bounded: -1,
            bounded_vec: Vec::new(),
            has_deadlock: false,
            dot_graph: String::new(),
            message: "Graph is unbounded".to_owned(),
        }
    }

    /// Package a successful analysis: counts from the graph, properties from
    /// the analyzer, plus the rendered DOT text and the timing message.
    pub fn success(
        graph: &ReachabilityGraph,
        properties: &RGProperties,
        dot_graph: String,
        message: String,
    ) -> (r: Self)
        ensures
            r.states == graph.nodes@.len(),
            r.edges == graph.edges@.len(),
            r.reversible == properties.reversible,
            r.liveness == properties.liveness,
            r.bounded == properties.k_bounded,
            r.bounded_vec@ == properties.bounded_vec@,
            r.has_deadlock == properties.has_deadlock,
            r.dot_graph == dot_graph,
            r.message == message,
    {
        RGResponse {
            states: graph.nodes.len(),
            edges: graph.edges.len(),
            reversible: properties.reversible,
            liveness: properties.liveness,
            bounded: properties.k_bounded,
            bounded_vec: copy_marking(&properties.bounded_vec),
            has_deadlock: properties.has_deadlock,
            dot_graph,
            message,
        }
    }
}

} // verus!
