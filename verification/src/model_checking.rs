//! The model-checking entry point: build the reachability graph, derive its
//! properties, render the DOT view, and package everything with a timing
//! report.

use vstd::prelude::*;
use vstd::string::StringExecFns;

use crate::clock::{elapsed_millis, instant_now};
use crate::dot::{create_dot_graph, dot_of};
use crate::net::{InputMatrix, InputState, as_ints, is_matrix, marking_nonneg, matrix_nonneg, reachable};
use crate::properties::{spec_live, spec_reversible};
use crate::reachability::{
    COVER_LIMIT, RgEdge, create_rg, edges_wf, node_dead, nodes_bounded, nodes_wf, rg_closed,
    rg_complete, rg_sound, some_entry_exceeds,
};
use crate::responses::RGResponse;

verus! {

/// The response reporting an unbounded net.
pub open spec fn is_unbounded_response(resp: RGResponse) -> bool {
    &&& resp.states == 0
    &&& resp.edges == 0
    &&& !resp.reversible
    &&& !resp.liveness
    &&& resp.bounded == -1i16
    &&& resp.bounded_vec@.len() == 0
    &&& !resp.has_deadlock
    &&& resp.dot_graph@.len() == 0
    &&& resp.message@ == "Graph is unbounded"@
}

/// The response describes the reachability graph `(n, es)` of the net: its
/// counts, its exact bound vector and maximum, its deadlock flag, its
/// liveness and reversibility verdicts, and its DOT rendering.
pub open spec fn describes_graph(
    n: Seq<Seq<i16>>,
    es: Seq<RgEdge>,
    resp: RGResponse,
    m0: Seq<i16>,
    t_in: Seq<Seq<i16>>,
    t_out: Seq<Seq<i16>>,
    t_count: nat,
) -> bool {
    &&& nodes_wf(n, m0)
    &&& edges_wf(n, t_in, t_out, es)
    &&& rg_closed(n, t_in, es)
    &&& rg_sound(n, t_in, t_out, m0)
    &&& rg_complete(n, t_in, t_out, m0)
    &&& nodes_bounded(n, COVER_LIMIT as int)
    &&& resp.states == n.len()
    &&& resp.edges == es.len()
    &&& (resp.has_deadlock <==> exists|i: int| 0 <= i < n.len() && #[trigger] node_dead(n, t_in, i))
    &&& (resp.has_deadlock ==> !resp.liveness && !resp.reversible)
    &&& (!resp.has_deadlock ==> resp.reversible == spec_reversible(n.len() as nat, es))
    &&& (!resp.has_deadlock ==> resp.liveness == spec_live(n.len() as nat, es, t_count))
    &&& resp.bounded_vec@.len() == m0.len()
    &&& (forall|p: int| 0 <= p < resp.bounded_vec@.len()
        ==> exists|i: int| 0 <= i < n.len() && n[i][p] == #[trigger] resp.bounded_vec@[p])
    &&& (forall|i: int, p: int| 0 <= i < n.len() && 0 <= p < resp.bounded_vec@.len()
        ==> #[trigger] n[i][p] <= resp.bounded_vec@[p])
    &&& (exists|p: int|
        0 <= p < resp.bounded_vec@.len() && (#[trigger] resp.bounded_vec@[p]) == resp.bounded)
    &&& (forall|p: int| 0 <= p < resp.bounded_vec@.len() ==> (#[trigger] resp.bounded_vec@[p])
        <= resp.bounded)
    &&& resp.dot_graph@ == dot_of(n, es)
}

/// Some reachable marking other than the initial one escapes the cutoff:
/// the condition under which the analysis reports the net unbounded.
pub open spec fn escapes_cutoff(m0: Seq<i16>, t_in: Seq<Seq<i16>>, t_out: Seq<Seq<i16>>) -> bool {
    exists|m: Seq<int>| #[trigger] reachable(as_ints(m0), t_in, t_out, m) && some_entry_exceeds(
        m,
        COVER_LIMIT as int,
    ) && m != as_ints(m0)
}

/// What `check_properties` promises of its result: an unbounded verdict
/// exactly when a reachable marking escapes the cutoff, and otherwise a
/// response that describes the reachability graph.
pub open spec fn check_properties_post(
    r: Result<RGResponse, String>,
    m0: Seq<i16>,
    t_in: Seq<Seq<i16>>,
    t_out: Seq<Seq<i16>>,
    t_count: nat,
) -> bool {
    match r {
        Ok(resp) => {
            &&& (escapes_cutoff(m0, t_in, t_out) ==> is_unbounded_response(resp))
            &&& (!escapes_cutoff(m0, t_in, t_out) ==> exists|n: Seq<Seq<i16>>, es: Seq<RgEdge>|
                #[trigger] describes_graph(n, es, resp, m0, t_in, t_out, t_count))
        },
        Err(_) => false,
    }
}

/// Analyze a net: construct its reachability graph and decide boundedness,
/// the per-place bound vector, deadlock, liveness, and reversibility, with
/// a DOT rendering of the graph and a timing report.
pub fn check_properties(
    marking: InputState,
    transition_inputs: InputMatrix,
    transition_outputs: InputMatrix,
) -> (r: Result<RGResponse, String>)
    requires
        is_matrix(transition_inputs.deep_view(), transition_inputs@.len(), marking@.len()),
        is_matrix(transition_outputs.deep_view(), transition_inputs@.len(), marking@.len()),
        matrix_nonneg(transition_inputs.deep_view()),
        matrix_nonneg(transition_outputs.deep_view()),
        marking_nonneg(marking@),
        marking@.len() >= 1,
        transition_inputs@.len() <= 32767,
    ensures
        r is Ok,
        check_properties_post(
            r,
            marking@,
            transition_inputs.deep_view(),
            transition_outputs.deep_view(),
            transition_inputs@.len() as nat,
        ),
{
    let ghost tin = transition_inputs.deep_view();
    let ghost tout = transition_outputs.deep_view();
    let ghost m0 = marking@;
    let t = transition_inputs.len();
    let start_time_rg = instant_now();
    let rg_result = create_rg(marking, transition_inputs, transition_outputs);
    let end_time_rg = elapsed_millis(&start_time_rg);

    match rg_result {
        Ok(result) => {
            proof {
                assert(!escapes_cutoff(m0, tin, tout)) by {
                    if escapes_cutoff(m0, tin, tout) {
                        let m = choose|m: Seq<int>|
                            #[trigger] reachable(as_ints(m0), tin, tout, m) && some_entry_exceeds(
                                m,
                                COVER_LIMIT as int,
                            ) && m != as_ints(m0);
                        let i = choose|i: int|
                            0 <= i < result.rg.nodes.deep_view().len() && as_ints(
                                #[trigger] result.rg.nodes.deep_view()[i],
                            ) == m;
                        if i == 0 {
                            assert(m == as_ints(m0));
                        } else {
                            let p = choose|p: int|
                                0 <= p < m.len() && #[trigger] m[p] > COVER_LIMIT as int;
                            assert(result.rg.nodes.deep_view()[i][p] <= COVER_LIMIT);
                            assert(m[p] == result.rg.nodes.deep_view()[i][p] as int);
                        }
                    }
                }
            }
            let start_time_properties = instant_now();
            let rg_properties = crate::properties::check_properties(&result, t);
            let end_time_properties = elapsed_millis(&start_time_properties);

            let start_time_visualization = instant_now();
            let dot_graph = create_dot_graph(&result.rg);
            let end_time_visualization = elapsed_millis(&start_time_visualization);

            let time_string = render_time_string(
                end_time_rg,
                end_time_properties,
                end_time_visualization,
            );

            let resp = RGResponse::success(&result.rg, &rg_properties, dot_graph, time_string);
            let rr: Result<RGResponse, String> = Ok(resp);
            proof {
                match &rr {
                    Ok(resp2) => {
                        assert(describes_graph(
                            result.rg.nodes.deep_view(),
                            result.rg.edges@,
                            *resp2,
                            m0,
                            tin,
                            tout,
                            t as nat,
                        ));
                    },
                    Err(_) => {
                        assert(false);
                    },
                }
                assert(check_properties_post(rr, m0, tin, tout, t as nat));
            }
            rr
        },
        Err(_) => {
            proof {
                assert(escapes_cutoff(m0, tin, tout));
            }
            let rr: Result<RGResponse, String> = Ok(RGResponse::unbounded());
            proof {
                assert(check_properties_post(rr, m0, tin, tout, t as nat));
            }
            rr
        },
    }
}

/// The human-readable timing report of one analysis run.
fn render_time_string(rg_ms: u128, properties_ms: u128, visualization_ms: u128) -> (r: String) {
    let total = clamp_ms(rg_ms) + clamp_ms(properties_ms) + clamp_ms(visualization_ms);
    let mut s = String::new();
    s.append("Total: ");
    let total_s = crate::dot::fmt_u64(total);
    s.append(total_s.as_str());
    s.append("ms, RG ");
    let rg_s = crate::dot::fmt_u64(clamp_ms(rg_ms));
    s.append(rg_s.as_str());
    s.append("ms, Properties ");
    let props_s = crate::dot::fmt_u64(clamp_ms(properties_ms));
    s.append(props_s.as_str());
    s.append("ms, Visualization ");
    let vis_s = crate::dot::fmt_u64(clamp_ms(visualization_ms));
    s.append(vis_s.as_str());
    s.append("ms");
    s
}

/// Clamp a millisecond reading so that sums of a few of them stay
/// representable.
fn clamp_ms(ms: u128) -> (r: u64)
    ensures
        r <= 0x1000_0000_0000_0000u64,
{
    if ms > 0x1000_0000_0000_0000u128 {
        0x1000_0000_0000_0000u64
    } else {
        ms as u64
    }
}

} // verus!
