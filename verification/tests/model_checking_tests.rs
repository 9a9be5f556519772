use petrinet_core::model_checking::check_properties;
use petrinet_core::responses::RGResponse;

fn assert_result(
    result: Result<RGResponse, String>,
    states: usize,
    edges: usize,
    reversible: bool,
    liveness: bool,
    bounded: i16,
    bounded_vec: Vec<i16>,
) {
    match result {
        Ok(rg) => {
            assert_eq!(rg.states, states);
            assert_eq!(rg.edges, edges);
            assert_eq!(rg.bounded, bounded);
            assert_eq!(rg.bounded_vec, bounded_vec);
            assert_eq!(rg.reversible, reversible);
            assert_eq!(rg.liveness, liveness);
        }
        Err(msg) => {
            panic!("Failed: {}", msg)
        }
    }
}

#[test]
fn single_firing() {
    // Simple net (1)-->[ ]
    let result = check_properties(vec![1], vec![vec![1]], vec![vec![0]]);
    assert_result(result, 2, 1, false, false, 1, vec![1]);
}

#[test]
fn unbounded() {
    // Unbounded net [ ]-->(1)
    let result = check_properties(vec![1], vec![vec![0]], vec![vec![1]]);
    assert_result(result, 0, 0, false, false, -1, vec![]);
}

#[test]
fn circle() {
    // Circle   ┌-->[ ]->(1)
    //         (0)<-[ ]<--┘
    let result = check_properties(
        vec![0, 1],
        vec![vec![0, 1], vec![1, 0]],
        vec![vec![1, 0], vec![0, 1]],
    );
    assert_result(result, 2, 2, true, true, 1, vec![1, 1]);
}

#[test]
fn circle_larger_marking() {
    // Circle   ┌-->[ ]->(9)
    //         (9)<-[ ]<--┘
    let result = check_properties(
        vec![9, 9],
        vec![vec![0, 1], vec![1, 0]],
        vec![vec![1, 0], vec![0, 1]],
    );
    assert_result(result, 19, 36, true, true, 18, vec![18, 18]);
}

#[test]
fn circle_with_sink() {
    // Circle   ┌-->[ ]->(1)-->[ ]-->(0)
    //         (0)<-[ ]<--┘
    let result = check_properties(
        vec![0, 1, 0],
        vec![vec![0, 1, 0], vec![1, 0, 0], vec![0, 1, 0]],
        vec![vec![1, 0, 0], vec![0, 1, 0], vec![0, 0, 1]],
    );
    assert_result(result, 3, 3, false, false, 1, vec![1, 1, 1]);
}

#[test]
fn bounded_live() {
    // numeration from top to bottom, left to right
    //
    //       ┌─────────█t1█<───────┐
    //       V┌───────────────┐    │
    //  ┌──>(0)─>█t2█<─(1)<──┐V    │
    // █t3█       ││        █t4█─>(0)
    //  └<──(1)<──┘└──>(0)───>┘
    let result = check_properties(
        vec![0, 1, 0, 1, 0],
        vec![
            vec![0, 0, 1, 0, 0],
            vec![1, 1, 0, 0, 0],
            vec![0, 0, 0, 1, 0],
            vec![1, 0, 0, 0, 1],
        ],
        vec![
            vec![1, 0, 0, 0, 0],
            vec![0, 0, 0, 1, 1],
            vec![1, 0, 0, 0, 0],
            vec![0, 1, 1, 0, 0],
        ],
    );
    assert_result(result, 5, 5, false, true, 1, vec![1, 1, 1, 1, 1]);
}

#[test]
fn bounded_reversible() {
    // Circle   ┌-->[ ]->(1)   [ ]<--(0)
    //         (0)<-[ ]<--┘
    let result = check_properties(
        vec![0, 1, 0],
        vec![vec![0, 1, 0], vec![1, 0, 0], vec![0, 0, 1]],
        vec![vec![1, 0, 0], vec![0, 1, 0], vec![0, 0, 0]],
    );
    assert_result(result, 2, 2, true, false, 1, vec![1, 1, 0]);
}

#[test]
fn unbounded_message() {
    let result = check_properties(vec![1], vec![vec![0]], vec![vec![1]]);
    let rg = result.unwrap();
    assert_eq!(rg.message, "Graph is unbounded");
    assert_eq!(rg.dot_graph, "");
    assert!(!rg.has_deadlock);
}

#[test]
fn single_firing_dot_output() {
    // Two markings [1] and [0], one edge labeled t0.
    let result = check_properties(vec![1], vec![vec![1]], vec![vec![0]]);
    let rg = result.unwrap();
    assert_eq!(
        rg.dot_graph,
        "digraph {\n0 [ label = \"[1]\" ]\n1 [ label = \"[0]\" ]\n0 -> 1 [ label = \"t0\" ]\n}\n"
    );
    assert!(rg.has_deadlock);
}

#[test]
fn circle_dot_output() {
    // Nodes in discovery order: [0, 1] then [1, 0]; each fires back to the
    // other.
    let result = check_properties(
        vec![0, 1],
        vec![vec![0, 1], vec![1, 0]],
        vec![vec![1, 0], vec![0, 1]],
    );
    let rg = result.unwrap();
    assert_eq!(
        rg.dot_graph,
        "digraph {\n0 [ label = \"[0, 1]\" ]\n1 [ label = \"[1, 0]\" ]\n0 -> 1 [ label = \"t0\" ]\n1 -> 0 [ label = \"t1\" ]\n}\n"
    );
}
