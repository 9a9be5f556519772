//! Strongly connected components of the reachability graph, computed by
//! petgraph's Tarjan implementation over a shadow graph of plain indices.
//!
//! The partition contract states exactly that the returned components are
//! the equivalence classes of mutual path-connectivity.

use vstd::prelude::*;

use petgraph::graph::DiGraph;

verus! {

/// Declares petgraph's `Graph` so that shadow graphs can appear in
/// signatures; its contents are reached only through the named functions
/// below.
#[verifier::external_type_specification]
#[verifier::external_body]
#[verifier::reject_recursive_types(N)]
#[verifier::reject_recursive_types(E)]
#[verifier::reject_recursive_types(Ty)]
#[verifier::reject_recursive_types(Ix)]
pub struct ExGraph<N, E, Ty, Ix>(petgraph::graph::Graph<N, E, Ty, Ix>);

/// Declares petgraph's edge-direction marker used by `Graph`.
#[verifier::external_type_specification]
#[verifier::external_body]
pub struct ExDirected(petgraph::Directed);

/// The number of nodes that have been added to the shadow graph.
pub uninterp spec fn graph_nodes(g: DiGraph<(), (), usize>) -> nat;

/// The directed edges of the shadow graph, as pairs of node indices.
pub uninterp spec fn graph_edges(g: DiGraph<(), (), usize>) -> Set<(int, int)>;

/// `p` walks along edges of `edges`.
pub open spec fn is_path(edges: Set<(int, int)>, p: Seq<int>) -> bool {
    p.len() >= 1 && forall|k: int|
        0 <= k < p.len() - 1 ==> #[trigger] edges.contains((p[k], p[k + 1]))
}

/// A path leads from `a` to `b` (including the trivial one when `a == b`).
pub open spec fn path_connected(edges: Set<(int, int)>, a: int, b: int) -> bool {
    exists|p: Seq<int>| #[trigger] is_path(edges, p) && p.first() == a && p.last() == b
}

/// `a` and `b` lie on a common cycle (or are equal): the equivalence that
/// defines strongly connected components.
pub open spec fn same_scc(edges: Set<(int, int)>, a: int, b: int) -> bool {
    path_connected(edges, a, b) && path_connected(edges, b, a)
}

/// Node `v` occurs somewhere in the component list.
pub open spec fn occurs_in(comps: Seq<Seq<usize>>, v: int) -> bool {
    exists|c: int, k: int|
        0 <= c < comps.len() && 0 <= k < comps[c].len() && (#[trigger] comps[c][k]) == v
}

/// `comps` partitions the nodes `0 .. n` into the strongly connected
/// components of the graph `(n, edges)`: every node occurs exactly once,
/// nodes sharing a component are mutually connected, and nodes of different
/// components are not.
pub open spec fn is_scc_partition(comps: Seq<Seq<usize>>, n: nat, edges: Set<(int, int)>) -> bool {
    &&& forall|c: int| 0 <= c < comps.len() ==> (#[trigger] comps[c]).len() >= 1
    &&& forall|c: int, k: int|
        0 <= c < comps.len() && 0 <= k < comps[c].len() ==> (#[trigger] comps[c][k]) < n
    &&& forall|v: int| 0 <= v < n ==> #[trigger] occurs_in(comps, v)
    &&& forall|c: int, k: int, c2: int, k2: int|
        0 <= c < comps.len() && 0 <= k < comps[c].len() && 0 <= c2 < comps.len() && 0 <= k2
            < comps[c2].len() && (#[trigger] comps[c][k]) == (#[trigger] comps[c2][k2])
            ==> c == c2 && k == k2
    &&& forall|c: int, k: int, k2: int|
        0 <= c < comps.len() && 0 <= k < comps[c].len() && 0 <= k2 < comps[c].len()
            ==> same_scc(edges, (#[trigger] comps[c][k]) as int, (#[trigger] comps[c][k2]) as int)
    &&& forall|c: int, k: int, c2: int, k2: int|
        0 <= c < comps.len() && 0 <= k < comps[c].len() && 0 <= c2 < comps.len() && 0 <= k2
            < comps[c2].len() && c != c2
            ==> !same_scc(
                edges,
                (#[trigger] comps[c][k]) as int,
                (#[trigger] comps[c2][k2]) as int,
            )
}

/// Relies on petgraph's `Graph::with_capacity`: an empty directed graph.
#[verifier::external_body]
pub fn pg_new_graph() -> (g: DiGraph<(), (), usize>)
    ensures
        graph_nodes(g) == 0,
        graph_edges(g) == Set::<(int, int)>::empty(),
{
    DiGraph::with_capacity(0, 0)
}

/// Relies on petgraph's `Graph::add_node`: appends one node and returns its
/// index, which is the previous node count.
#[verifier::external_body]
pub fn pg_add_node(g: &mut DiGraph<(), (), usize>) -> (i: usize)
    ensures
        graph_nodes(*final(g)) == graph_nodes(*old(g)) + 1,
        graph_edges(*final(g)) == graph_edges(*old(g)),
        i == graph_nodes(*old(g)),
{
    g.add_node(()).index()
}

/// Relies on petgraph's `Graph::add_edge`: adds one directed edge between
/// two existing nodes.
#[verifier::external_body]
pub fn pg_add_edge(g: &mut DiGraph<(), (), usize>, a: usize, b: usize)
    requires
        a < graph_nodes(*old(g)),
        b < graph_nodes(*old(g)),
    ensures
        graph_nodes(*final(g)) == graph_nodes(*old(g)),
        graph_edges(*final(g)) == graph_edges(*old(g)).insert((a as int, b as int)),
{
    g.add_edge(
        petgraph::graph::NodeIndex::new(a),
        petgraph::graph::NodeIndex::new(b),
        (),
    );
}

/// Relies on petgraph's `tarjan_scc`: returns the strongly connected
/// components of the graph, each node in exactly one component, mutually
/// path-connected within a component and not across two.
#[verifier::external_body]
pub fn pg_tarjan(g: &DiGraph<(), (), usize>) -> (r: Vec<Vec<usize>>)
    ensures
        is_scc_partition(r.deep_view(), graph_nodes(*g), graph_edges(*g)),
{
    petgraph::algo::tarjan_scc(g)
        .into_iter()
        .map(|comp| comp.into_iter().map(|ix| ix.index()).collect())
        .collect()
}

} // verus!
