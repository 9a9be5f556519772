//! Property analysis of a reachability graph: per-place bounds, liveness
//! over terminal strongly connected components, and reversibility.

use vstd::prelude::*;
use vstd::pervasive::VecAdditionalExecFns;

use crate::net::copy_marking;
use crate::reachability::{RGResult, ReachabilityGraph, RgEdge};
use crate::responses::RGProperties;
use crate::scc::{
    graph_edges, graph_nodes, is_scc_partition, occurs_in, pg_add_edge, pg_add_node, pg_new_graph,
    pg_tarjan, same_scc,
};

verus! {

/// The directed edges of the reachability graph, as a set of node pairs.
pub open spec fn rg_edge_pairs(es: Seq<RgEdge>) -> Set<(int, int)> {
    Set::new(
        |pr: (int, int)|
            exists|k: int|
                0 <= k < es.len() && (#[trigger] es[k]).from == pr.0 && es[k].to == pr.1,
    )
}

/// The pairs contributed by the first `upto` edges.
pub open spec fn edge_pairs_prefix(es: Seq<RgEdge>, upto: int) -> Set<(int, int)> {
    Set::new(
        |pr: (int, int)|
            exists|k: int| 0 <= k < upto && (#[trigger] es[k]).from == pr.0 && es[k].to == pr.1,
    )
}

/// The graph is reversible: it collapses to a single strongly connected
/// component and is not trivial (it has at least one edge).
pub open spec fn spec_reversible(n: nat, es: Seq<RgEdge>) -> bool {
    &&& forall|a: int, b: int|
        0 <= a < n && 0 <= b < n ==> #[trigger] same_scc(rg_edge_pairs(es), a, b)
    &&& es.len() > 0
}

/// No edge leaves the strongly connected component of node `v`.
pub open spec fn scc_terminal(es: Seq<RgEdge>, v: int) -> bool {
    forall|k: int|
        0 <= k < es.len() && same_scc(rg_edge_pairs(es), v, (#[trigger] es[k]).from as int)
            ==> same_scc(rg_edge_pairs(es), v, es[k].to as int)
}

/// Some edge inside the component of `v` carries the label `t`.
pub open spec fn has_intra_label(es: Seq<RgEdge>, v: int, t: int) -> bool {
    exists|k: int|
        0 <= k < es.len() && same_scc(rg_edge_pairs(es), v, (#[trigger] es[k]).from as int)
            && same_scc(rg_edge_pairs(es), v, es[k].to as int) && es[k].label == t
}

/// Every one of the `t_count` transitions fires on some edge inside the
/// component of `v`.
pub open spec fn scc_fires_all(es: Seq<RgEdge>, v: int, t_count: nat) -> bool {
    forall|t: int| 0 <= t < t_count ==> #[trigger] has_intra_label(es, v, t)
}

/// Liveness: every terminal strongly connected component fires all
/// transitions on its internal edges.
pub open spec fn spec_live(n: nat, es: Seq<RgEdge>, t_count: nat) -> bool {
    forall|v: int| 0 <= v < n && #[trigger] scc_terminal(es, v) ==> scc_fires_all(es, v, t_count)
}

/// Node `v` occurs in component `c`.
pub open spec fn in_comp(comps: Seq<Seq<usize>>, c: int, v: int) -> bool {
    exists|k: int| 0 <= k < comps[c].len() && (#[trigger] comps[c][k]) == v
}

/// The component that holds node `v`.
pub open spec fn comp_index(comps: Seq<Seq<usize>>, v: int) -> int {
    choose|c: int| 0 <= c < comps.len() && in_comp(comps, c, v)
}

/// In a strongly-connected-component partition, component indices decide
/// `same_scc`, every node has a component, and it is unique.
proof fn lemma_partition_semantics(comps: Seq<Seq<usize>>, n: nat, edges: Set<(int, int)>)
    requires
        is_scc_partition(comps, n, edges),
    ensures
        forall|v: int| 0 <= v < n
            ==> 0 <= #[trigger] comp_index(comps, v) < comps.len() && in_comp(
                comps,
                comp_index(comps, v),
                v,
            ),
        forall|c: int, v: int| 0 <= c < comps.len() && #[trigger] in_comp(comps, c, v)
            ==> comp_index(comps, v) == c,
        forall|a: int, b: int| 0 <= a < n && 0 <= b < n
            ==> (#[trigger] same_scc(edges, a, b) <==> comp_index(comps, a) == comp_index(
                comps,
                b,
            )),
{
    assert forall|v: int| 0 <= v < n
        implies 0 <= #[trigger] comp_index(comps, v) < comps.len() && in_comp(
        comps,
        comp_index(comps, v),
        v,
    ) by {
        assert(occurs_in(comps, v));
        let (c, k) = choose|c: int, k: int|
            0 <= c < comps.len() && 0 <= k < comps[c].len() && (#[trigger] comps[c][k]) == v;
        assert(in_comp(comps, c, v));
        assert(exists|c2: int| 0 <= c2 < comps.len() && in_comp(comps, c2, v));
    }
    assert forall|c: int, v: int| 0 <= c < comps.len() && #[trigger] in_comp(comps, c, v)
        implies comp_index(comps, v) == c by {
        let c1 = comp_index(comps, v);
        assert(0 <= c1 < comps.len() && in_comp(comps, c1, v)) by {
            assert(in_comp(comps, c, v));
        }
        let k = choose|k: int| 0 <= k < comps[c].len() && (#[trigger] comps[c][k]) == v;
        let k1 = choose|k: int| 0 <= k < comps[c1].len() && (#[trigger] comps[c1][k]) == v;
        assert(comps[c][k] == comps[c1][k1]);
    }
    assert forall|a: int, b: int| 0 <= a < n && 0 <= b < n
        implies (#[trigger] same_scc(edges, a, b) <==> comp_index(comps, a) == comp_index(
        comps,
        b,
    )) by {
        let ca = comp_index(comps, a);
        let cb = comp_index(comps, b);
        let ka = choose|k: int| 0 <= k < comps[ca].len() && (#[trigger] comps[ca][k]) == a;
        let kb = choose|k: int| 0 <= k < comps[cb].len() && (#[trigger] comps[cb][k]) == b;
        if ca == cb {
            assert(same_scc(edges, comps[ca][ka] as int, comps[ca][kb] as int));
        } else {
            assert(!same_scc(edges, comps[ca][ka] as int, comps[cb][kb] as int));
        }
    }
}

/// A row of `n` zeros.
fn zero_row(n: usize) -> (r: Vec<usize>)
    ensures
        r@.len() == n,
        forall|k: int| 0 <= k < n ==> (#[trigger] r@[k]) == 0,
{
    let mut r: Vec<usize> = Vec::new();
    let mut k: usize = 0;
    while k < n
        invariant
            k <= n,
            r@.len() == k,
            forall|j: int| 0 <= j < k ==> (#[trigger] r@[j]) == 0,
        decreases n - k,
    {
        r.push(0);
        k += 1;
    }
    r
}

/// Per-place maximum token count over all node markings of the graph.
pub fn get_bounded_vector(rg: &ReachabilityGraph) -> (r: Vec<i16>)
    requires
        rg.nodes@.len() >= 1,
        forall|i: int| 0 <= i < rg.nodes@.len()
            ==> (#[trigger] rg.nodes.deep_view()[i]).len() == rg.nodes.deep_view()[0].len(),
    ensures
        r@.len() == rg.nodes.deep_view()[0].len(),
        forall|p: int| 0 <= p < r@.len()
            ==> exists|i: int|
                0 <= i < rg.nodes@.len() && (rg.nodes.deep_view()[i])[p] == #[trigger] r@[p],
        forall|i: int, p: int| 0 <= i < rg.nodes@.len() && 0 <= p < r@.len()
            ==> #[trigger] rg.nodes.deep_view()[i][p] <= r@[p],
{
    let ghost n = rg.nodes.deep_view();
    proof {
        crate::net::lemma_deep_view_index(&rg.nodes, 0);
    }
    let mut max_values = copy_marking(&rg.nodes[0]);
    let mut i: usize = 1;
    while i < rg.nodes.len()
        invariant
            n == rg.nodes.deep_view(),
            rg.nodes@.len() >= 1,
            forall|j: int| 0 <= j < n.len() ==> (#[trigger] n[j]).len() == n[0].len(),
            1 <= i <= n.len(),
            max_values@.len() == n[0].len(),
            forall|p: int| 0 <= p < max_values@.len()
                ==> exists|j: int| 0 <= j < i && (n[j])[p] == #[trigger] max_values@[p],
            forall|j: int, p: int| 0 <= j < i && 0 <= p < max_values@.len()
                ==> #[trigger] n[j][p] <= max_values@[p],
        decreases n.len() - i,
    {
        proof {
            crate::net::lemma_deep_view_index(&rg.nodes, i as int);
        }
        let row = &rg.nodes[i];
        let mut p: usize = 0;
        while p < max_values.len()
            invariant
                n == rg.nodes.deep_view(),
                i < n.len(),
                forall|j: int| 0 <= j < n.len() ==> (#[trigger] n[j]).len() == n[0].len(),
                row@ == n[i as int],
                row@.len() == max_values@.len(),
                max_values@.len() == n[0].len(),
                p <= max_values@.len(),
                forall|q: int| 0 <= q < max_values@.len()
                    ==> exists|j: int|
                        0 <= j < (if q < p { i + 1 } else { i as int }) && (n[j])[q]
                            == #[trigger] max_values@[q],
                forall|j: int, q: int| 0 <= j < i && 0 <= q < max_values@.len()
                    ==> #[trigger] n[j][q] <= max_values@[q],
                forall|q: int| 0 <= q < p ==> (#[trigger] n[i as int])[q] <= max_values@[q],
            decreases max_values@.len() - p,
        {
            if row[p] > max_values[p] {
                max_values.set(p, row[p]);
                proof {
                    assert(n[i as int][p as int] == max_values@[p as int]);
                }
            }
            p += 1;
        }
        i += 1;
    }
    max_values
}

/// The largest entry of a nonempty vector.
pub fn max_entry(v: &Vec<i16>) -> (r: i16)
    requires
        v@.len() >= 1,
    ensures
        exists|p: int| 0 <= p < v@.len() && (#[trigger] v@[p]) == r,
        forall|p: int| 0 <= p < v@.len() ==> (#[trigger] v@[p]) <= r,
{
    let mut best = v[0];
    let mut p: usize = 1;
    while p < v.len()
        invariant
            1 <= p <= v@.len(),
            exists|q: int| 0 <= q < p && (#[trigger] v@[q]) == best,
            forall|q: int| 0 <= q < p ==> (#[trigger] v@[q]) <= best,
        decreases v@.len() - p,
    {
        if v[p] > best {
            best = v[p];
        }
        p += 1;
    }
    best
}

/// The condensation of the reachability graph, summarized for the liveness
/// check: per strongly connected component, whether its internal edges carry
/// all transition labels, and whether any edge leaves it.
pub struct SccGraph {
    pub labels_complete: Vec<bool>,
    pub has_outgoing: Vec<bool>,
}

/// Index and length of a deep view agree with the plain views.
proof fn lemma_deep_view_index_usize(v: &Vec<Vec<usize>>, i: int)
    requires
        0 <= i < v@.len(),
    ensures
        v.deep_view().len() == v@.len(),
        v.deep_view()[i] == v@[i]@,
{
    assert(v.deep_view()[i] =~= v@[i]@);
}

/// Map each node to the index of its strongly connected component.
fn node_to_scc_map(comps: &Vec<Vec<usize>>, n: usize) -> (r: Vec<usize>)
    requires
        forall|c: int| 0 <= c < comps@.len()
            ==> (#[trigger] comps.deep_view()[c]).len() >= 1,
        forall|c: int, k: int|
            0 <= c < comps@.len() && 0 <= k < comps.deep_view()[c].len()
                ==> (#[trigger] comps.deep_view()[c][k]) < n,
        forall|v: int| 0 <= v < n ==> #[trigger] occurs_in(comps.deep_view(), v),
        forall|c: int, k: int, c2: int, k2: int|
            0 <= c < comps@.len() && 0 <= k < comps.deep_view()[c].len() && 0 <= c2 < comps@.len()
                && 0 <= k2 < comps.deep_view()[c2].len() && (#[trigger] comps.deep_view()[c][k])
                == (#[trigger] comps.deep_view()[c2][k2]) ==> c == c2 && k == k2,
    ensures
        r@.len() == n,
        forall|c: int, k: int|
            0 <= c < comps@.len() && 0 <= k < comps.deep_view()[c].len()
                ==> r@[(#[trigger] comps.deep_view()[c][k]) as int] == c,
{
    let ghost cv = comps.deep_view();
    let mut r = zero_row(n);
    let mut c: usize = 0;
    while c < comps.len()
        invariant
            cv == comps.deep_view(),
            r@.len() == n,
            c <= comps@.len(),
            forall|c2: int, k2: int|
                0 <= c2 < cv.len() && 0 <= k2 < cv[c2].len()
                    ==> (#[trigger] cv[c2][k2]) < n,
            forall|c2: int, k2: int|
                0 <= c2 < c && 0 <= k2 < cv[c2].len()
                    ==> r@[(#[trigger] cv[c2][k2]) as int] == c2,
            forall|c2: int, k2: int, c3: int, k3: int|
                0 <= c2 < cv.len() && 0 <= k2 < cv[c2].len() && 0 <= c3 < cv.len() && 0 <= k3
                    < cv[c3].len() && (#[trigger] cv[c2][k2]) == (#[trigger] cv[c3][k3])
                    ==> c2 == c3 && k2 == k3,
        decreases comps@.len() - c,
    {
        proof {
            lemma_deep_view_index_usize(comps, c as int);
        }
        let comp = &comps[c];
        let mut k: usize = 0;
        while k < comp.len()
            invariant
                cv == comps.deep_view(),
                r@.len() == n,
                c < cv.len(),
                comp@ == cv[c as int],
                k <= comp@.len(),
                forall|c2: int, k2: int|
                    0 <= c2 < cv.len() && 0 <= k2 < cv[c2].len()
                        ==> (#[trigger] cv[c2][k2]) < n,
                forall|c2: int, k2: int|
                    0 <= c2 < c && 0 <= k2 < cv[c2].len()
                        ==> r@[(#[trigger] cv[c2][k2]) as int] == c2,
                forall|k2: int| 0 <= k2 < k
                    ==> r@[(#[trigger] cv[c as int][k2]) as int] == c as int,
                forall|c2: int, k2: int, c3: int, k3: int|
                    0 <= c2 < cv.len() && 0 <= k2 < cv[c2].len() && 0 <= c3 < cv.len() && 0 <= k3
                        < cv[c3].len() && (#[trigger] cv[c2][k2]) == (#[trigger] cv[c3][k3])
                        ==> c2 == c3 && k2 == k3,
            decreases comp@.len() - k,
        {
            let v = comp[k];
            proof {
                assert(cv[c as int][k as int] == v);
            }
            r.set(v, c);
            proof {
                assert forall|c2: int, k2: int| 0 <= c2 < c && 0 <= k2 < cv[c2].len()
                    implies r@[(#[trigger] cv[c2][k2]) as int] == c2 by {
                    assert(cv[c2][k2] != cv[c as int][k as int]);
                }
                assert forall|k2: int| 0 <= k2 < k
                    implies r@[(#[trigger] cv[c as int][k2]) as int] == c as int by {
                    assert(cv[c as int][k2] != cv[c as int][k as int]);
                }
            }
            k += 1;
        }
        c += 1;
    }
    r
}

/// Some edge leaves component `c`.
pub open spec fn comp_has_outgoing(cv: Seq<Seq<usize>>, es: Seq<RgEdge>, c: int) -> bool {
    exists|k: int|
        0 <= k < es.len() && comp_index(cv, (#[trigger] es[k]).from as int) == c && comp_index(
            cv,
            es[k].to as int,
        ) != c
}

/// Some edge inside component `c` carries label `t`.
pub open spec fn comp_intra_label(cv: Seq<Seq<usize>>, es: Seq<RgEdge>, c: int, t: int) -> bool {
    exists|k: int|
        0 <= k < es.len() && comp_index(cv, (#[trigger] es[k]).from as int) == c && comp_index(
            cv,
            es[k].to as int,
        ) == c && es[k].label == t
}

/// The internal edges of component `c` carry all `t_count` labels.
pub open spec fn comp_all_labels(cv: Seq<Seq<usize>>, es: Seq<RgEdge>, c: int, t_count: nat) -> bool {
    forall|t: int| 0 <= t < t_count ==> #[trigger] comp_intra_label(cv, es, c, t)
}

/// Build the condensation summary: per strongly connected component,
/// whether its internal edges carry every transition label, and whether any
/// edge leaves it.
pub fn create_scc_graph(
    sccs: &Vec<Vec<usize>>,
    rg: &ReachabilityGraph,
    transitions: usize,
) -> (g: SccGraph)
    requires
        is_scc_partition(sccs.deep_view(), rg.nodes@.len() as nat, rg_edge_pairs(rg.edges@)),
        forall|k: int| 0 <= k < rg.edges@.len()
            ==> (#[trigger] rg.edges@[k]).from < rg.nodes@.len() && rg.edges@[k].to
                < rg.nodes@.len() && 0 <= rg.edges@[k].label < transitions,
    ensures
        g.labels_complete@.len() == sccs@.len(),
        g.has_outgoing@.len() == sccs@.len(),
        forall|c: int| 0 <= c < sccs@.len()
            ==> ((#[trigger] g.has_outgoing@[c]) <==> comp_has_outgoing(
                sccs.deep_view(),
                rg.edges@,
                c,
            )),
        forall|c: int| 0 <= c < sccs@.len()
            ==> ((#[trigger] g.labels_complete@[c]) <==> comp_all_labels(
                sccs.deep_view(),
                rg.edges@,
                c,
                transitions as nat,
            )),
{
    let ghost cv = sccs.deep_view();
    let ghost es = rg.edges@;
    let n_count = rg.nodes.len();
    proof {
        lemma_partition_semantics(cv, n_count as nat, rg_edge_pairs(es));
    }
    let nts = node_to_scc_map(sccs, n_count);
    proof {
        assert forall|c: int, k: int| 0 <= c < cv.len() && 0 <= k < cv[c].len()
            implies comp_index(cv, (#[trigger] cv[c][k]) as int) == c by {
            assert(in_comp(cv, c, cv[c][k] as int));
        }
        assert forall|v: int| 0 <= v < n_count
            implies #[trigger] nts@[v] == comp_index(cv, v) by {
            assert(occurs_in(cv, v));
            let (c, k) = choose|c: int, k: int|
                0 <= c < cv.len() && 0 <= k < cv[c].len() && (#[trigger] cv[c][k]) == v;
            assert(nts@[cv[c][k] as int] == c);
            assert(comp_index(cv, cv[c][k] as int) == c);
        }
    }
    let mut labels_complete: Vec<bool> = Vec::new();
    let mut has_outgoing: Vec<bool> = Vec::new();
    let mut c: usize = 0;
    while c < sccs.len()
        invariant
            cv == sccs.deep_view(),
            es == rg.edges@,
            nts@.len() == n_count,
            n_count == rg.nodes@.len(),
            forall|v: int| 0 <= v < n_count ==> #[trigger] nts@[v] == comp_index(cv, v),
            forall|k: int| 0 <= k < es.len()
                ==> (#[trigger] es[k]).from < n_count && es[k].to < n_count && 0 <= es[k].label
                    < transitions,
            c <= cv.len(),
            labels_complete@.len() == c,
            has_outgoing@.len() == c,
            forall|c2: int| 0 <= c2 < c
                ==> ((#[trigger] has_outgoing@[c2]) <==> comp_has_outgoing(cv, es, c2)),
            forall|c2: int| 0 <= c2 < c
                ==> ((#[trigger] labels_complete@[c2]) <==> comp_all_labels(
                    cv,
                    es,
                    c2,
                    transitions as nat,
                )),
        decreases cv.len() - c,
    {
        // which labels occur on edges inside component c, and whether any
        // edge leaves it
        let mut seen = crate::updates::false_row(transitions);
        let mut out = false;
        let mut k: usize = 0;
        while k < rg.edges.len()
            invariant
                cv == sccs.deep_view(),
                es == rg.edges@,
                nts@.len() == n_count,
                n_count == rg.nodes@.len(),
                forall|v: int| 0 <= v < n_count ==> #[trigger] nts@[v] == comp_index(cv, v),
                forall|k2: int| 0 <= k2 < es.len()
                    ==> (#[trigger] es[k2]).from < n_count && es[k2].to < n_count && 0
                        <= es[k2].label < transitions,
                k <= es.len(),
                seen@.len() == transitions,
                forall|t: int| 0 <= t < transitions
                    ==> ((#[trigger] seen@[t]) <==> exists|k2: int|
                        0 <= k2 < k && comp_index(cv, (#[trigger] es[k2]).from as int)
                            == c as int && comp_index(cv, es[k2].to as int) == c as int
                            && es[k2].label == t),
                out <==> exists|k2: int|
                    0 <= k2 < k && comp_index(cv, (#[trigger] es[k2]).from as int) == c as int
                        && comp_index(cv, es[k2].to as int) != c as int,
            decreases es.len() - k,
        {
            let e_from = rg.edges[k].from;
            let e_to = rg.edges[k].to;
            let e_label = rg.edges[k].label;
            let ghost seen_pre = seen@;
            let ghost out_pre = out;
            let source_scc = nts[e_from];
            let target_scc = nts[e_to];
            if source_scc == c && target_scc == c {
                seen.set(e_label as usize, true);
                proof {
                    assert(es[k as int].from == e_from && es[k as int].to == e_to
                        && es[k as int].label == e_label);
                    assert forall|t: int| 0 <= t < transitions
                        implies ((#[trigger] seen@[t]) <==> exists|k2: int|
                        0 <= k2 < k + 1 && comp_index(cv, (#[trigger] es[k2]).from as int)
                            == c as int && comp_index(cv, es[k2].to as int) == c as int
                            && es[k2].label == t) by {
                        if t == e_label as int {
                            assert(comp_index(cv, es[k as int].from as int) == c as int);
                            assert(comp_index(cv, es[k as int].to as int) == c as int);
                        } else {
                            assert(seen@[t] == seen_pre[t]);
                            assert forall|k2: int|
                                0 <= k2 < k + 1 && comp_index(
                                    cv,
                                    (#[trigger] es[k2]).from as int,
                                ) == c as int && comp_index(cv, es[k2].to as int) == c as int
                                    && es[k2].label == t implies k2 < k by {
                                if k2 == k {
                                    assert(es[k2].label == e_label);
                                }
                            }
                        }
                    }
                }
            } else {
                if source_scc == c {
                    out = true;
                    proof {
                        assert(comp_index(cv, es[k as int].from as int) == c as int);
                        assert(comp_index(cv, es[k as int].to as int) != c as int);
                    }
                } else {
                    proof {
                        assert forall|k2: int|
                            0 <= k2 < k + 1 && comp_index(cv, (#[trigger] es[k2]).from as int)
                                == c as int && comp_index(cv, es[k2].to as int) != c as int
                            implies k2 < k by {
                            if k2 == k {
                                assert(nts@[es[k2].from as int] == comp_index(
                                    cv,
                                    es[k2].from as int,
                                ));
                            }
                        }
                    }
                }
                proof {
                    assert forall|t: int| 0 <= t < transitions
                        implies ((#[trigger] seen@[t]) <==> exists|k2: int|
                        0 <= k2 < k + 1 && comp_index(cv, (#[trigger] es[k2]).from as int)
                            == c as int && comp_index(cv, es[k2].to as int) == c as int
                            && es[k2].label == t) by {
                        assert forall|k2: int|
                            0 <= k2 < k + 1 && comp_index(cv, (#[trigger] es[k2]).from as int)
                                == c as int && comp_index(cv, es[k2].to as int) == c as int
                                && es[k2].label == t implies k2 < k by {
                            if k2 == k {
                                assert(nts@[es[k2].from as int] == comp_index(
                                    cv,
                                    es[k2].from as int,
                                ));
                                assert(nts@[es[k2].to as int] == comp_index(
                                    cv,
                                    es[k2].to as int,
                                ));
                            }
                        }
                    }
                }
            }
            k += 1;
        }
        let full = crate::updates::all_true(&seen);
        proof {
            if full {
                assert forall|t: int| 0 <= t < transitions
                    implies #[trigger] comp_intra_label(cv, es, c as int, t) by {
                    assert(seen@[t]);
                }
            } else {
                let t0 = choose|t: int| 0 <= t < seen@.len() && !(#[trigger] seen@[t]);
                assert(!comp_intra_label(cv, es, c as int, t0));
            }
        }
        labels_complete.push(full);
        has_outgoing.push(out);
        c += 1;
    }
    SccGraph { labels_complete, has_outgoing }
}

/// Liveness over the condensation summary: every terminal component (one
/// with no outgoing edge) must carry all labels internally.
pub fn check_liveness(scc_graph: &SccGraph) -> (r: bool)
    requires
        scc_graph.labels_complete@.len() == scc_graph.has_outgoing@.len(),
    ensures
        r == (forall|c: int|
            0 <= c < scc_graph.has_outgoing@.len() && !(#[trigger] scc_graph.has_outgoing@[c])
                ==> scc_graph.labels_complete@[c]),
{
    let mut liveness = true;
    let mut c: usize = 0;
    while c < scc_graph.has_outgoing.len()
        invariant
            scc_graph.labels_complete@.len() == scc_graph.has_outgoing@.len(),
            c <= scc_graph.has_outgoing@.len(),
            liveness == (forall|c2: int|
                0 <= c2 < c && !(#[trigger] scc_graph.has_outgoing@[c2])
                    ==> scc_graph.labels_complete@[c2]),
        decreases scc_graph.has_outgoing@.len() - c,
    {
        if !scc_graph.has_outgoing[c] {
            // terminal component: it must be labeled complete
            if !scc_graph.labels_complete[c] {
                liveness = false;
            }
        }
        c += 1;
    }
    liveness
}

/// Build the plain shadow graph that Tarjan's algorithm runs on: the same
/// node indices, the same edge pairs, no weights.
fn build_shadow_graph(rg: &ReachabilityGraph) -> (g: petgraph::graph::DiGraph<(), (), usize>)
    requires
        forall|k: int| 0 <= k < rg.edges@.len()
            ==> (#[trigger] rg.edges@[k]).from < rg.nodes@.len() && rg.edges@[k].to
                < rg.nodes@.len(),
    ensures
        graph_nodes(g) == rg.nodes@.len(),
        graph_edges(g) == rg_edge_pairs(rg.edges@),
{
    let ghost es = rg.edges@;
    let mut g = pg_new_graph();
    let mut i: usize = 0;
    while i < rg.nodes.len()
        invariant
            i <= rg.nodes@.len(),
            graph_nodes(g) == i,
            graph_edges(g) == Set::<(int, int)>::empty(),
        decreases rg.nodes@.len() - i,
    {
        pg_add_node(&mut g);
        i += 1;
    }
    proof {
        assert(graph_edges(g) =~= edge_pairs_prefix(es, 0));
    }
    let mut k: usize = 0;
    while k < rg.edges.len()
        invariant
            es == rg.edges@,
            forall|k2: int| 0 <= k2 < es.len()
                ==> (#[trigger] es[k2]).from < rg.nodes@.len() && es[k2].to < rg.nodes@.len(),
            k <= es.len(),
            graph_nodes(g) == rg.nodes@.len(),
            graph_edges(g) == edge_pairs_prefix(es, k as int),
        decreases es.len() - k,
    {
        let a = rg.edges[k].from;
        let b = rg.edges[k].to;
        let ghost pre = graph_edges(g);
        pg_add_edge(&mut g, a, b);
        proof {
            assert(graph_edges(g) =~= edge_pairs_prefix(es, k + 1)) by {
                assert forall|pr: (int, int)| #[trigger] graph_edges(g).contains(pr)
                    implies edge_pairs_prefix(es, k + 1).contains(pr) by {
                    if pr == (a as int, b as int) {
                        assert(es[k as int].from == pr.0 && es[k as int].to == pr.1);
                    } else {
                        assert(pre.contains(pr));
                        let k2 = choose|k2: int|
                            0 <= k2 < k && (#[trigger] es[k2]).from == pr.0 && es[k2].to == pr.1;
                        assert(0 <= k2 < k + 1 && es[k2].from == pr.0 && es[k2].to == pr.1);
                    }
                }
                assert forall|pr: (int, int)| #[trigger] edge_pairs_prefix(es, k + 1).contains(pr)
                    implies graph_edges(g).contains(pr) by {
                    let k2 = choose|k2: int|
                        0 <= k2 < k + 1 && (#[trigger] es[k2]).from == pr.0 && es[k2].to == pr.1;
                    if k2 < k {
                        assert(edge_pairs_prefix(es, k as int).contains(pr));
                        assert(pre.contains(pr));
                    } else {
                        assert(pr == (a as int, b as int));
                    }
                }
            }
        }
        k += 1;
    }
    proof {
        assert(edge_pairs_prefix(es, es.len() as int) =~= rg_edge_pairs(es));
    }
    g
}

/// A single component among at least one node means every pair of nodes is
/// mutually connected, and conversely.
proof fn lemma_reversible_bridge(cv: Seq<Seq<usize>>, n: nat, es: Seq<RgEdge>)
    requires
        is_scc_partition(cv, n, rg_edge_pairs(es)),
        n >= 1,
    ensures
        (cv.len() == 1) <==> (forall|a: int, b: int|
            0 <= a < n && 0 <= b < n ==> #[trigger] same_scc(rg_edge_pairs(es), a, b)),
{
    lemma_partition_semantics(cv, n, rg_edge_pairs(es));
    assert(occurs_in(cv, 0));
    let (c0, k0) = choose|c: int, k: int|
        0 <= c < cv.len() && 0 <= k < cv[c].len() && (#[trigger] cv[c][k]) == 0;
    if cv.len() == 1 {
        assert forall|a: int, b: int| 0 <= a < n && 0 <= b < n
            implies #[trigger] same_scc(rg_edge_pairs(es), a, b) by {
            assert(0 <= comp_index(cv, a) < cv.len());
            assert(0 <= comp_index(cv, b) < cv.len());
        }
    } else {
        let va = cv[0][0] as int;
        let vb = cv[1][0] as int;
        assert(in_comp(cv, 0, va));
        assert(in_comp(cv, 1, vb));
        assert(comp_index(cv, va) == 0);
        assert(comp_index(cv, vb) == 1);
        assert(va < n && vb < n);
        assert(!same_scc(rg_edge_pairs(es), va, vb));
    }
}

/// Liveness over the condensation summary coincides with liveness stated
/// over the nodes themselves.
proof fn lemma_liveness_bridge(cv: Seq<Seq<usize>>, n: nat, es: Seq<RgEdge>, t_count: nat)
    requires
        is_scc_partition(cv, n, rg_edge_pairs(es)),
        forall|k: int| 0 <= k < es.len()
            ==> (#[trigger] es[k]).from < n && es[k].to < n,
    ensures
        spec_live(n, es, t_count) <==> (forall|c: int|
            0 <= c < cv.len() && !(#[trigger] comp_has_outgoing(cv, es, c)) ==> comp_all_labels(
                cv,
                es,
                c,
                t_count,
            )),
{
    lemma_partition_semantics(cv, n, rg_edge_pairs(es));
    let pairs = rg_edge_pairs(es);
    assert forall|v: int| 0 <= v < n
        implies (#[trigger] scc_terminal(es, v) <==> !comp_has_outgoing(
        cv,
        es,
        comp_index(cv, v),
    )) by {
        let c = comp_index(cv, v);
        if scc_terminal(es, v) {
            if comp_has_outgoing(cv, es, c) {
                let k = choose|k: int|
                    0 <= k < es.len() && comp_index(cv, (#[trigger] es[k]).from as int) == c
                        && comp_index(cv, es[k].to as int) != c;
                assert(same_scc(pairs, v, es[k].from as int));
                assert(same_scc(pairs, v, es[k].to as int));
            }
        }
        if !comp_has_outgoing(cv, es, c) {
            assert forall|k: int|
                0 <= k < es.len() && same_scc(pairs, v, (#[trigger] es[k]).from as int)
                implies same_scc(pairs, v, es[k].to as int) by {
                assert(comp_index(cv, es[k].from as int) == c);
                assert(comp_index(cv, es[k].to as int) == c);
                assert(same_scc(pairs, v, es[k].to as int));
            }
        }
    }
    assert forall|v: int, t: int| 0 <= v < n
        implies (#[trigger] has_intra_label(es, v, t) <==> comp_intra_label(
        cv,
        es,
        comp_index(cv, v),
        t,
    )) by {
        let c = comp_index(cv, v);
        if has_intra_label(es, v, t) {
            let k = choose|k: int|
                0 <= k < es.len() && same_scc(pairs, v, (#[trigger] es[k]).from as int)
                    && same_scc(pairs, v, es[k].to as int) && es[k].label == t;
            assert(comp_index(cv, es[k].from as int) == c);
            assert(comp_index(cv, es[k].to as int) == c);
        }
        if comp_intra_label(cv, es, c, t) {
            let k = choose|k: int|
                0 <= k < es.len() && comp_index(cv, (#[trigger] es[k]).from as int) == c
                    && comp_index(cv, es[k].to as int) == c && es[k].label == t;
            assert(same_scc(pairs, v, es[k].from as int));
            assert(same_scc(pairs, v, es[k].to as int));
        }
    }
    if spec_live(n, es, t_count) {
        assert forall|c: int| 0 <= c < cv.len() && !(#[trigger] comp_has_outgoing(cv, es, c))
            implies comp_all_labels(cv, es, c, t_count) by {
            let v = cv[c][0] as int;
            assert(in_comp(cv, c, v));
            assert(comp_index(cv, v) == c);
            assert(0 <= v < n);
            assert(scc_terminal(es, v));
            assert(scc_fires_all(es, v, t_count));
            assert forall|t: int| 0 <= t < t_count
                implies #[trigger] comp_intra_label(cv, es, c, t) by {
                assert(has_intra_label(es, v, t));
            }
        }
    }
    if forall|c: int|
        0 <= c < cv.len() && !(#[trigger] comp_has_outgoing(cv, es, c)) ==> comp_all_labels(
            cv,
            es,
            c,
            t_count,
        ) {
        assert forall|v: int| 0 <= v < n && #[trigger] scc_terminal(es, v)
            implies scc_fires_all(es, v, t_count) by {
            let c = comp_index(cv, v);
            assert(!comp_has_outgoing(cv, es, c));
            assert(comp_all_labels(cv, es, c, t_count));
            assert forall|t: int| 0 <= t < t_count
                implies #[trigger] has_intra_label(es, v, t) by {
                assert(comp_intra_label(cv, es, c, t));
            }
        }
    }
}

/// Derive the property tuple of a constructed reachability graph: the exact
/// per-place bound vector and its maximum, the deadlock flag as found during
/// construction, and, for deadlock-free graphs, reversibility (single
/// strongly connected component, at least one edge) and liveness (every
/// terminal component fires all transitions internally).
pub fn check_properties(result: &RGResult, transitions: usize) -> (r: RGProperties)
    requires
        result.rg.nodes@.len() >= 1,
        result.rg.nodes.deep_view()[0].len() >= 1,
        forall|i: int| 0 <= i < result.rg.nodes@.len()
            ==> (#[trigger] result.rg.nodes.deep_view()[i]).len()
                == result.rg.nodes.deep_view()[0].len(),
        forall|k: int| 0 <= k < result.rg.edges@.len()
            ==> (#[trigger] result.rg.edges@[k]).from < result.rg.nodes@.len()
                && result.rg.edges@[k].to < result.rg.nodes@.len() && 0
                <= result.rg.edges@[k].label < transitions,
    ensures
        r.bounded_vec@.len() == result.rg.nodes.deep_view()[0].len(),
        forall|p: int| 0 <= p < r.bounded_vec@.len()
            ==> exists|i: int|
                0 <= i < result.rg.nodes@.len() && (result.rg.nodes.deep_view()[i])[p]
                    == #[trigger] r.bounded_vec@[p],
        forall|i: int, p: int| 0 <= i < result.rg.nodes@.len() && 0 <= p < r.bounded_vec@.len()
            ==> #[trigger] result.rg.nodes.deep_view()[i][p] <= r.bounded_vec@[p],
        exists|p: int| 0 <= p < r.bounded_vec@.len() && (#[trigger] r.bounded_vec@[p])
            == r.k_bounded,
        forall|p: int| 0 <= p < r.bounded_vec@.len() ==> (#[trigger] r.bounded_vec@[p])
            <= r.k_bounded,
        r.has_deadlock == result.has_deadlock,
        result.has_deadlock ==> !r.liveness && !r.reversible,
        !result.has_deadlock ==> r.reversible == spec_reversible(
            result.rg.nodes@.len() as nat,
            result.rg.edges@,
        ),
        !result.has_deadlock ==> r.liveness == spec_live(
            result.rg.nodes@.len() as nat,
            result.rg.edges@,
            transitions as nat,
        ),
{
    let bounded_vector = get_bounded_vector(&result.rg);
    let k_bounded = max_entry(&bounded_vector);
    let ghost pw = choose|p: int|
        0 <= p < bounded_vector@.len() && (#[trigger] bounded_vector@[p]) == k_bounded;
    if result.has_deadlock {
        // a deadlocked net is neither live nor reversible; skip the
        // component analysis
        let res = RGProperties {
            liveness: false,
            reversible: false,
            bounded_vec: bounded_vector,
            k_bounded,
            has_deadlock: result.has_deadlock,
        };
        proof {
            assert(res.bounded_vec@[pw] == res.k_bounded);
        }
        return res;
    }
    let ghost es = result.rg.edges@;
    let ghost n_count = result.rg.nodes@.len() as nat;
    let rg = &result.rg;
    let shadow = build_shadow_graph(rg);
    let sccs = pg_tarjan(&shadow);
    let scc_graph = create_scc_graph(&sccs, rg, transitions);

    let reversible = sccs.len() == 1 && rg.edges.len() > 0;
    let liveness = check_liveness(&scc_graph);
    proof {
        lemma_reversible_bridge(sccs.deep_view(), n_count, es);
        lemma_liveness_bridge(sccs.deep_view(), n_count, es, transitions as nat);
        assert(sccs@.len() == sccs.deep_view().len());
        assert(liveness == (forall|c: int|
            0 <= c < sccs.deep_view().len() && !(#[trigger] comp_has_outgoing(
                sccs.deep_view(),
                es,
                c,
            )) ==> comp_all_labels(sccs.deep_view(), es, c, transitions as nat))) by {
            if liveness {
                assert forall|c: int|
                    0 <= c < sccs.deep_view().len() && !(#[trigger] comp_has_outgoing(
                        sccs.deep_view(),
                        es,
                        c,
                    )) implies comp_all_labels(sccs.deep_view(), es, c, transitions as nat) by {
                    assert(!scc_graph.has_outgoing@[c]);
                    assert(scc_graph.labels_complete@[c]);
                }
            } else {
                let c = choose|c: int|
                    0 <= c < scc_graph.has_outgoing@.len() && !(
                    #[trigger] scc_graph.has_outgoing@[c]) && !scc_graph.labels_complete@[c];
                assert(!comp_has_outgoing(sccs.deep_view(), es, c));
                assert(!comp_all_labels(sccs.deep_view(), es, c, transitions as nat));
            }
        }
    }
    let res = RGProperties {
        liveness,
        reversible,
        bounded_vec: bounded_vector,
        k_bounded,
        has_deadlock: result.has_deadlock,
    };
    proof {
        assert(res.bounded_vec@[pw] == res.k_bounded);
    }
    res
}

} // verus!
