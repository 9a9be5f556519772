//! Coverability checks on the reachability graph under construction. The
//! default pseudo mode cuts off as soon as a marking component exceeds a
//! fixed bound; the full mode looks for an ancestor marking that the new
//! marking strictly dominates (the classical unboundedness witness).

use vstd::prelude::*;
use vstd::pervasive::VecAdditionalExecFns;

use crate::net::lemma_deep_view_index;
use crate::properties::rg_edge_pairs;
use crate::reachability::{COVER_LIMIT, ReachabilityGraph, RgEdge, in_queue};
use crate::scc::{is_path, path_connected};
use crate::updates::false_row;

verus! {

/// `a` strictly dominates `b`: componentwise at least as large, and larger
/// in at least one place.
pub open spec fn spec_strictly_greater(a: Seq<i16>, b: Seq<i16>) -> bool {
    &&& forall|p: int| 0 <= p < a.len() ==> #[trigger] b[p] <= a[p]
    &&& exists|p: int| 0 <= p < a.len() && #[trigger] a[p] > b[p]
}

/// Componentwise strict domination, both conditions read off in one pass.
pub fn is_strictly_greater_than(arr1: &Vec<i16>, arr2: &Vec<i16>) -> (r: bool)
    requires
        arr1@.len() == arr2@.len(),
    ensures
        r == spec_strictly_greater(arr1@, arr2@),
{
    let mut found_strictly_greater = false;
    let mut found_less = false;
    let mut p: usize = 0;
    while p < arr1.len()
        invariant
            arr1@.len() == arr2@.len(),
            p <= arr1@.len(),
            found_less == exists|q: int| 0 <= q < p && #[trigger] arr1@[q] < arr2@[q],
            found_strictly_greater == exists|q: int| 0 <= q < p && #[trigger] arr1@[q] > arr2@[q],
        decreases arr1@.len() - p,
    {
        // check both so both arrays are only iterated once
        if arr1[p] < arr2[p] {
            found_less = true;
        }
        if arr1[p] > arr2[p] {
            found_strictly_greater = true;
        }
        p += 1;
    }
    !found_less && found_strictly_greater
}

/// How many entries hold.
pub open spec fn count_true(s: Seq<bool>) -> nat
    decreases s.len(),
{
    if s.len() == 0 {
        0
    } else {
        count_true(s.drop_last()) + (if s.last() {
            1nat
        } else {
            0nat
        })
    }
}

proof fn lemma_count_true_le(s: Seq<bool>)
    ensures
        count_true(s) <= s.len(),
    decreases s.len(),
{
    if s.len() > 0 {
        lemma_count_true_le(s.drop_last());
    }
}

proof fn lemma_count_true_update(s: Seq<bool>, i: int)
    requires
        0 <= i < s.len(),
        !s[i],
    ensures
        count_true(s.update(i, true)) == count_true(s) + 1,
    decreases s.len(),
{
    let s2 = s.update(i, true);
    if i == s.len() - 1 {
        assert(s2.drop_last() =~= s.drop_last());
        assert(s2.last());
        assert(!s.last());
    } else {
        assert(s2.drop_last() =~= s.drop_last().update(i, true));
        assert(s2.last() == s.last());
        lemma_count_true_update(s.drop_last(), i);
    }
}

/// An edge into the start of a path extends the path.
proof fn lemma_path_prepend(pairs: Set<(int, int)>, a: int, b: int, c: int)
    requires
        pairs.contains((a, b)),
        path_connected(pairs, b, c),
    ensures
        path_connected(pairs, a, c),
{
    let p = choose|p: Seq<int>| #[trigger] is_path(pairs, p) && p.first() == b && p.last() == c;
    let p2 = seq![a] + p;
    assert(is_path(pairs, p2)) by {
        assert forall|k: int| 0 <= k < p2.len() - 1
            implies #[trigger] pairs.contains((p2[k], p2[k + 1])) by {
            if k == 0 {
                assert(p2[0] == a);
                assert(p2[1] == p[0]);
                assert(p[0] == b);
            } else {
                let j = k - 1;
                assert(p2[k] == p[j]);
                assert(p2[k + 1] == p[j + 1]);
                assert(pairs.contains((p[j], p[j + 1])));
            }
        }
    }
    assert(p2.first() == a);
    assert(p2.last() == c);
}

/// A node reaches itself by the trivial path.
proof fn lemma_path_refl(pairs: Set<(int, int)>, a: int)
    ensures
        path_connected(pairs, a, a),
{
    let p = seq![a];
    assert(is_path(pairs, p));
    assert(p.first() == a && p.last() == a);
}

/// Once the traversal has drained, the visited set is closed under
/// predecessors, so it holds every node with a path to the target.
proof fn lemma_ancestors_visited(
    es: Seq<RgEdge>,
    visited: Seq<bool>,
    p: Seq<int>,
    n: nat,
)
    requires
        visited.len() == n,
        forall|k: int| 0 <= k < es.len()
            ==> (#[trigger] es[k]).from < n && es[k].to < n,
        forall|k: int| 0 <= k < es.len() && visited[(#[trigger] es[k]).to as int]
            ==> visited[es[k].from as int],
        is_path(rg_edge_pairs(es), p),
        0 <= p.first() < n,
        0 <= p.last() < n,
        visited[p.last()],
    ensures
        visited[p.first()],
    decreases p.len(),
{
    if p.len() == 1 {
    } else {
        let j0: int = 0;
        assert(rg_edge_pairs(es).contains((p[j0], p[j0 + 1])));
        let k = choose|k: int|
            0 <= k < es.len() && (#[trigger] es[k]).from == p[0] && es[k].to == p[1];
        assert(0 <= p[1] < n);
        let tail = p.drop_first();
        assert(is_path(rg_edge_pairs(es), tail)) by {
            assert forall|j: int| 0 <= j < tail.len() - 1
                implies #[trigger] rg_edge_pairs(es).contains((tail[j], tail[j + 1])) by {
                let i = j + 1;
                assert(tail[j] == p[i]);
                assert(tail[j + 1] == p[i + 1]);
                assert(rg_edge_pairs(es).contains((p[i], p[i + 1])));
            }
        }
        assert(tail.first() == p[1]);
        assert(tail.last() == p.last());
        lemma_ancestors_visited(es, visited, tail, n);
        assert(visited[es[k].to as int]);
        assert(visited[es[k].from as int]);
    }
}

/// Decide whether the freshly added node signals an unbounded net. In
/// pseudo mode, the cheap default, this is a fixed cutoff on its token
/// counts. In full mode it is the classical test: some ancestor of the new
/// node (a node with a path to it, itself included) is strictly dominated
/// by it.
pub fn is_covering(new_node: usize, graph: &ReachabilityGraph, pseudo: bool) -> (r: bool)
    requires
        new_node < graph.nodes@.len(),
        forall|i: int| 0 <= i < graph.nodes@.len()
            ==> (#[trigger] graph.nodes.deep_view()[i]).len()
                == graph.nodes.deep_view()[0].len(),
        forall|k: int| 0 <= k < graph.edges@.len()
            ==> (#[trigger] graph.edges@[k]).from < graph.nodes@.len() && graph.edges@[k].to
                < graph.nodes@.len(),
    ensures
        pseudo ==> r == exists|p: int|
            0 <= p < graph.nodes.deep_view()[new_node as int].len()
                && (#[trigger] graph.nodes.deep_view()[new_node as int][p]) > COVER_LIMIT,
        !pseudo ==> r == exists|w: int|
            0 <= w < graph.nodes@.len() && #[trigger] path_connected(
                rg_edge_pairs(graph.edges@),
                w,
                new_node as int,
            ) && spec_strictly_greater(
                graph.nodes.deep_view()[new_node as int],
                graph.nodes.deep_view()[w],
            ),
{
    let ghost nv = graph.nodes.deep_view();
    let ghost es = graph.edges@;
    let ghost pairs = rg_edge_pairs(graph.edges@);
    let n = graph.nodes.len();
    proof {
        lemma_deep_view_index(&graph.nodes, new_node as int);
    }
    let new_node_weight = &graph.nodes[new_node];

    if pseudo {
        let mut p: usize = 0;
        while p < new_node_weight.len()
            invariant
                pseudo,
                nv == graph.nodes.deep_view(),
                new_node < graph.nodes@.len(),
                new_node_weight@ == nv[new_node as int],
                p <= new_node_weight@.len(),
                forall|q: int| 0 <= q < p ==> !((#[trigger] new_node_weight@[q]) > COVER_LIMIT),
            decreases new_node_weight@.len() - p,
        {
            if new_node_weight[p] > COVER_LIMIT {
                proof {
                    assert(nv[new_node as int][p as int] > COVER_LIMIT);
                }
                return true;
            }
            p += 1;
        }
        return false;
    }

    let mut visited = false_row(n);
    let mut stack: Vec<usize> = Vec::new();
    visited.set(new_node, true);
    stack.push(new_node);
    proof {
        lemma_path_refl(pairs, new_node as int);
        lemma_count_true_le(visited@);
        assert(stack@[0] == new_node);
        assert(in_queue(stack@, new_node as int));
        assert forall|i: int| 0 <= i < n && #[trigger] visited@[i]
            implies i == new_node as int by {}
    }

    while stack.len() > 0
        invariant
            !pseudo,
            nv == graph.nodes.deep_view(),
            es == graph.edges@,
            pairs == rg_edge_pairs(graph.edges@),
            n == graph.nodes@.len(),
            new_node < n,
            new_node_weight@ == nv[new_node as int],
            forall|i: int| 0 <= i < n ==> (#[trigger] nv[i]).len() == nv[0].len(),
            forall|k: int| 0 <= k < es.len()
                ==> (#[trigger] es[k]).from < n && es[k].to < n,
            visited@.len() == n,
            count_true(visited@) <= n,
            visited@[new_node as int],
            forall|j: int| 0 <= j < stack@.len() ==> (#[trigger] stack@[j]) < n,
            forall|j: int, l: int| 0 <= j < l < stack@.len() ==> stack@[j] != stack@[l],
            forall|j: int| 0 <= j < stack@.len()
                ==> visited@[(#[trigger] stack@[j]) as int],
            forall|i: int| 0 <= i < n && #[trigger] visited@[i]
                ==> path_connected(pairs, i, new_node as int),
            forall|k: int|
                0 <= k < es.len() && visited@[(#[trigger] es[k]).to as int] && !in_queue(
                    stack@,
                    es[k].to as int,
                ) ==> visited@[es[k].from as int],
            forall|i: int|
                0 <= i < n && #[trigger] visited@[i] && !in_queue(stack@, i)
                    ==> !spec_strictly_greater(nv[new_node as int], nv[i]),
        decreases n - count_true(visited@), stack@.len(),
    {
        let ghost stack0 = stack@;
        let ghost visited0 = visited@;
        let x_opt = stack.pop();
        let x = match x_opt {
            Some(v) => v,
            None => {
                proof {
                    assert(false);
                }
                0
            },
        };
        proof {
            assert(x == stack0[stack0.len() - 1]);
            assert(stack@ =~= stack0.drop_last());
            assert(!in_queue(stack@, x as int)) by {
                if in_queue(stack@, x as int) {
                    let j = choose|j: int| 0 <= j < stack@.len() && stack@[j] == x as int;
                    assert(stack0[j] == x);
                    assert(stack0[j] != stack0[stack0.len() - 1]);
                }
            }
            assert forall|i: int| in_queue(stack@, i) implies in_queue(stack0, i) by {
                let j = choose|j: int| 0 <= j < stack@.len() && stack@[j] == i;
                assert(stack0[j] == i);
            }
            lemma_deep_view_index(&graph.nodes, x as int);
            assert forall|i: int| i != x as int && in_queue(stack0, i)
                implies in_queue(stack@, i) by {
                let j = choose|j: int| 0 <= j < stack0.len() && stack0[j] == i;
                assert(j < stack0.len() - 1);
                assert(stack@[j] == i);
            }
            assert forall|k2: int|
                0 <= k2 < es.len() && visited@[(#[trigger] es[k2]).to as int] && !in_queue(
                    stack@,
                    es[k2].to as int,
                ) && es[k2].to != x implies visited@[es[k2].from as int] by {
                assert(!in_queue(stack0, es[k2].to as int));
            }
            assert forall|i: int|
                0 <= i < n && #[trigger] visited@[i] && !in_queue(stack@, i) && i != x
                implies !spec_strictly_greater(nv[new_node as int], nv[i]) by {
                assert(!in_queue(stack0, i));
            }
        }
        let weight_of_node = &graph.nodes[x];
        if is_strictly_greater_than(new_node_weight, weight_of_node) {
            proof {
                assert(visited@[x as int]);
                assert(path_connected(pairs, x as int, new_node as int));
                assert(spec_strictly_greater(nv[new_node as int], nv[x as int]));
                assert(0 <= x < graph.nodes@.len());
            }
            return true;
        }
        // push every unvisited predecessor of x
        let mut k: usize = 0;
        while k < graph.edges.len()
            invariant
                nv == graph.nodes.deep_view(),
                es == graph.edges@,
                pairs == rg_edge_pairs(graph.edges@),
                n == graph.nodes@.len(),
                new_node < n,
                x < n,
                k <= es.len(),
                forall|k2: int| 0 <= k2 < es.len()
                    ==> (#[trigger] es[k2]).from < n && es[k2].to < n,
                visited@.len() == n,
                count_true(visited@) <= n,
                count_true(visited0) <= count_true(visited@),
                visited@[new_node as int],
                visited@[x as int],
                !in_queue(stack@, x as int),
                forall|i: int| 0 <= i < n && #[trigger] visited0[i] ==> visited@[i],
                stack@.len() == stack0.len() - 1 + count_true(visited@) - count_true(visited0),
                forall|j: int| 0 <= j < stack@.len() ==> (#[trigger] stack@[j]) < n,
                forall|j: int, l: int| 0 <= j < l < stack@.len() ==> stack@[j] != stack@[l],
                forall|j: int| 0 <= j < stack@.len()
                    ==> visited@[(#[trigger] stack@[j]) as int],
                forall|i: int| 0 <= i < n && #[trigger] visited@[i]
                    ==> path_connected(pairs, i, new_node as int),
                forall|k2: int|
                    0 <= k2 < es.len() && visited@[(#[trigger] es[k2]).to as int] && !in_queue(
                        stack@,
                        es[k2].to as int,
                    ) && es[k2].to != x ==> visited@[es[k2].from as int],
                forall|k2: int| 0 <= k2 < k && (#[trigger] es[k2]).to == x
                    ==> visited@[es[k2].from as int],
                forall|i: int|
                    0 <= i < n && #[trigger] visited@[i] && !in_queue(stack@, i) && i != x
                        ==> !spec_strictly_greater(nv[new_node as int], nv[i]),
                !spec_strictly_greater(nv[new_node as int], nv[x as int]),
            decreases es.len() - k,
        {
            let e_to = graph.edges[k].to;
            let e_from = graph.edges[k].from;
            if e_to == x && !visited[e_from] {
                let ghost v_pre = visited@;
                let ghost s_pre = stack@;
                visited.set(e_from, true);
                stack.push(e_from);
                proof {
                    lemma_count_true_update(v_pre, e_from as int);
                    lemma_count_true_le(visited@);
                    assert(pairs.contains((e_from as int, x as int))) by {
                        assert(es[k as int].from == e_from && es[k as int].to == x);
                    }
                    lemma_path_prepend(pairs, e_from as int, x as int, new_node as int);
                    assert forall|i: int| in_queue(stack@, i) && i != e_from as int
                        implies in_queue(s_pre, i) by {
                        let j = choose|j: int| 0 <= j < stack@.len() && stack@[j] == i;
                        assert(j < s_pre.len());
                        assert(s_pre[j] == i);
                    }
                    assert(in_queue(stack@, e_from as int)) by {
                        assert(stack@[stack@.len() - 1] == e_from);
                    }
                    assert forall|j: int, l: int| 0 <= j < l < stack@.len()
                        implies stack@[j] != stack@[l] by {
                        if l == stack@.len() - 1 {
                            assert(stack@[j] == s_pre[j]);
                            assert(v_pre[(s_pre[j]) as int]);
                            assert(!v_pre[e_from as int]);
                        }
                    }
                    assert forall|k2: int|
                        0 <= k2 < es.len() && visited@[(#[trigger] es[k2]).to as int]
                            && !in_queue(stack@, es[k2].to as int) && es[k2].to != x
                        implies visited@[es[k2].from as int] by {
                        if es[k2].to == e_from {
                            assert(in_queue(stack@, e_from as int));
                        } else {
                            assert(v_pre[es[k2].to as int]);
                            assert(!in_queue(s_pre, es[k2].to as int)) by {
                                if in_queue(s_pre, es[k2].to as int) {
                                    let j = choose|j: int|
                                        0 <= j < s_pre.len() && s_pre[j] == es[k2].to as int;
                                    assert(stack@[j] == es[k2].to as int);
                                }
                            }
                            assert(v_pre[es[k2].from as int]);
                        }
                    }
                    assert forall|i: int|
                        0 <= i < n && #[trigger] visited@[i] && !in_queue(stack@, i) && i != x
                        implies !spec_strictly_greater(nv[new_node as int], nv[i]) by {
                        if i == e_from as int {
                            assert(in_queue(stack@, i));
                        } else {
                            assert(v_pre[i]);
                            assert(!in_queue(s_pre, i)) by {
                                if in_queue(s_pre, i) {
                                    let j = choose|j: int|
                                        0 <= j < s_pre.len() && s_pre[j] == i;
                                    assert(stack@[j] == i);
                                }
                            }
                        }
                    }
                }
            }
            k += 1;
        }
        proof {
            assert forall|k2: int|
                0 <= k2 < es.len() && visited@[(#[trigger] es[k2]).to as int] && !in_queue(
                    stack@,
                    es[k2].to as int,
                ) implies visited@[es[k2].from as int] by {
                if es[k2].to == x {
                    assert(visited@[es[k2].from as int]);
                }
            }
            lemma_count_true_le(visited@);
        }
    }
    proof {
        assert forall|w: int|
            0 <= w < n && #[trigger] path_connected(pairs, w, new_node as int)
            implies !spec_strictly_greater(nv[new_node as int], nv[w]) by {
            let p = choose|p: Seq<int>|
                #[trigger] is_path(pairs, p) && p.first() == w && p.last() == new_node as int;
            lemma_ancestors_visited(es, visited@, p, n as nat);
            assert(visited@[w]);
            assert(!in_queue(stack@, w));
        }
    }
    false
}

} // verus!
