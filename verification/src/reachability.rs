//! Reachability-graph construction: depth-first exploration of the marking
//! space with node deduplication and an on-the-fly pseudo-coverability
//! cutoff against unbounded nets.

use vstd::prelude::*;
use vstd::seq_lib::*;
use vstd::set_lib::{lemma_int_range, lemma_len_subset, set_int_range};

use crate::net::{
    InputMatrix, InputState, PTMatrix, active_set_matches, as_ints, copy_marking, effect_matrix,
    enabled_at, fire_checked,
    find_active_transitions, fire_step, fires_to, is_matrix, lemma_deep_view_index,
    lemma_enabled_at_ints, lemma_reachable_refl, lemma_reachable_step, marking_nonneg,
    matrix_nonneg, reachable, transition_enabled,
};

verus! {

/// The pseudo-coverability cutoff: a freshly discovered marking with a token
/// count above this bound has the net reported unbounded.
pub const COVER_LIMIT: i16 = 2048;

/// A directed edge of the reachability graph, labeled with the index of the
/// fired transition.
pub struct RgEdge {
    pub from: usize,
    pub to: usize,
    pub label: i16,
}

/// The reachability graph: one node per distinct reachable marking, one edge
/// per firing discovered between two of them.
pub struct ReachabilityGraph {
    pub nodes: Vec<Vec<i16>>,
    pub edges: Vec<RgEdge>,
}

/// The result of a reachability-graph construction.
pub struct RGResult {
    pub rg: ReachabilityGraph,
    pub has_deadlock: bool,
}

/// The node list is well formed: nonempty, headed by the initial marking,
/// uniform in width, non-negative, and free of duplicate markings.
pub open spec fn nodes_wf(n: Seq<Seq<i16>>, m0: Seq<i16>) -> bool {
    &&& n.len() >= 1
    &&& n[0] == m0
    &&& forall|i: int| 0 <= i < n.len() ==> (#[trigger] n[i]).len() == m0.len()
    &&& forall|i: int| 0 <= i < n.len() ==> marking_nonneg(#[trigger] n[i])
    &&& forall|i: int, j: int| 0 <= i < j < n.len() ==> n[i] != n[j]
}

/// An edge records an actual firing: its label is enabled at the source
/// marking and the target marking is the firing result.
pub open spec fn edge_wf(
    n: Seq<Seq<i16>>,
    t_in: Seq<Seq<i16>>,
    t_out: Seq<Seq<i16>>,
    e: RgEdge,
) -> bool {
    &&& e.from < n.len()
    &&& e.to < n.len()
    &&& 0 <= e.label < t_in.len()
    &&& transition_enabled(n[e.from as int], t_in, e.label as int)
    &&& fire_step(as_ints(n[e.from as int]), t_in, t_out, e.label as int, as_ints(n[e.to as int]))
}

/// All edges record actual firings, and no source node fires the same
/// transition along two edges.
pub open spec fn edges_wf(
    n: Seq<Seq<i16>>,
    t_in: Seq<Seq<i16>>,
    t_out: Seq<Seq<i16>>,
    es: Seq<RgEdge>,
) -> bool {
    &&& forall|k: int| 0 <= k < es.len() ==> edge_wf(n, t_in, t_out, #[trigger] es[k])
    &&& forall|k: int, l: int| 0 <= k < l < es.len()
        ==> !((#[trigger] es[k]).from == (#[trigger] es[l]).from && es[k].label == es[l].label)
}

/// Every transition enabled at node `i` has its firing recorded by an edge.
pub open spec fn node_expanded(
    n: Seq<Seq<i16>>,
    t_in: Seq<Seq<i16>>,
    es: Seq<RgEdge>,
    i: int,
) -> bool {
    forall|t: int| 0 <= t < t_in.len() && #[trigger] transition_enabled(n[i], t_in, t)
        ==> exists|k: int| 0 <= k < es.len() && (#[trigger] es[k]).from == i && es[k].label == t
}

/// No transition is enabled at node `i`.
pub open spec fn node_dead(n: Seq<Seq<i16>>, t_in: Seq<Seq<i16>>, i: int) -> bool {
    forall|t: int| 0 <= t < t_in.len() ==> !(#[trigger] transition_enabled(n[i], t_in, t))
}

/// The graph is closed under firing: every node is expanded.
pub open spec fn rg_closed(n: Seq<Seq<i16>>, t_in: Seq<Seq<i16>>, es: Seq<RgEdge>) -> bool {
    forall|i: int| 0 <= i < n.len() ==> node_expanded(n, t_in, es, i)
}

/// Every node marking is reachable from the initial marking.
pub open spec fn rg_sound(
    n: Seq<Seq<i16>>,
    t_in: Seq<Seq<i16>>,
    t_out: Seq<Seq<i16>>,
    m0: Seq<i16>,
) -> bool {
    forall|i: int| 0 <= i < n.len()
        ==> reachable(as_ints(m0), t_in, t_out, as_ints(#[trigger] n[i]))
}

/// Every reachable marking appears as a node.
pub open spec fn rg_complete(
    n: Seq<Seq<i16>>,
    t_in: Seq<Seq<i16>>,
    t_out: Seq<Seq<i16>>,
    m0: Seq<i16>,
) -> bool {
    forall|m: Seq<int>| #[trigger] reachable(as_ints(m0), t_in, t_out, m)
        ==> exists|i: int| 0 <= i < n.len() && as_ints(#[trigger] n[i]) == m
}

/// Every node but possibly the initial one stays within `limit` (the initial
/// marking is taken as given and never checked against the cutoff).
pub open spec fn nodes_bounded(n: Seq<Seq<i16>>, limit: int) -> bool {
    forall|i: int, p: int| 1 <= i < n.len() && 0 <= p < n[i].len() ==> #[trigger] n[i][p] <= limit
}

/// Some component of the marking exceeds `limit`.
pub open spec fn some_entry_exceeds(m: Seq<int>, limit: int) -> bool {
    exists|p: int| 0 <= p < m.len() && #[trigger] m[p] > limit
}

/// `base` raised to `e`.
pub open spec fn pow_of(base: int, e: nat) -> int
    decreases e,
{
    if e == 0 {
        1
    } else {
        base * pow_of(base, (e - 1) as nat)
    }
}

/// A non-negative marking read as a base-32768 numeral, least significant
/// place first.
pub open spec fn encode_marking(m: Seq<i16>) -> int
    decreases m.len(),
{
    if m.len() == 0 {
        0
    } else {
        m[0] + 32768 * encode_marking(m.drop_first())
    }
}

proof fn lemma_pow_positive(base: int, e: nat)
    requires
        base >= 1,
    ensures
        pow_of(base, e) >= 1,
    decreases e,
{
    if e > 0 {
        lemma_pow_positive(base, (e - 1) as nat);
        assert(base * pow_of(base, (e - 1) as nat) >= 1) by (nonlinear_arith)
            requires
                base >= 1,
                pow_of(base, (e - 1) as nat) >= 1,
        {
        }
    }
}

proof fn lemma_encode_bounds(m: Seq<i16>)
    requires
        marking_nonneg(m),
    ensures
        0 <= encode_marking(m) < pow_of(32768, m.len()),
    decreases m.len(),
{
    if m.len() == 0 {
    } else {
        let rest = m.drop_first();
        assert(marking_nonneg(rest)) by {
            assert forall|p: int| 0 <= p < rest.len() implies 0 <= #[trigger] rest[p] by {
                assert(rest[p] == m[p + 1]);
            }
        }
        lemma_encode_bounds(rest);
        let er = encode_marking(rest);
        let pr = pow_of(32768, rest.len());
        assert(0 <= m[0] <= 32767);
        assert(encode_marking(m) == m[0] + 32768 * er);
        assert(m[0] + 32768 * er >= 0) by (nonlinear_arith)
            requires
                m[0] >= 0,
                er >= 0,
        {
        }
        assert(m[0] + 32768 * er < 32768 * pr) by (nonlinear_arith)
            requires
                m[0] <= 32767,
                er <= pr - 1,
        {
        }
        assert(pow_of(32768, m.len()) == 32768 * pr);
    }
}

proof fn lemma_encode_injective(a: Seq<i16>, b: Seq<i16>)
    requires
        a.len() == b.len(),
        marking_nonneg(a),
        marking_nonneg(b),
        a != b,
    ensures
        encode_marking(a) != encode_marking(b),
    decreases a.len(),
{
    if a.len() == 0 {
        assert(a =~= b);
    } else {
        let ra = a.drop_first();
        let rb = b.drop_first();
        assert(marking_nonneg(ra)) by {
            assert forall|p: int| 0 <= p < ra.len() implies 0 <= #[trigger] ra[p] by {
                assert(ra[p] == a[p + 1]);
            }
        }
        assert(marking_nonneg(rb)) by {
            assert forall|p: int| 0 <= p < rb.len() implies 0 <= #[trigger] rb[p] by {
                assert(rb[p] == b[p + 1]);
            }
        }
        lemma_encode_bounds(ra);
        lemma_encode_bounds(rb);
        let ea = encode_marking(ra);
        let eb = encode_marking(rb);
        if a[0] != b[0] {
            assert(0 <= a[0] <= 32767);
            assert(0 <= b[0] <= 32767);
            assert(a[0] + 32768 * ea != b[0] + 32768 * eb) by (nonlinear_arith)
                requires
                    0 <= a[0] <= 32767,
                    0 <= b[0] <= 32767,
                    a[0] != b[0],
                    ea >= 0,
                    eb >= 0,
            {
            }
        } else {
            assert(ra != rb) by {
                if ra == rb {
                    assert forall|p: int| 0 <= p < a.len() implies a[p] == b[p] by {
                        if p == 0 {
                        } else {
                            assert(ra[p - 1] == a[p]);
                            assert(rb[p - 1] == b[p]);
                        }
                    }
                    assert(a =~= b);
                }
            }
            lemma_encode_injective(ra, rb);
            assert(32768 * ea != 32768 * eb) by (nonlinear_arith)
                requires
                    ea != eb,
            {
            }
        }
    }
}

/// Distinct non-negative markings of a fixed width are no more numerous than
/// the base-32768 numerals of that width.
proof fn lemma_nodes_card(n: Seq<Seq<i16>>, width: nat)
    requires
        forall|i: int| 0 <= i < n.len() ==> (#[trigger] n[i]).len() == width,
        forall|i: int| 0 <= i < n.len() ==> marking_nonneg(#[trigger] n[i]),
        forall|i: int, j: int| 0 <= i < j < n.len() ==> n[i] != n[j],
    ensures
        n.len() <= pow_of(32768, width),
{
    let codes = Seq::new(n.len(), |i: int| encode_marking(n[i]));
    assert(codes.no_duplicates()) by {
        assert forall|i: int, j: int|
            0 <= i < codes.len() && 0 <= j < codes.len() && i != j
            implies codes[i] != codes[j] by {
            if i < j {
                lemma_encode_injective(n[i], n[j]);
            } else {
                lemma_encode_injective(n[j], n[i]);
            }
        }
    }
    codes.unique_seq_to_set();
    let pw = pow_of(32768, width);
    lemma_pow_positive(32768, width);
    assert(codes.to_set().subset_of(set_int_range(0, pw))) by {
        assert forall|x: int| codes.to_set().contains(x)
            implies set_int_range(0, pw).contains(x) by {
            let i = choose|i: int| 0 <= i < codes.len() && codes[i] == x;
            lemma_encode_bounds(n[i]);
        }
    }
    lemma_int_range(0, pw);
    lemma_len_subset(codes.to_set(), set_int_range(0, pw));
}

/// Linear scan for a marking among the stored nodes.
fn find_node(nodes: &Vec<Vec<i16>>, m: &Vec<i16>) -> (r: Option<usize>)
    ensures
        match r {
            Some(i) => i < nodes@.len() && nodes.deep_view()[i as int] == m@,
            None => forall|i: int| 0 <= i < nodes@.len() ==> nodes.deep_view()[i] != m@,
        },
{
    let mut i: usize = 0;
    while i < nodes.len()
        invariant
            i <= nodes@.len(),
            forall|j: int| 0 <= j < i ==> nodes.deep_view()[j] != m@,
        decreases nodes@.len() - i,
    {
        proof {
            lemma_deep_view_index(nodes, i as int);
        }
        if markings_equal(&nodes[i], m) {
            return Some(i);
        }
        i += 1;
    }
    None
}

/// Componentwise equality of two integer vectors.
fn markings_equal(a: &Vec<i16>, b: &Vec<i16>) -> (r: bool)
    ensures
        r <==> a@ == b@,
{
    if a.len() != b.len() {
        return false;
    }
    let mut p: usize = 0;
    while p < a.len()
        invariant
            a@.len() == b@.len(),
            p <= a@.len(),
            forall|q: int| 0 <= q < p ==> a@[q] == b@[q],
        decreases a@.len() - p,
    {
        if a[p] != b[p] {
            return false;
        }
        p += 1;
    }
    proof {
        assert(a@ =~= b@);
    }
    true
}

/// Does any component exceed `limit`?
fn exceeds_limit(v: &Vec<i16>, limit: i16) -> (r: bool)
    ensures
        r == exists|p: int| 0 <= p < v@.len() && #[trigger] v@[p] > limit,
{
    let mut p: usize = 0;
    while p < v.len()
        invariant
            p <= v@.len(),
            forall|q: int| 0 <= q < p ==> !(#[trigger] v@[q] > limit),
        decreases v@.len() - p,
    {
        if v[p] > limit {
            return true;
        }
        p += 1;
    }
    false
}

/// Node `i` occurs in the work queue.
pub open spec fn in_queue(q: Seq<usize>, i: int) -> bool {
    exists|k: int| 0 <= k < q.len() && q[k] == i
}

/// One firing, read off from componentwise machine arithmetic.
pub(crate) proof fn lemma_fire_step_from_vec(
    cur: Seq<i16>,
    succ: Seq<i16>,
    t_in: Seq<Seq<i16>>,
    t_out: Seq<Seq<i16>>,
    t: int,
)
    requires
        0 <= t < t_in.len(),
        succ.len() == cur.len(),
        transition_enabled(cur, t_in, t),
        forall|p: int| 0 <= p < cur.len()
            ==> #[trigger] succ[p] == cur[p] + t_out[t][p] - t_in[t][p],
    ensures
        fire_step(as_ints(cur), t_in, t_out, t, as_ints(succ)),
{
    lemma_enabled_at_ints(cur, t_in, t);
    assert forall|p: int| 0 <= p < as_ints(cur).len()
        implies #[trigger] as_ints(succ)[p] == as_ints(cur)[p] + t_out[t][p] - t_in[t][p] by {
        assert(succ[p] == cur[p] + t_out[t][p] - t_in[t][p]);
    }
}

/// The unbounded image of one firing from a machine marking.
proof fn lemma_fire_step_ints(cur: Seq<i16>, t_in: Seq<Seq<i16>>, t_out: Seq<Seq<i16>>, t: int)
    requires
        0 <= t < t_in.len(),
        transition_enabled(cur, t_in, t),
    ensures
        fire_step(
            as_ints(cur),
            t_in,
            t_out,
            t,
            Seq::new(cur.len(), |p: int| cur[p] + t_out[t][p] - t_in[t][p]),
        ),
{
    lemma_enabled_at_ints(cur, t_in, t);
    let m2 = Seq::new(cur.len(), |p: int| cur[p] + t_out[t][p] - t_in[t][p]);
    assert(m2.len() == as_ints(cur).len());
    assert forall|p: int| 0 <= p < as_ints(cur).len()
        implies #[trigger] m2[p] == as_ints(cur)[p] + t_out[t][p] - t_in[t][p] by {}
}

/// A reachable marking beyond the cutoff witnesses the unbounded verdict.
proof fn lemma_unbounded_witness(
    m0i: Seq<int>,
    t_in: Seq<Seq<i16>>,
    t_out: Seq<Seq<i16>>,
    cur: Seq<i16>,
    t: int,
    m2: Seq<int>,
    limit: int,
)
    requires
        reachable(m0i, t_in, t_out, as_ints(cur)),
        fire_step(as_ints(cur), t_in, t_out, t, m2),
        some_entry_exceeds(m2, limit),
        m2 != m0i,
    ensures
        exists|m: Seq<int>| #[trigger] reachable(m0i, t_in, t_out, m) && some_entry_exceeds(
            m,
            limit,
        ) && m != m0i,
{
    lemma_reachable_step(m0i, t_in, t_out, as_ints(cur), t, m2);
}

/// Every marking reachable in a closed, well-formed graph is one of its
/// nodes: the worklist exploration misses nothing once it has drained.
proof fn lemma_reachable_in_closed_graph(
    n: Seq<Seq<i16>>,
    t_in: Seq<Seq<i16>>,
    t_out: Seq<Seq<i16>>,
    m0: Seq<i16>,
    es: Seq<RgEdge>,
    fs: Seq<int>,
    m: Seq<int>,
)
    requires
        nodes_wf(n, m0),
        edges_wf(n, t_in, t_out, es),
        rg_closed(n, t_in, es),
        fires_to(as_ints(m0), t_in, t_out, fs, m),
    ensures
        exists|i: int| 0 <= i < n.len() && as_ints(#[trigger] n[i]) == m,
    decreases fs.len(),
{
    if fs.len() == 0 {
        assert(m == as_ints(m0));
        assert(0 <= 0 < n.len() && as_ints(n[0]) == m);
    } else {
        let mid = choose|mid: Seq<int>|
            fires_to(as_ints(m0), t_in, t_out, fs.drop_last(), mid) && fire_step(
                mid,
                t_in,
                t_out,
                fs.last(),
                m,
            );
        lemma_reachable_in_closed_graph(n, t_in, t_out, m0, es, fs.drop_last(), mid);
        let i = choose|i: int| 0 <= i < n.len() && as_ints(#[trigger] n[i]) == mid;
        let t = fs.last();
        lemma_enabled_at_ints(n[i], t_in, t);
        assert(enabled_at(mid, t_in, t));
        assert(transition_enabled(n[i], t_in, t));
        assert(node_expanded(n, t_in, es, i));
        let k = choose|k: int| 0 <= k < es.len() && (#[trigger] es[k]).from == i && es[k].label == t;
        let e = es[k];
        assert(edge_wf(n, t_in, t_out, e));
        let j = e.to as int;
        assert(fire_step(as_ints(n[i]), t_in, t_out, t, as_ints(n[j])));
        assert(as_ints(n[j]) =~= m) by {
            assert(as_ints(n[j]).len() == mid.len());
            assert(m.len() == mid.len());
            assert forall|p: int| 0 <= p < mid.len()
                implies as_ints(n[j])[p] == m[p] by {
                assert(as_ints(n[j])[p] == as_ints(n[i])[p] + t_out[t][p] - t_in[t][p]);
                assert(m[p] == mid[p] + t_out[t][p] - t_in[t][p]);
            }
        }
        assert(0 <= j < n.len() && as_ints(n[j]) == m);
    }
}

/// Build the reachability graph of the net by worklist exploration with node
/// deduplication. `Ok` carries the graph (whose nodes are then exactly the
/// reachable markings, all within the cutoff) and the deadlock verdict; `Err`
/// reports the net unbounded, which happens exactly when some reachable
/// marking exceeds the cutoff in some place.
pub fn create_rg(
    marking: InputState,
    transition_inputs: InputMatrix,
    transition_outputs: InputMatrix,
) -> (r: Result<RGResult, String>)
    requires
        is_matrix(transition_inputs.deep_view(), transition_inputs@.len(), marking@.len()),
        is_matrix(transition_outputs.deep_view(), transition_inputs@.len(), marking@.len()),
        matrix_nonneg(transition_inputs.deep_view()),
        matrix_nonneg(transition_outputs.deep_view()),
        marking_nonneg(marking@),
        transition_inputs@.len() <= 32767,
    ensures
        match r {
            Ok(res) => {
                &&& nodes_wf(res.rg.nodes.deep_view(), marking@)
                &&& edges_wf(
                    res.rg.nodes.deep_view(),
                    transition_inputs.deep_view(),
                    transition_outputs.deep_view(),
                    res.rg.edges@,
                )
                &&& rg_closed(res.rg.nodes.deep_view(), transition_inputs.deep_view(), res.rg.edges@)
                &&& rg_sound(
                    res.rg.nodes.deep_view(),
                    transition_inputs.deep_view(),
                    transition_outputs.deep_view(),
                    marking@,
                )
                &&& rg_complete(
                    res.rg.nodes.deep_view(),
                    transition_inputs.deep_view(),
                    transition_outputs.deep_view(),
                    marking@,
                )
                &&& nodes_bounded(res.rg.nodes.deep_view(), COVER_LIMIT as int)
                &&& (res.has_deadlock <==> exists|i: int|
                    0 <= i < res.rg.nodes.deep_view().len() && #[trigger] node_dead(
                        res.rg.nodes.deep_view(),
                        transition_inputs.deep_view(),
                        i,
                    ))
            },
            Err(msg) => {
                &&& exists|m: Seq<int>| #[trigger] reachable(
                    as_ints(marking@),
                    transition_inputs.deep_view(),
                    transition_outputs.deep_view(),
                    m,
                ) && some_entry_exceeds(m, COVER_LIMIT as int) && m != as_ints(marking@)
                &&& msg@ == "Net is unbounded"@
            },
        },
{
    let ghost tin = transition_inputs.deep_view();
    let ghost tout = transition_outputs.deep_view();
    let ghost m0 = marking@;
    let ghost m0i = as_ints(marking@);
    let t_count = transition_inputs.len();
    let p_count = marking.len();

    proof {
        assert forall|i: int| 0 <= i < t_count
            implies (#[trigger] tout[i]).len() == tin[i].len() by {}
    }
    let t_effect = effect_matrix(&transition_inputs, &transition_outputs);

    let mut nodes: Vec<Vec<i16>> = Vec::new();
    let mut edges: Vec<RgEdge> = Vec::new();
    let mut queue: Vec<usize> = Vec::new();
    let mut has_deadlock = false;

    nodes.push(marking);
    queue.push(0);
    proof {
        lemma_deep_view_index(&nodes, 0);
        lemma_reachable_refl(m0i, tin, tout);
        lemma_pow_positive(32768, p_count as nat);
        assert(queue@[0] == 0);
        assert(in_queue(queue@, 0));
        assert(nodes.deep_view()[0] == m0);
    }

    while queue.len() > 0
        invariant
            tin == transition_inputs.deep_view(),
            tout == transition_outputs.deep_view(),
            is_matrix(tin, t_count as nat, p_count as nat),
            is_matrix(tout, t_count as nat, p_count as nat),
            matrix_nonneg(tin),
            matrix_nonneg(tout),
            t_count <= 32767,
            m0 == marking@,
            m0.len() == p_count,
            marking_nonneg(m0),
            m0i == as_ints(m0),
            t_effect@.len() == t_count,
            forall|i: int| 0 <= i < t_count
                ==> (#[trigger] t_effect.deep_view()[i]).len() == p_count,
            forall|i: int, p: int| 0 <= i < t_count && 0 <= p < p_count
                ==> #[trigger] t_effect.deep_view()[i][p] == tout[i][p] - tin[i][p],
            nodes_wf(nodes.deep_view(), m0),
            edges_wf(nodes.deep_view(), tin, tout, edges@),
            nodes_bounded(nodes.deep_view(), COVER_LIMIT as int),
            rg_sound(nodes.deep_view(), tin, tout, m0),
            nodes@.len() <= pow_of(32768, p_count as nat),
            forall|k: int| 0 <= k < queue@.len() ==> (#[trigger] queue@[k]) < nodes@.len(),
            forall|k: int, l: int| 0 <= k < l < queue@.len() ==> queue@[k] != queue@[l],
            forall|i: int| 0 <= i < nodes@.len() && !in_queue(queue@, i)
                ==> node_expanded(nodes.deep_view(), tin, edges@, i),
            forall|k: int| 0 <= k < edges@.len()
                ==> !in_queue(queue@, (#[trigger] edges@[k]).from as int),
            has_deadlock ==> exists|i: int|
                0 <= i < nodes@.len() && #[trigger] node_dead(nodes.deep_view(), tin, i),
            !has_deadlock ==> forall|i: int|
                (0 <= i < nodes@.len() && !in_queue(queue@, i)) ==> !(#[trigger] node_dead(
                    nodes.deep_view(),
                    tin,
                    i,
                )),
        decreases pow_of(32768, p_count as nat) + 1 - nodes@.len(), queue@.len(),
    {
        let ghost q0 = queue@;
        let ghost n0 = nodes.deep_view();
        let ghost es0 = edges@;
        let u_opt = queue.pop();
        let u = match u_opt {
            Some(x) => x,
            None => {
                proof {
                    assert(false);
                }
                0
            },
        };
        proof {
            assert(u == q0[q0.len() - 1]);
            assert(queue@ =~= q0.drop_last());
            assert(!in_queue(queue@, u as int)) by {
                if in_queue(queue@, u as int) {
                    let k = choose|k: int| 0 <= k < queue@.len() && queue@[k] == u as int;
                    assert(q0[k] == u);
                    assert(q0[k] != q0[q0.len() - 1]);
                }
            }
            assert forall|i: int| in_queue(queue@, i) implies in_queue(q0, i) by {
                let k = choose|k: int| 0 <= k < queue@.len() && queue@[k] == i;
                assert(q0[k] == i);
            }
            assert forall|k: int| 0 <= k < edges@.len()
                implies (#[trigger] edges@[k]).from != u by {
                assert(!in_queue(q0, edges@[k].from as int));
                assert(q0[q0.len() - 1] == u);
            }
            assert forall|i: int| 0 <= i < nodes@.len() && i != u as int && !in_queue(queue@, i)
                implies node_expanded(nodes.deep_view(), tin, edges@, i) by {
                assert(!in_queue(q0, i)) by {
                    if in_queue(q0, i) {
                        let k = choose|k: int| 0 <= k < q0.len() && q0[k] == i;
                        if k < q0.len() - 1 {
                            assert(queue@[k] == i);
                        } else {
                            assert(q0[k] == u);
                        }
                    }
                }
            }
            if !has_deadlock {
                assert forall|i: int|
                    (0 <= i < nodes@.len() && i != u as int && !in_queue(queue@, i))
                    implies !(#[trigger] node_dead(nodes.deep_view(), tin, i)) by {
                    assert(!in_queue(q0, i)) by {
                        if in_queue(q0, i) {
                            let k = choose|k: int| 0 <= k < q0.len() && q0[k] == i;
                            if k < q0.len() - 1 {
                                assert(queue@[k] == i);
                            } else {
                                assert(q0[k] == u);
                            }
                        }
                    }
                }
            }
        }
        let cur = copy_marking(&nodes[u]);
        proof {
            lemma_deep_view_index(&nodes, u as int);
            assert(cur@ == nodes.deep_view()[u as int]);
            assert(cur@.len() == p_count);
            assert(marking_nonneg(cur@));
        }
        let active = find_active_transitions(&cur, &transition_inputs);
        if active.len() == 0 {
            has_deadlock = true;
            proof {
                assert(node_dead(nodes.deep_view(), tin, u as int)) by {
                    assert forall|t: int| 0 <= t < tin.len()
                        implies !(#[trigger] transition_enabled(
                        nodes.deep_view()[u as int],
                        tin,
                        t,
                    )) by {
                        assert(!active@.contains(t as i16));
                    }
                }
                assert(node_expanded(nodes.deep_view(), tin, edges@, u as int)) by {
                    assert forall|t: int|
                        0 <= t < tin.len() && #[trigger] transition_enabled(
                            nodes.deep_view()[u as int],
                            tin,
                            t,
                        ) implies exists|k: int|
                        0 <= k < edges@.len() && (#[trigger] edges@[k]).from == u as int
                            && edges@[k].label == t by {
                        assert(node_dead(nodes.deep_view(), tin, u as int));
                    }
                }
                assert forall|i: int| 0 <= i < nodes@.len() && !in_queue(queue@, i)
                    implies node_expanded(nodes.deep_view(), tin, edges@, i) by {
                    if i == u as int {
                        assert(node_expanded(nodes.deep_view(), tin, edges@, i));
                    }
                }
            }
        } else {
            let ghost old_es = edges@;
            let mut a: usize = 0;
            while a < active.len()
                invariant
                    tin == transition_inputs.deep_view(),
                    tout == transition_outputs.deep_view(),
                    is_matrix(tin, t_count as nat, p_count as nat),
                    is_matrix(tout, t_count as nat, p_count as nat),
                    matrix_nonneg(tin),
                    matrix_nonneg(tout),
                    t_count <= 32767,
                    m0 == marking@,
                    m0.len() == p_count,
                    marking_nonneg(m0),
                    m0i == as_ints(m0),
                    queue@.len() == q0.len() - 1 + nodes@.len() - n0.len(),
                    t_effect@.len() == t_count,
                    forall|i: int| 0 <= i < t_count
                        ==> (#[trigger] t_effect.deep_view()[i]).len() == p_count,
                    forall|i: int, p: int| 0 <= i < t_count && 0 <= p < p_count
                        ==> #[trigger] t_effect.deep_view()[i][p] == tout[i][p] - tin[i][p],
                    nodes_wf(nodes.deep_view(), m0),
                    edges_wf(nodes.deep_view(), tin, tout, edges@),
                    nodes_bounded(nodes.deep_view(), COVER_LIMIT as int),
                    rg_sound(nodes.deep_view(), tin, tout, m0),
                    nodes@.len() <= pow_of(32768, p_count as nat),
                    forall|k: int| 0 <= k < queue@.len()
                        ==> (#[trigger] queue@[k]) < nodes@.len(),
                    forall|k: int, l: int| 0 <= k < l < queue@.len()
                        ==> queue@[k] != queue@[l],
                    forall|k: int| 0 <= k < edges@.len()
                        ==> !in_queue(queue@, (#[trigger] edges@[k]).from as int),
                    u < n0.len(),
                    n0.len() <= nodes@.len(),
                    forall|i: int| 0 <= i < n0.len()
                        ==> #[trigger] nodes.deep_view()[i] == n0[i],
                    forall|i: int| n0.len() <= i < nodes@.len() ==> in_queue(queue@, i),
                    !in_queue(queue@, u as int),
                    forall|i: int| 0 <= i < nodes@.len() && i != u as int && !in_queue(queue@, i)
                        ==> node_expanded(nodes.deep_view(), tin, edges@, i),
                    has_deadlock ==> exists|i: int|
                        0 <= i < nodes@.len() && #[trigger] node_dead(
                            nodes.deep_view(),
                            tin,
                            i,
                        ),
                    !has_deadlock ==> forall|i: int|
                        (0 <= i < nodes@.len() && i != u as int && !in_queue(queue@, i))
                            ==> !(#[trigger] node_dead(nodes.deep_view(), tin, i)),
                    cur@ == nodes.deep_view()[u as int],
                    cur@.len() == p_count,
                    marking_nonneg(cur@),
                    active_set_matches(active@, cur@, tin),
                    forall|i: int, j: int| 0 <= i < j < active@.len()
                        ==> #[trigger] active@[i] < #[trigger] active@[j],
                    a <= active@.len(),
                    edges@.len() == old_es.len() + a,
                    forall|k: int| 0 <= k < old_es.len() ==> #[trigger] edges@[k] == old_es[k],
                    forall|k: int| 0 <= k < old_es.len()
                        ==> (#[trigger] old_es[k]).from != u,
                    forall|k: int| old_es.len() <= k < edges@.len()
                        ==> (#[trigger] edges@[k]).from == u && edges@[k].label == active@[k
                            - old_es.len()],
                decreases active@.len() - a,
            {
                let t_i16 = active[a];
                let t = t_i16 as usize;
                proof {
                    assert(active@[a as int] == t_i16);
                    assert(0 <= t_i16 < t_count);
                    assert(active@.contains(t_i16));
                    assert(t_i16 == t as i16);
                    assert(transition_enabled(cur@, tin, t as int));
                    assert forall|p: int| 0 <= p < cur@.len()
                        implies 0 <= cur@[p] + #[trigger] t_effect.deep_view()[t as int][p] by {
                        assert(tin[t as int][p] <= cur@[p]);
                        assert(t_effect.deep_view()[t as int][p]
                            == tout[t as int][p] - tin[t as int][p]);
                        assert(0 <= tout[t as int][p]);
                    }
                }
                match fire_checked(&cur, &t_effect, t) {
                    None => {
                        proof {
                            let m2 = Seq::new(
                                cur@.len(),
                                |p: int| cur@[p] + tout[t as int][p] - tin[t as int][p],
                            );
                            lemma_fire_step_ints(cur@, tin, tout, t as int);
                            assert(some_entry_exceeds(m2, COVER_LIMIT as int)) by {
                                let p = choose|p: int|
                                    0 <= p < cur@.len() && cur@[p] + #[trigger] t_effect.deep_view()[t as int][p]
                                        > i16::MAX;
                                assert(m2[p] == cur@[p] + tout[t as int][p] - tin[t as int][p]);
                                assert(m2[p] > COVER_LIMIT as int);
                            }
                            assert(reachable(m0i, tin, tout, as_ints(cur@)));
                            assert(m2 != m0i) by {
                                let p = choose|p: int|
                                    0 <= p < cur@.len() && cur@[p] + #[trigger] t_effect.deep_view()[t as int][p]
                                        > i16::MAX;
                                assert(m2[p] > i16::MAX);
                                if m2 == m0i {
                                    assert(m0i[p] == m0[p] as int);
                                }
                            }
                            lemma_unbounded_witness(
                                m0i,
                                tin,
                                tout,
                                cur@,
                                t as int,
                                m2,
                                COVER_LIMIT as int,
                            );
                        }
                        return Err("Net is unbounded".to_owned());
                    },
                    Some(succ) => {
                        let ghost sv = succ@;
                        proof {
                            assert(sv.len() == p_count);
                            assert forall|p: int| 0 <= p < p_count
                                implies #[trigger] sv[p] == cur@[p] + tout[t as int][p]
                                    - tin[t as int][p] by {
                                assert(sv[p] == cur@[p] + t_effect.deep_view()[t as int][p]);
                            }
                            assert(marking_nonneg(sv));
                            lemma_fire_step_from_vec(cur@, sv, tin, tout, t as int);
                        }
                        match find_node(&nodes, &succ) {
                            Some(j) => {
                                let ghost es_pre = edges@;
                                edges.push(RgEdge { from: u, to: j, label: t_i16 });
                                proof {
                                    assert(nodes.deep_view()[j as int] == sv);
                                    assert(edge_wf(
                                        nodes.deep_view(),
                                        tin,
                                        tout,
                                        edges@[es_pre.len() as int],
                                    ));
                                    assert forall|i: int|
                                        0 <= i < nodes@.len() && i != u as int && !in_queue(
                                            queue@,
                                            i,
                                        ) implies node_expanded(
                                        nodes.deep_view(),
                                        tin,
                                        edges@,
                                        i,
                                    ) by {
                                        assert(node_expanded(nodes.deep_view(), tin, es_pre, i));
                                        assert forall|tt: int|
                                            0 <= tt < tin.len() && #[trigger] transition_enabled(
                                                nodes.deep_view()[i],
                                                tin,
                                                tt,
                                            ) implies exists|k: int|
                                            0 <= k < edges@.len() && (#[trigger] edges@[k]).from
                                                == i && edges@[k].label == tt by {
                                            let k = choose|k: int|
                                                0 <= k < es_pre.len() && (#[trigger] es_pre[k]).from
                                                    == i && es_pre[k].label == tt;
                                            assert(edges@[k] == es_pre[k]);
                                        }
                                    }
                                    assert forall|k: int, l: int| 0 <= k < l < edges@.len()
                                        implies !((#[trigger] edges@[k]).from
                                            == (#[trigger] edges@[l]).from && edges@[k].label
                                            == edges@[l].label) by {
                                        if l == edges@.len() - 1 {
                                            if edges@[k].from == u {
                                                assert(k >= old_es.len());
                                                assert(edges@[k].label == active@[k
                                                    - old_es.len()]);
                                                assert(k - old_es.len() < a);
                                                assert(active@[k - old_es.len()]
                                                    < active@[a as int]);
                                            }
                                        }
                                    }
                                }
                            },
                            None => {
                                if exceeds_limit(&succ, COVER_LIMIT) {
                                    proof {
                                        assert(some_entry_exceeds(
                                            as_ints(sv),
                                            COVER_LIMIT as int,
                                        )) by {
                                            let p = choose|p: int|
                                                0 <= p < sv.len() && #[trigger] sv[p]
                                                    > COVER_LIMIT;
                                            assert(as_ints(sv)[p] > COVER_LIMIT as int);
                                        }
                                        assert(reachable(m0i, tin, tout, as_ints(cur@)));
                                        assert(as_ints(sv) != m0i) by {
                                            assert(nodes.deep_view()[0] != sv);
                                            assert(nodes.deep_view()[0] == m0);
                                            if as_ints(sv) == m0i {
                                                assert forall|p: int| 0 <= p < sv.len()
                                                    implies sv[p] == m0[p] by {
                                                    assert(as_ints(sv)[p] == m0i[p]);
                                                }
                                                assert(sv =~= m0);
                                            }
                                        }
                                        lemma_unbounded_witness(
                                            m0i,
                                            tin,
                                            tout,
                                            cur@,
                                            t as int,
                                            as_ints(sv),
                                            COVER_LIMIT as int,
                                        );
                                    }
                                    return Err("Net is unbounded".to_owned());
                                }
                                let ghost n_pre = nodes.deep_view();
                                let ghost q_pre = queue@;
                                let ghost es_pre = edges@;
                                let j = nodes.len();
                                nodes.push(succ);
                                queue.push(j);
                                edges.push(RgEdge { from: u, to: j, label: t_i16 });
                                proof {
                                    assert(nodes@.len() == n_pre.len() + 1);
                                    assert forall|i: int| 0 <= i < nodes@.len()
                                        implies #[trigger] nodes.deep_view()[i] == (if i
                                        < n_pre.len() {
                                        n_pre[i]
                                    } else {
                                        sv
                                    }) by {
                                        lemma_deep_view_index(&nodes, i);
                                    }
                                    assert(nodes.deep_view()[j as int] == sv);
                                    lemma_nodes_card(nodes.deep_view(), p_count as nat);
                                    assert(reachable(m0i, tin, tout, as_ints(cur@)));
                                    lemma_reachable_step(
                                        m0i,
                                        tin,
                                        tout,
                                        as_ints(cur@),
                                        t as int,
                                        as_ints(sv),
                                    );
                                    assert(edge_wf(
                                        nodes.deep_view(),
                                        tin,
                                        tout,
                                        edges@[es_pre.len() as int],
                                    ));
                                    assert forall|k: int, l: int| 0 <= k < l < edges@.len()
                                        implies !((#[trigger] edges@[k]).from
                                            == (#[trigger] edges@[l]).from && edges@[k].label
                                            == edges@[l].label) by {
                                        if l == edges@.len() - 1 {
                                            if edges@[k].from == u {
                                                assert(k >= old_es.len());
                                                assert(edges@[k].label == active@[k
                                                    - old_es.len()]);
                                                assert(k - old_es.len() < a);
                                                assert(active@[k - old_es.len()]
                                                    < active@[a as int]);
                                            }
                                        }
                                    }
                                    assert forall|i: int| in_queue(q_pre, i)
                                        implies in_queue(queue@, i) by {
                                        let k = choose|k: int|
                                            0 <= k < q_pre.len() && q_pre[k] == i;
                                        assert(queue@[k] == i);
                                    }
                                    assert(in_queue(queue@, j as int)) by {
                                        assert(queue@[queue@.len() - 1] == j);
                                    }
                                    assert forall|i: int| n0.len() <= i < nodes@.len()
                                        implies in_queue(queue@, i) by {
                                        if i < n_pre.len() {
                                            assert(in_queue(q_pre, i));
                                            let k = choose|k: int|
                                                0 <= k < q_pre.len() && q_pre[k] == i;
                                            assert(queue@[k] == i);
                                        } else {
                                            assert(i == j as int);
                                            assert(queue@[queue@.len() - 1] == j);
                                        }
                                    }
                                    assert forall|i: int| in_queue(queue@, i) && i != j as int
                                        implies in_queue(q_pre, i) by {
                                        let k = choose|k: int|
                                            0 <= k < queue@.len() && queue@[k] == i;
                                        assert(k < q_pre.len());
                                        assert(q_pre[k] == i);
                                    }
                                    assert(!in_queue(queue@, u as int));
                                    assert forall|i: int|
                                        0 <= i < nodes@.len() && i != u as int && !in_queue(
                                            queue@,
                                            i,
                                        ) implies node_expanded(
                                        nodes.deep_view(),
                                        tin,
                                        edges@,
                                        i,
                                    ) by {
                                        assert(i < n_pre.len());
                                        assert(!in_queue(q_pre, i));
                                        assert(node_expanded(n_pre, tin, es_pre, i));
                                        assert forall|tt: int|
                                            0 <= tt < tin.len() && #[trigger] transition_enabled(
                                                nodes.deep_view()[i],
                                                tin,
                                                tt,
                                            ) implies exists|k: int|
                                            0 <= k < edges@.len() && (#[trigger] edges@[k]).from
                                                == i && edges@[k].label == tt by {
                                            assert(nodes.deep_view()[i] == n_pre[i]);
                                            let k = choose|k: int|
                                                0 <= k < es_pre.len() && (#[trigger] es_pre[k]).from
                                                    == i && es_pre[k].label == tt;
                                            assert(edges@[k] == es_pre[k]);
                                        }
                                    }
                                    if !has_deadlock {
                                        assert forall|i: int|
                                            (0 <= i < nodes@.len() && i != u as int && !in_queue(
                                                queue@,
                                                i,
                                            )) implies !(#[trigger] node_dead(
                                            nodes.deep_view(),
                                            tin,
                                            i,
                                        )) by {
                                            assert(i < n_pre.len());
                                            assert(!in_queue(q_pre, i));
                                            assert(!node_dead(n_pre, tin, i));
                                            assert(nodes.deep_view()[i] == n_pre[i]);
                                        }
                                    } else {
                                        let i0 = choose|i: int|
                                            0 <= i < n_pre.len() && #[trigger] node_dead(
                                                n_pre,
                                                tin,
                                                i,
                                            );
                                        assert(node_dead(nodes.deep_view(), tin, i0)) by {
                                            assert(nodes.deep_view()[i0] == n_pre[i0]);
                                            assert forall|t2: int| 0 <= t2 < tin.len()
                                                implies !(#[trigger] transition_enabled(
                                                nodes.deep_view()[i0],
                                                tin,
                                                t2,
                                            )) by {
                                                assert(!transition_enabled(n_pre[i0], tin, t2));
                                            }
                                        }
                                        assert(0 <= i0 < nodes@.len());
                                    }
                                }
                            },
                        }
                    },
                }
                a += 1;
            }
            proof {
                assert(node_expanded(nodes.deep_view(), tin, edges@, u as int)) by {
                    assert forall|t: int|
                        0 <= t < tin.len() && #[trigger] transition_enabled(
                            nodes.deep_view()[u as int],
                            tin,
                            t,
                        ) implies exists|k: int|
                        0 <= k < edges@.len() && (#[trigger] edges@[k]).from == u as int
                            && edges@[k].label == t by {
                        assert(active@.contains(t as i16));
                        let idx = choose|idx: int|
                            0 <= idx < active@.len() && active@[idx] == t as i16;
                        assert(edges@[old_es.len() + idx].from == u);
                        assert(edges@[old_es.len() + idx].label == active@[(old_es.len() + idx)
                            - old_es.len()]);
                        assert(active@[idx] == t);
                    }
                }
                assert forall|i: int| 0 <= i < nodes@.len() && !in_queue(queue@, i)
                    implies node_expanded(nodes.deep_view(), tin, edges@, i) by {}
                if !has_deadlock {
                    assert(!node_dead(nodes.deep_view(), tin, u as int)) by {
                        assert(active@.len() > 0);
                        assert(active@.contains(active@[0]));
                        assert(transition_enabled(cur@, tin, active@[0] as int));
                    }
                }
            }
        }
    }
    proof {
        assert(rg_closed(nodes.deep_view(), tin, edges@)) by {
            assert forall|i: int| 0 <= i < nodes.deep_view().len()
                implies node_expanded(nodes.deep_view(), tin, edges@, i) by {
                assert(!in_queue(queue@, i));
            }
        }
        assert forall|m: Seq<int>| #[trigger] reachable(m0i, tin, tout, m)
            implies exists|i: int|
            0 <= i < nodes.deep_view().len() && as_ints(#[trigger] nodes.deep_view()[i])
                == m by {
            let fs = choose|fs: Seq<int>| fires_to(m0i, tin, tout, fs, m);
            lemma_reachable_in_closed_graph(nodes.deep_view(), tin, tout, m0, edges@, fs, m);
        }
        if has_deadlock {
        } else {
            assert forall|i: int| 0 <= i < nodes.deep_view().len()
                implies !(#[trigger] node_dead(nodes.deep_view(), tin, i)) by {
                assert(!in_queue(queue@, i));
            }
        }
    }
    Ok(RGResult { rg: ReachabilityGraph { nodes, edges }, has_deadlock })
}

} // verus!
