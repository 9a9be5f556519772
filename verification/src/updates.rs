//! Firing-update index and incremental maintenance of the enabled set.
//!
//! `FiringUpdates` precomputes, for every transition `t`, which transitions
//! might become enabled after `t` fires (`can_enable`) and which might become
//! disabled (`might_disable`), derived purely from the sparsity pattern of
//! the arc matrices. `find_active_transitions_from_firing_set` uses it to
//! update the enabled set after one firing while touching only those
//! transitions.

use vstd::prelude::*;
use vstd::pervasive::VecAdditionalExecFns;

use crate::net::{
    InputState, PTMatrix, State, active_set_matches, is_enabled, is_matrix, marking_nonneg,
    matrix_nonneg, transition_enabled, find_active_transitions,
};

verus! {

/// Transition `u` might become enabled when `t` fires: `t` adds tokens to
/// some place that `u` consumes from.
pub open spec fn spec_can_enable(
    t_in: Seq<Seq<i16>>,
    t_out: Seq<Seq<i16>>,
    t: int,
    u: int,
) -> bool {
    exists|p: int| 0 <= p < t_out[t].len() && #[trigger] t_out[t][p] > 0 && t_in[u][p] > 0
}

/// Transition `u` might become disabled when `t` fires: `t` and `u` consume
/// from a shared place (`u == t` included).
pub open spec fn spec_might_disable(t_in: Seq<Seq<i16>>, t: int, u: int) -> bool {
    exists|p: int| 0 <= p < t_in[t].len() && #[trigger] t_in[t][p] > 0 && t_in[u][p] > 0
}

/// For each transition `t`, row `t` of `can_enable` marks the transitions
/// that might become enabled after `t` fires, and row `t` of `might_disable`
/// the transitions that might become disabled.
pub struct FiringUpdates {
    pub can_enable: Vec<Vec<bool>>,
    pub might_disable: Vec<Vec<bool>>,
}

impl FiringUpdates {
    /// Both tables are `T x T` and agree exactly with the sparsity-derived
    /// relations on `t_in` and `t_out`.
    pub open spec fn wf(&self, t_in: Seq<Seq<i16>>, t_out: Seq<Seq<i16>>) -> bool {
        &&& self.can_enable.deep_view().len() == t_in.len()
        &&& self.might_disable.deep_view().len() == t_in.len()
        &&& forall|a: int| 0 <= a < t_in.len()
            ==> (#[trigger] self.can_enable.deep_view()[a]).len() == t_in.len()
        &&& forall|a: int| 0 <= a < t_in.len()
            ==> (#[trigger] self.might_disable.deep_view()[a]).len() == t_in.len()
        &&& forall|a: int, b: int| 0 <= a < t_in.len() && 0 <= b < t_in.len()
            ==> ((#[trigger] self.can_enable.deep_view()[a][b]) <==> spec_can_enable(
                t_in,
                t_out,
                a,
                b,
            ))
        &&& forall|a: int, b: int| 0 <= a < t_in.len() && 0 <= b < t_in.len()
            ==> ((#[trigger] self.might_disable.deep_view()[a][b]) <==> spec_might_disable(
                t_in,
                a,
                b,
            ))
    }
}

impl Default for FiringUpdates {
    /// The empty index of a net with no transitions.
    fn default() -> (r: Self)
        ensures
            r.can_enable@.len() == 0,
            r.might_disable@.len() == 0,
    {
        FiringUpdates { can_enable: Vec::new(), might_disable: Vec::new() }
    }
}

/// A row of `n` entries, all `false`.
pub(crate) fn false_row(n: usize) -> (r: Vec<bool>)
    ensures
        r@.len() == n,
        forall|k: int| 0 <= k < n ==> !(#[trigger] r@[k]),
{
    let mut r: Vec<bool> = Vec::new();
    let mut k: usize = 0;
    while k < n
        invariant
            k <= n,
            r@.len() == k,
            forall|j: int| 0 <= j < k ==> !(#[trigger] r@[j]),
        decreases n - k,
    {
        r.push(false);
        k += 1;
    }
    r
}

/// Do all entries hold?
pub(crate) fn all_true(v: &Vec<bool>) -> (r: bool)
    ensures
        r == (forall|k: int| 0 <= k < v@.len() ==> #[trigger] v@[k]),
{
    let mut k: usize = 0;
    while k < v.len()
        invariant
            k <= v@.len(),
            forall|j: int| 0 <= j < k ==> #[trigger] v@[j],
        decreases v@.len() - k,
    {
        if !v[k] {
            return false;
        }
        k += 1;
    }
    true
}

/// Build the firing-update index from the arc matrices, via the transitions
/// consuming from each place.
pub fn create_firing_updates(t_in: &PTMatrix, t_out: &PTMatrix) -> (r: FiringUpdates)
    requires
        is_matrix(t_in.deep_view(), t_in@.len(), crate::net::place_count(t_in.deep_view())),
        is_matrix(t_out.deep_view(), t_in@.len(), crate::net::place_count(t_in.deep_view())),
        matrix_nonneg(t_in.deep_view()),
    ensures
        r.wf(t_in.deep_view(), t_out.deep_view()),
{
    let ghost tin = t_in.deep_view();
    let ghost tout = t_out.deep_view();
    let t_count = t_in.len();
    let p_count = if t_count == 0 { 0 } else { t_in[0].len() };
    assert(p_count == crate::net::place_count(tin));

    // removes_tokens_from[p]: the transitions that consume from place p.
    let mut removes: Vec<Vec<usize>> = Vec::new();
    let mut p: usize = 0;
    while p < p_count
        invariant
            is_matrix(tin, t_count as nat, p_count as nat),
            tin == t_in.deep_view(),
            p <= p_count,
            removes@.len() == p,
            forall|q: int, k: int| 0 <= q < p && 0 <= k < removes@[q]@.len()
                ==> (#[trigger] removes@[q]@[k]) < t_count,
            forall|q: int, k: int| 0 <= q < p && 0 <= k < removes@[q]@.len()
                ==> tin[#[trigger] removes@[q]@[k] as int][q] > 0,
            forall|q: int, u: int| 0 <= q < p && 0 <= u < t_count && #[trigger] tin[u][q] > 0
                ==> removes@[q]@.contains(u as usize),
        decreases p_count - p,
    {
        let mut col: Vec<usize> = Vec::new();
        let mut u: usize = 0;
        while u < t_count
            invariant
                is_matrix(tin, t_count as nat, p_count as nat),
                tin == t_in.deep_view(),
                p < p_count,
                u <= t_count,
                forall|k: int| 0 <= k < col@.len() ==> (#[trigger] col@[k]) < u,
                forall|k: int| 0 <= k < col@.len()
                    ==> tin[#[trigger] col@[k] as int][p as int] > 0,
                forall|v: int| 0 <= v < u && tin[v][p as int] > 0
                    ==> col@.contains(v as usize),
            decreases t_count - u,
        {
            let ghost pre = col@;
            proof {
                assert(tin.len() == t_in@.len());
                assert(tin[u as int] =~= t_in@[u as int]@);
            }
            if t_in[u][p] > 0 {
                assert(tin[u as int][p as int] == t_in@[u as int]@[p as int]);
                col.push(u);
                assert forall|v: int| 0 <= v < u + 1 && tin[v][p as int] > 0
                    implies col@.contains(v as usize) by {
                    if v < u {
                        let k = choose|k: int| 0 <= k < pre.len() && pre[k] == v as usize;
                        assert(col@[k] == v as usize);
                    } else {
                        assert(col@[col@.len() - 1] == v as usize);
                    }
                }
            } else {
                assert(tin[u as int][p as int] == t_in@[u as int]@[p as int]);
            }
            u += 1;
        }
        removes.push(col);
        p += 1;
    }

    let mut can_enable: Vec<Vec<bool>> = Vec::new();
    let mut might_disable: Vec<Vec<bool>> = Vec::new();
    let mut t: usize = 0;
    while t < t_count
        invariant
            is_matrix(tin, t_count as nat, p_count as nat),
            is_matrix(tout, t_count as nat, p_count as nat),
            tin == t_in.deep_view(),
            tout == t_out.deep_view(),
            t <= t_count,
            removes@.len() == p_count,
            forall|q: int, k: int| 0 <= q < p_count && 0 <= k < removes@[q]@.len()
                ==> (#[trigger] removes@[q]@[k]) < t_count,
            forall|q: int, k: int| 0 <= q < p_count && 0 <= k < removes@[q]@.len()
                ==> tin[#[trigger] removes@[q]@[k] as int][q] > 0,
            forall|q: int, u: int| 0 <= q < p_count && 0 <= u < t_count && #[trigger] tin[u][q] > 0
                ==> removes@[q]@.contains(u as usize),
            can_enable@.len() == t,
            might_disable@.len() == t,
            forall|a: int| 0 <= a < t ==> (#[trigger] can_enable@[a]@).len() == t_count,
            forall|a: int| 0 <= a < t ==> (#[trigger] might_disable@[a]@).len() == t_count,
            forall|a: int, b: int| 0 <= a < t && 0 <= b < t_count
                ==> ((#[trigger] can_enable@[a]@[b]) <==> spec_can_enable(tin, tout, a, b)),
            forall|a: int, b: int| 0 <= a < t && 0 <= b < t_count
                ==> ((#[trigger] might_disable@[a]@[b]) <==> spec_might_disable(tin, a, b)),
        decreases t_count - t,
    {
        // every transition that adds a token to p might enable every
        // transition that consumes from p
        let enables = union_consumers_over_row(t_out, t, &removes, t_count, p_count, Ghost(tin));
        // every transition that consumes a token from p might disable every
        // other transition that consumes from p
        let disables = union_consumers_over_row(t_in, t, &removes, t_count, p_count, Ghost(tin));
        proof {
            assert forall|b: int| 0 <= b < t_count
                implies ((enables@[b]) <==> spec_can_enable(tin, tout, t as int, b)) by {
                assert(tout[t as int].len() == p_count);
            }
            assert forall|b: int| 0 <= b < t_count
                implies ((disables@[b]) <==> spec_might_disable(tin, t as int, b)) by {
                assert(tin[t as int].len() == p_count);
            }
        }
        can_enable.push(enables);
        might_disable.push(disables);
        t += 1;
    }

    let r = FiringUpdates { can_enable, might_disable };
    proof {
        assert forall|a: int| 0 <= a < tin.len()
            implies (#[trigger] r.can_enable.deep_view()[a]).len() == tin.len() by {
            assert(r.can_enable.deep_view()[a] == r.can_enable@[a]@);
        }
        assert forall|a: int| 0 <= a < tin.len()
            implies (#[trigger] r.might_disable.deep_view()[a]).len() == tin.len() by {
            assert(r.might_disable.deep_view()[a] == r.might_disable@[a]@);
        }
        assert forall|a: int, b: int| 0 <= a < tin.len() && 0 <= b < tin.len()
            implies ((#[trigger] r.can_enable.deep_view()[a][b]) <==> spec_can_enable(
                tin,
                tout,
                a,
                b,
            )) by {
            assert(r.can_enable.deep_view()[a] == r.can_enable@[a]@);
        }
        assert forall|a: int, b: int| 0 <= a < tin.len() && 0 <= b < tin.len()
            implies ((#[trigger] r.might_disable.deep_view()[a][b]) <==> spec_might_disable(
                tin,
                a,
                b,
            )) by {
            assert(r.might_disable.deep_view()[a] == r.might_disable@[a]@);
        }
    }
    r
}

/// Mark, over all places `p` with `weights[row][p] > 0`, every transition
/// consuming from `p`: the union of `removes[p]` over the support of the row.
fn union_consumers_over_row(
    weights: &PTMatrix,
    row: usize,
    removes: &Vec<Vec<usize>>,
    t_count: usize,
    p_count: usize,
    tin: Ghost<Seq<Seq<i16>>>,
) -> (r: Vec<bool>)
    requires
        is_matrix(weights.deep_view(), t_count as nat, p_count as nat),
        row < t_count,
        removes@.len() == p_count,
        forall|q: int, k: int| 0 <= q < p_count && 0 <= k < removes@[q]@.len()
            ==> (#[trigger] removes@[q]@[k]) < t_count,
        forall|q: int, k: int| 0 <= q < p_count && 0 <= k < removes@[q]@.len()
            ==> tin@[#[trigger] removes@[q]@[k] as int][q] > 0,
        forall|q: int, u: int| 0 <= q < p_count && 0 <= u < t_count && #[trigger] tin@[u][q] > 0
            ==> removes@[q]@.contains(u as usize),
    ensures
        r@.len() == t_count,
        forall|b: int| 0 <= b < t_count
            ==> ((#[trigger] r@[b]) <==> exists|p: int|
                0 <= p < p_count && #[trigger] weights.deep_view()[row as int][p] > 0
                    && tin@[b][p] > 0),
{
    let ghost w = weights.deep_view();
    let mut marked = false_row(t_count);
    let mut p: usize = 0;
    while p < p_count
        invariant
            is_matrix(w, t_count as nat, p_count as nat),
            w == weights.deep_view(),
            row < t_count,
            p <= p_count,
            marked@.len() == t_count,
            removes@.len() == p_count,
            forall|q: int, k: int| 0 <= q < p_count && 0 <= k < removes@[q]@.len()
                ==> (#[trigger] removes@[q]@[k]) < t_count,
            forall|q: int, k: int| 0 <= q < p_count && 0 <= k < removes@[q]@.len()
                ==> tin@[#[trigger] removes@[q]@[k] as int][q] > 0,
            forall|q: int, u: int| 0 <= q < p_count && 0 <= u < t_count && #[trigger] tin@[u][q] > 0
                ==> removes@[q]@.contains(u as usize),
            forall|b: int| 0 <= b < t_count
                ==> ((#[trigger] marked@[b]) <==> exists|q: int|
                    0 <= q < p && #[trigger] w[row as int][q] > 0 && tin@[b][q] > 0),
        decreases p_count - p,
    {
        let ghost marked_before_place = marked@;
        proof {
            assert(w.len() == weights@.len());
            assert(w[row as int] =~= weights@[row as int]@);
        }
        if weights[row][p] > 0 {
            assert(w[row as int][p as int] == weights@[row as int]@[p as int]);
            let consumers = &removes[p];
            let mut k: usize = 0;
            while k < consumers.len()
                invariant
                    row < t_count,
                    p < p_count,
                    k <= consumers@.len(),
                    marked@.len() == t_count,
                    consumers == removes@[p as int],
                    forall|j: int| 0 <= j < consumers@.len()
                        ==> (#[trigger] consumers@[j]) < t_count,
                    forall|b: int| 0 <= b < t_count
                        ==> ((#[trigger] marked@[b]) <==> (marked_before_place[b]
                            || exists|j: int| 0 <= j < k && consumers@[j] == b as usize)),
                decreases consumers@.len() - k,
            {
                let ghost pre = marked@;
                let idx = consumers[k];
                marked.set(idx, true);
                assert forall|b: int| 0 <= b < t_count
                    implies ((#[trigger] marked@[b]) <==> (marked_before_place[b]
                        || exists|j: int| 0 <= j < k + 1 && consumers@[j] == b as usize)) by {
                    if b == idx as int {
                        assert(consumers@[k as int] == b as usize);
                    } else {
                        assert(marked@[b] == pre[b]);
                        assert forall|j: int| 0 <= j < k + 1 && consumers@[j] == b as usize
                            implies j < k by {
                            if j == k {
                                assert(consumers@[j] == idx);
                            }
                        }
                    }
                }
                k += 1;
            }
            proof {
                assert forall|b: int| 0 <= b < t_count
                    implies ((#[trigger] marked@[b]) <==> exists|q: int|
                        0 <= q < p + 1 && #[trigger] w[row as int][q] > 0 && tin@[b][q] > 0) by {
                    if marked@[b] {
                        if marked_before_place[b] {
                            let q = choose|q: int|
                                0 <= q < p && #[trigger] w[row as int][q] > 0 && tin@[b][q] > 0;
                            assert(0 <= q < p + 1 && w[row as int][q] > 0 && tin@[b][q] > 0);
                        } else {
                            let j = choose|j: int|
                                0 <= j < consumers@.len() && consumers@[j] == b as usize;
                            assert(tin@[consumers@[j] as int][p as int] > 0);
                            assert(0 <= p < p + 1 && w[row as int][p as int] > 0
                                && tin@[b][p as int] > 0);
                        }
                    } else {
                        assert forall|q: int|
                            0 <= q < p + 1 && #[trigger] w[row as int][q] > 0 && tin@[b][q] > 0
                            implies false by {
                            if q < p {
                                assert(marked_before_place[b]);
                            } else {
                                assert(removes@[q]@.contains(b as usize));
                                let j = choose|j: int|
                                    0 <= j < consumers@.len() && consumers@[j] == b as usize;
                                assert(marked@[b]);
                            }
                        }
                    }
                }
            }
        } else {
            assert(w[row as int][p as int] == weights@[row as int]@[p as int]);
            assert forall|b: int| 0 <= b < t_count
                implies ((#[trigger] marked@[b]) <==> exists|q: int|
                    0 <= q < p + 1 && #[trigger] w[row as int][q] > 0 && tin@[b][q] > 0) by {
                assert forall|q: int|
                    0 <= q < p + 1 && #[trigger] w[row as int][q] > 0 && tin@[b][q] > 0
                    implies q < p by {
                    if q == p {
                        assert(w[row as int][p as int] <= 0);
                    }
                }
            }
        }
        p += 1;
    }
    marked
}

/// Membership in a sequence after a push: the pushed value, and nothing else,
/// is added.
pub(crate) proof fn lemma_push_contains<A>(s: Seq<A>, x: A)
    ensures
        forall|y: A| #[trigger] s.push(x).contains(y) <==> (s.contains(y) || y == x),
{
    assert forall|y: A| #[trigger] s.push(x).contains(y) <==> (s.contains(y) || y == x) by {
        if s.push(x).contains(y) {
            let k = choose|k: int| 0 <= k < s.push(x).len() && s.push(x)[k] == y;
            if k < s.len() {
                assert(s[k] == y);
            }
        }
        if s.contains(y) {
            let k = choose|k: int| 0 <= k < s.len() && s[k] == y;
            assert(s.push(x)[k] == y);
        }
        if y == x {
            assert(s.push(x)[s.len() as int] == y);
        }
    }
}

/// Membership in a duplicate-free sequence after removing index `i`: exactly
/// the value at `i` is taken out, and distinctness is kept.
pub(crate) proof fn lemma_remove_contains<A>(s: Seq<A>, i: int)
    requires
        0 <= i < s.len(),
        forall|k: int, l: int| 0 <= k < l < s.len() ==> s[k] != s[l],
    ensures
        forall|y: A| #[trigger] s.remove(i).contains(y) <==> (s.contains(y) && y != s[i]),
        forall|k: int, l: int| 0 <= k < l < s.remove(i).len() ==> s.remove(i)[k] != s.remove(i)[l],
{
    let r = s.remove(i);
    assert forall|y: A| #[trigger] r.contains(y) <==> (s.contains(y) && y != s[i]) by {
        if r.contains(y) {
            let k = choose|k: int| 0 <= k < r.len() && r[k] == y;
            if k < i {
                assert(s[k] == y);
                assert(s[k] != s[i]);
            } else {
                assert(s[k + 1] == y);
                assert(s[i] != s[k + 1]);
            }
        }
        if s.contains(y) && y != s[i] {
            let k = choose|k: int| 0 <= k < s.len() && s[k] == y;
            if k < i {
                assert(r[k] == y);
            } else {
                assert(k != i);
                assert(r[k - 1] == y);
            }
        }
    }
    assert forall|k: int, l: int| 0 <= k < l < r.len() implies r[k] != r[l] by {
        let sk: int = if k < i { k } else { k + 1 };
        let sl: int = if l < i { l } else { l + 1 };
        assert(r[k] == s[sk]);
        assert(r[l] == s[sl]);
        assert(sk < sl);
    }
}

/// `m_new` results from firing `last` at `prev`:
/// `m_new[p] = prev[p] + t_out[last][p] - t_in[last][p]` for every place.
pub open spec fn fired_marking(
    prev: Seq<i16>,
    t_in: Seq<Seq<i16>>,
    t_out: Seq<Seq<i16>>,
    last: int,
    m_new: Seq<i16>,
) -> bool {
    &&& m_new.len() == prev.len()
    &&& forall|p: int| 0 <= p < prev.len()
        ==> #[trigger] m_new[p] == prev[p] + t_out[last][p] - t_in[last][p]
}

/// The seeding assumptions of the incremental update: `prev_active` is the
/// exact enabled set of some earlier marking `prev`, `last` was enabled there
/// and fired, `m_new` is the marking after that firing, and `fu` is a correct
/// firing-update index for the net's matrices.
pub open spec fn incremental_seed_witness(
    m_new: Seq<i16>,
    t_in: Seq<Seq<i16>>,
    prev_active: Seq<i16>,
    fu: FiringUpdates,
    last: int,
    prev: Seq<i16>,
    t_out: Seq<Seq<i16>>,
) -> bool {
    &&& is_matrix(t_out, t_in.len(), m_new.len() as nat)
    &&& matrix_nonneg(t_in)
    &&& matrix_nonneg(t_out)
    &&& fu.wf(t_in, t_out)
    &&& prev.len() == m_new.len()
    &&& marking_nonneg(prev)
    &&& active_set_matches(prev_active, prev, t_in)
    &&& 0 <= last < t_in.len()
    &&& transition_enabled(prev, t_in, last)
    &&& fired_marking(prev, t_in, t_out, last, m_new)
}

/// Some earlier marking and output matrix witness the seeding assumptions.
pub open spec fn incremental_seed(
    m_new: Seq<i16>,
    t_in: Seq<Seq<i16>>,
    prev_active: Seq<i16>,
    fu: FiringUpdates,
    last: int,
) -> bool {
    exists|prev: Seq<i16>, t_out: Seq<Seq<i16>>|
        incremental_seed_witness(m_new, t_in, prev_active, fu, last, prev, t_out)
}

/// A transition enabled before the firing of `last` stays enabled when it
/// shares no consumed place with `last`: on its input places the marking can
/// only have grown.
proof fn lemma_stays_enabled(
    prev: Seq<i16>,
    t_in: Seq<Seq<i16>>,
    t_out: Seq<Seq<i16>>,
    last: int,
    m_new: Seq<i16>,
    t: int,
)
    requires
        is_matrix(t_in, t_in.len(), m_new.len() as nat),
        is_matrix(t_out, t_in.len(), m_new.len() as nat),
        matrix_nonneg(t_in),
        matrix_nonneg(t_out),
        prev.len() == m_new.len(),
        0 <= last < t_in.len(),
        transition_enabled(prev, t_in, last),
        fired_marking(prev, t_in, t_out, last, m_new),
        0 <= t < t_in.len(),
        transition_enabled(prev, t_in, t),
        !spec_might_disable(t_in, last, t),
    ensures
        transition_enabled(m_new, t_in, t),
{
    assert forall|p: int| 0 <= p < m_new.len() implies #[trigger] t_in[t][p] <= m_new[p] by {
        if t_in[t][p] > 0 {
            assert(!(t_in[last][p] > 0 && t_in[t][p] > 0));
            assert(t_in[last][p] >= 0);
            assert(m_new[p] == prev[p] + t_out[last][p] - t_in[last][p]);
            assert(t_out[last][p] >= 0);
            assert(t_in[t][p] <= prev[p]);
        } else {
            assert(t_in[last][p] <= prev[p]);
            assert(t_out[last][p] >= 0);
            assert(m_new[p] == prev[p] + t_out[last][p] - t_in[last][p]);
        }
    }
}

/// A transition disabled before the firing of `last` stays disabled when
/// `last` adds no token to any of its input places: its blocking place cannot
/// have grown.
proof fn lemma_stays_disabled(
    prev: Seq<i16>,
    t_in: Seq<Seq<i16>>,
    t_out: Seq<Seq<i16>>,
    last: int,
    m_new: Seq<i16>,
    t: int,
)
    requires
        is_matrix(t_in, t_in.len(), m_new.len() as nat),
        is_matrix(t_out, t_in.len(), m_new.len() as nat),
        matrix_nonneg(t_in),
        matrix_nonneg(t_out),
        prev.len() == m_new.len(),
        marking_nonneg(prev),
        0 <= last < t_in.len(),
        fired_marking(prev, t_in, t_out, last, m_new),
        0 <= t < t_in.len(),
        !transition_enabled(prev, t_in, t),
        !spec_can_enable(t_in, t_out, last, t),
    ensures
        !transition_enabled(m_new, t_in, t),
{
    let p = choose|p: int| 0 <= p < prev.len() && !(#[trigger] t_in[t][p] <= prev[p]);
    assert(t_in[t][p] > prev[p]);
    assert(prev[p] >= 0);
    assert(t_in[t][p] > 0);
    assert(!(t_out[last][p] > 0 && t_in[t][p] > 0));
    assert(t_out[last][p] >= 0);
    assert(m_new[p] == prev[p] + t_out[last][p] - t_in[last][p]);
    assert(t_in[last][p] >= 0);
    assert(m_new[p] <= prev[p] < t_in[t][p]);
}

/// First position of `x` in `v`, if any.
fn index_of(v: &Vec<i16>, x: i16) -> (r: Option<usize>)
    ensures
        match r {
            Some(i) => i < v@.len() && v@[i as int] == x,
            None => !v@.contains(x),
        },
{
    let mut k: usize = 0;
    while k < v.len()
        invariant
            k <= v@.len(),
            forall|j: int| 0 <= j < k ==> v@[j] != x,
        decreases v@.len() - k,
    {
        if v[k] == x {
            return Some(k);
        }
        k += 1;
    }
    assert forall|j: int| 0 <= j < v@.len() implies v@[j] != x by {}
    None
}

/// Update the enabled set after one firing, touching only the transitions
/// that `can_enable[last]` or `might_disable[last]` name; with an empty seed
/// set it falls back to the full scan. Seeded correctly, the result is
/// exactly the enabled set of the new marking, as a full scan would find it.
pub fn find_active_transitions_from_firing_set(
    marking: &State,
    transition_inputs: &PTMatrix,
    last_step_active: InputState,
    firing_updates: &FiringUpdates,
    last_fired: &usize,
) -> (r: InputState)
    requires
        is_matrix(
            transition_inputs.deep_view(),
            transition_inputs@.len(),
            marking@.len(),
        ),
        transition_inputs@.len() <= i16::MAX,
        matrix_nonneg(transition_inputs.deep_view()),
        last_step_active@.len() == 0 || incremental_seed(
            marking@,
            transition_inputs.deep_view(),
            last_step_active@,
            *firing_updates,
            *last_fired as int,
        ),
    ensures
        active_set_matches(r@, marking@, transition_inputs.deep_view()),
        last_step_active@.len() == 0 ==> forall|i: int, j: int|
            0 <= i < j < r@.len() ==> #[trigger] r@[i] < #[trigger] r@[j],
{
    if last_step_active.len() == 0 {
        return find_active_transitions(marking, transition_inputs);
    }
    let ghost tin = transition_inputs.deep_view();
    let ghost m_new = marking@;
    let ghost prev_active = last_step_active@;
    let ghost (prev, tout) = choose|prev: Seq<i16>, tout: Seq<Seq<i16>>|
        incremental_seed_witness(
            m_new,
            tin,
            prev_active,
            *firing_updates,
            *last_fired as int,
            prev,
            tout,
        );

    let t_count = transition_inputs.len();
    let last: usize = *last_fired;
    let mut active = last_step_active;
    let mut t: usize = 0;
    while t < t_count
        invariant
            is_matrix(tin, t_count as nat, m_new.len()),
            tin == transition_inputs.deep_view(),
            m_new == marking@,
            t_count <= i16::MAX,
            incremental_seed_witness(
                m_new,
                tin,
                prev_active,
                *firing_updates,
                last as int,
                prev,
                tout,
            ),
            t <= t_count,
            forall|k: int, l: int| 0 <= k < l < active@.len() ==> active@[k] != active@[l],
            forall|k: int| 0 <= k < active@.len() ==> 0 <= #[trigger] active@[k] < t_count,
            forall|u: int| 0 <= u < t
                ==> (#[trigger] active@.contains(u as i16) <==> transition_enabled(m_new, tin, u)),
            forall|u: int| t <= u < t_count
                ==> (#[trigger] active@.contains(u as i16) <==> prev_active.contains(u as i16)),
        decreases t_count - t,
    {
        let pos = index_of(&active, t as i16);
        let was = match pos {
            Some(_) => true,
            None => false,
        };
        proof {
            assert(active@.contains(t as i16) <==> prev_active.contains(t as i16));
            if was {
                let i = choose|i: int| 0 <= i < active@.len() && active@[i] == t as i16;
                assert(active@.contains(t as i16));
            }
            assert(was <==> transition_enabled(prev, tin, t as int));
            assert(firing_updates.can_enable@.len()
                == firing_updates.can_enable.deep_view().len());
            assert(firing_updates.can_enable@[last as int]@
                =~= firing_updates.can_enable.deep_view()[last as int]);
            assert(firing_updates.might_disable@.len()
                == firing_updates.might_disable.deep_view().len());
            assert(firing_updates.might_disable@[last as int]@
                =~= firing_updates.might_disable.deep_view()[last as int]);
        }
        let can_e = firing_updates.can_enable[last][t];
        let might_d = firing_updates.might_disable[last][t];
        proof {
            assert(can_e <==> spec_can_enable(tin, tout, last as int, t as int));
            assert(might_d <==> spec_might_disable(tin, last as int, t as int));
        }
        let add_if_enabled = !was && can_e;
        let remove_if_disabled = was && might_d;
        let ghost active_before = active@;
        if add_if_enabled || remove_if_disabled {
            let now_enabled = is_enabled(marking, transition_inputs, t);
            if now_enabled && add_if_enabled {
                active.push(t as i16);
                proof {
                    lemma_push_contains(active_before, t as i16);
                    assert forall|k: int, l: int| 0 <= k < l < active@.len()
                        implies active@[k] != active@[l] by {
                        if l == active@.len() - 1 {
                            assert(active@[k] == active_before[k]);
                            assert(!active_before.contains(t as i16));
                        }
                    }
                }
            } else if !now_enabled && remove_if_disabled {
                match pos {
                    Some(k) => {
                        active.remove(k);
                        proof {
                            lemma_remove_contains(active_before, k as int);
                        }
                    },
                    None => {
                        proof {
                            assert(false);
                        }
                    },
                }
            }
        } else {
            proof {
                if was {
                    assert(!spec_might_disable(tin, last as int, t as int));
                    lemma_stays_enabled(prev, tin, tout, last as int, m_new, t as int);
                } else {
                    assert(!spec_can_enable(tin, tout, last as int, t as int));
                    lemma_stays_disabled(prev, tin, tout, last as int, m_new, t as int);
                }
            }
        }
        proof {
            assert forall|u: int| 0 <= u < t + 1
                implies (active@.contains(u as i16) <==> transition_enabled(m_new, tin, u)) by {
                if u < t {
                    assert(u as i16 != t as i16);
                    assert(active@.contains(u as i16) <==> active_before.contains(u as i16));
                } else {
                    assert(u == t);
                }
            }
            assert forall|u: int| t + 1 <= u < t_count
                implies (#[trigger] active@.contains(u as i16) <==> prev_active.contains(
                u as i16,
            )) by {
                assert(u as i16 != t as i16);
                assert(active_before.contains(u as i16) <==> prev_active.contains(u as i16));
            }
        }
        t += 1;
    }
    active
}

} // verus!
