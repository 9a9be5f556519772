//! Net representation and primitives: markings, arc-weight matrices, the
//! effect matrix, firing, and enabledness.

use vstd::prelude::*;

verus! {

/// A marking or a row of transition firing counts, one entry per place or
/// transition.
pub type InputState = Vec<i16>;

/// A dense table handed in by the caller: rows are transitions, columns are
/// places.
pub type InputMatrix = Vec<InputState>;

/// A marking held by the core: one token count per place.
pub type State = Vec<i16>;

/// A dense `T x P` table held by the core (arc weights or effects).
pub type PTMatrix = Vec<Vec<i16>>;

/// `m` is a rectangular table with `t` rows and `p` columns.
pub open spec fn is_matrix(m: Seq<Seq<i16>>, t: nat, p: nat) -> bool {
    m.len() == t && forall|i: int| 0 <= i < m.len() ==> (#[trigger] m[i]).len() == p
}

/// Number of columns of a dense table (0 when there are no rows).
pub open spec fn place_count(m: Seq<Seq<i16>>) -> nat {
    if m.len() == 0 {
        0
    } else {
        m[0].len()
    }
}

/// Every entry of `m` is non-negative (arc weights are never negative).
pub open spec fn matrix_nonneg(m: Seq<Seq<i16>>) -> bool {
    forall|i: int, j: int|
        0 <= i < m.len() && 0 <= j < m[i].len() ==> 0 <= #[trigger] m[i][j]
}

/// Every token count of the marking is non-negative.
pub open spec fn marking_nonneg(m: Seq<i16>) -> bool {
    forall|p: int| 0 <= p < m.len() ==> 0 <= #[trigger] m[p]
}

/// Transition `t` is enabled at marking `m`: the marking is componentwise at
/// least the input arc weights of `t`.
pub open spec fn transition_enabled(m: Seq<i16>, t_in: Seq<Seq<i16>>, t: int) -> bool {
    forall|p: int| 0 <= p < m.len() ==> #[trigger] t_in[t][p] <= m[p]
}

/// `active` is exactly the set of transitions enabled at `m`, without
/// duplicates: the correctness statement for any maintained enabled set.
pub open spec fn active_set_matches(active: Seq<i16>, m: Seq<i16>, t_in: Seq<Seq<i16>>) -> bool {
    &&& forall|k: int, l: int| 0 <= k < l < active.len() ==> active[k] != active[l]
    &&& forall|k: int| 0 <= k < active.len() ==> 0 <= #[trigger] active[k] < t_in.len()
    &&& forall|t: int| 0 <= t < t_in.len()
        ==> (active.contains(t as i16) <==> transition_enabled(m, t_in, t))
}

/// `r` is the marking obtained by firing `t` at `m`: componentwise sum of `m`
/// and row `t` of the effect matrix.
pub open spec fn is_fired(m: Seq<i16>, effect: Seq<Seq<i16>>, t: int, r: Seq<i16>) -> bool {
    &&& r.len() == m.len()
    &&& forall|p: int| 0 <= p < m.len() ==> #[trigger] r[p] == m[p] + effect[t][p]
}

/// A marking lifted to unbounded integers, for statements about firing
/// sequences that must not be cut off by the machine word.
pub open spec fn as_ints(s: Seq<i16>) -> Seq<int> {
    Seq::new(s.len(), |i: int| s[i] as int)
}

/// Enabledness of `t` at an unbounded marking.
pub open spec fn enabled_at(m: Seq<int>, t_in: Seq<Seq<i16>>, t: int) -> bool {
    forall|p: int| 0 <= p < m.len() ==> #[trigger] t_in[t][p] <= m[p]
}

/// One firing at an unbounded marking: `t` is enabled at `m` and `m2` is the
/// componentwise result.
pub open spec fn fire_step(
    m: Seq<int>,
    t_in: Seq<Seq<i16>>,
    t_out: Seq<Seq<i16>>,
    t: int,
    m2: Seq<int>,
) -> bool {
    &&& 0 <= t < t_in.len()
    &&& enabled_at(m, t_in, t)
    &&& m2.len() == m.len()
    &&& forall|p: int| 0 <= p < m.len() ==> #[trigger] m2[p] == m[p] + t_out[t][p] - t_in[t][p]
}

/// The firing sequence `fs` leads from `m0` to `m`.
pub open spec fn fires_to(
    m0: Seq<int>,
    t_in: Seq<Seq<i16>>,
    t_out: Seq<Seq<i16>>,
    fs: Seq<int>,
    m: Seq<int>,
) -> bool
    decreases fs.len(),
{
    if fs.len() == 0 {
        m == m0
    } else {
        exists|mid: Seq<int>|
            fires_to(m0, t_in, t_out, fs.drop_last(), mid) && fire_step(
                mid,
                t_in,
                t_out,
                fs.last(),
                m,
            )
    }
}

/// `m` is reachable from `m0` by some firing sequence.
pub open spec fn reachable(
    m0: Seq<int>,
    t_in: Seq<Seq<i16>>,
    t_out: Seq<Seq<i16>>,
    m: Seq<int>,
) -> bool {
    exists|fs: Seq<int>| fires_to(m0, t_in, t_out, fs, m)
}

/// Enabledness at a machine marking and at its unbounded image coincide.
pub proof fn lemma_enabled_at_ints(m: Seq<i16>, t_in: Seq<Seq<i16>>, t: int)
    ensures
        transition_enabled(m, t_in, t) <==> enabled_at(as_ints(m), t_in, t),
{
    assert(as_ints(m).len() == m.len());
    if transition_enabled(m, t_in, t) {
        assert forall|p: int| 0 <= p < as_ints(m).len()
            implies #[trigger] t_in[t][p] <= as_ints(m)[p] by {
            assert(t_in[t][p] <= m[p]);
        }
    }
    if enabled_at(as_ints(m), t_in, t) {
        assert forall|p: int| 0 <= p < m.len() implies #[trigger] t_in[t][p] <= m[p] by {
            assert(t_in[t][p] <= as_ints(m)[p]);
        }
    }
}

/// Reachability extends along one firing.
pub proof fn lemma_reachable_step(
    m0: Seq<int>,
    t_in: Seq<Seq<i16>>,
    t_out: Seq<Seq<i16>>,
    a: Seq<int>,
    t: int,
    b: Seq<int>,
)
    requires
        reachable(m0, t_in, t_out, a),
        fire_step(a, t_in, t_out, t, b),
    ensures
        reachable(m0, t_in, t_out, b),
{
    let fs = choose|fs: Seq<int>| fires_to(m0, t_in, t_out, fs, a);
    let fs2 = fs.push(t);
    assert(fs2.drop_last() =~= fs);
    assert(fs2.last() == t);
    assert(fires_to(m0, t_in, t_out, fs2, b));
}

/// The empty firing sequence: a marking reaches itself.
pub proof fn lemma_reachable_refl(m0: Seq<int>, t_in: Seq<Seq<i16>>, t_out: Seq<Seq<i16>>)
    ensures
        reachable(m0, t_in, t_out, m0),
{
    assert(fires_to(m0, t_in, t_out, Seq::<int>::empty(), m0));
}

/// Componentwise test of `t_in[t] <= marking`.
pub fn is_enabled(marking: &State, t_in: &PTMatrix, t: usize) -> (r: bool)
    requires
        t < t_in@.len(),
        t_in@[t as int]@.len() == marking@.len(),
    ensures
        r == transition_enabled(marking@, t_in.deep_view(), t as int),
{
    let row = &t_in[t];
    let mut p: usize = 0;
    while p < marking.len()
        invariant
            t < t_in@.len(),
            row == t_in@[t as int],
            row@.len() == marking@.len(),
            p <= marking@.len(),
            forall|q: int| 0 <= q < p ==> #[trigger] row@[q] <= marking@[q],
        decreases marking@.len() - p,
    {
        if marking[p] < row[p] {
            assert(!transition_enabled(marking@, t_in.deep_view(), t as int)) by {
                assert(t_in.deep_view()[t as int][p as int] == row@[p as int]);
            }
            return false;
        }
        p += 1;
    }
    assert forall|q: int| 0 <= q < marking@.len()
        implies #[trigger] t_in.deep_view()[t as int][q] <= marking@[q] by {
        assert(t_in.deep_view()[t as int][q] == row@[q]);
    }
    true
}

/// Fire transition `t` at `state`: add row `t` of the effect matrix
/// componentwise. Enabledness is not checked here.
pub fn fire_transition(state: &State, effect_matrix: &PTMatrix, t: usize) -> (r: State)
    requires
        t < effect_matrix@.len(),
        effect_matrix@[t as int]@.len() == state@.len(),
        forall|p: int| 0 <= p < state@.len()
            ==> i16::MIN <= state@[p] + (#[trigger] effect_matrix@[t as int]@[p]) <= i16::MAX,
    ensures
        is_fired(state@, effect_matrix.deep_view(), t as int, r@),
{
    let row = &effect_matrix[t];
    let mut r: Vec<i16> = Vec::new();
    let mut p: usize = 0;
    while p < state.len()
        invariant
            row == effect_matrix@[t as int],
            row@.len() == state@.len(),
            p <= state@.len(),
            r@.len() == p,
            forall|q: int| 0 <= q < p ==> #[trigger] r@[q] == state@[q] + row@[q],
            forall|q: int| 0 <= q < state@.len()
                ==> i16::MIN <= state@[q] + (#[trigger] row@[q]) <= i16::MAX,
        decreases state@.len() - p,
    {
        r.push(state[p] + row[p]);
        p += 1;
    }
    assert forall|q: int| 0 <= q < state@.len()
        implies #[trigger] r@[q] == state@[q]
            + effect_matrix.deep_view()[t as int][q] by {
        assert(effect_matrix.deep_view()[t as int][q] == row@[q]);
    }
    r
}

/// Index and length of a deep view agree with the plain views.
pub proof fn lemma_deep_view_index(v: &Vec<Vec<i16>>, i: int)
    requires
        0 <= i < v@.len(),
    ensures
        v.deep_view().len() == v@.len(),
        v.deep_view()[i] == v@[i]@,
{
    assert(v.deep_view()[i] =~= v@[i]@);
}

/// The effect matrix `E = T_out - T_in`, componentwise.
pub fn effect_matrix(t_in: &PTMatrix, t_out: &PTMatrix) -> (r: PTMatrix)
    requires
        t_out@.len() == t_in@.len(),
        forall|i: int| 0 <= i < t_in@.len()
            ==> (#[trigger] t_out.deep_view()[i]).len() == t_in.deep_view()[i].len(),
        matrix_nonneg(t_in.deep_view()),
        matrix_nonneg(t_out.deep_view()),
    ensures
        r.deep_view().len() == t_in@.len(),
        forall|i: int| 0 <= i < t_in@.len()
            ==> (#[trigger] r.deep_view()[i]).len() == t_in.deep_view()[i].len(),
        forall|i: int, p: int|
            0 <= i < t_in@.len() && 0 <= p < t_in.deep_view()[i].len()
                ==> #[trigger] r.deep_view()[i][p] == t_out.deep_view()[i][p]
                - t_in.deep_view()[i][p],
{
    let ghost tin = t_in.deep_view();
    let ghost tout = t_out.deep_view();
    let mut r: Vec<Vec<i16>> = Vec::new();
    let mut i: usize = 0;
    while i < t_in.len()
        invariant
            tin == t_in.deep_view(),
            tout == t_out.deep_view(),
            tout.len() == tin.len(),
            forall|k: int| 0 <= k < tin.len() ==> (#[trigger] tout[k]).len() == tin[k].len(),
            matrix_nonneg(tin),
            matrix_nonneg(tout),
            i <= tin.len(),
            r@.len() == i,
            forall|k: int| 0 <= k < i ==> (#[trigger] r@[k]@).len() == tin[k].len(),
            forall|k: int, p: int| 0 <= k < i && 0 <= p < tin[k].len()
                ==> #[trigger] r@[k]@[p] == tout[k][p] - tin[k][p],
        decreases tin.len() - i,
    {
        proof {
            assert(tin[i as int] =~= t_in@[i as int]@);
            assert(tout[i as int] =~= t_out@[i as int]@);
        }
        let row_in = &t_in[i];
        let row_out = &t_out[i];
        let mut row: Vec<i16> = Vec::new();
        let mut p: usize = 0;
        while p < row_in.len()
            invariant
                row_in@ == tin[i as int],
                row_out@ == tout[i as int],
                row_out@.len() == row_in@.len(),
                forall|q: int| 0 <= q < row_in@.len() ==> 0 <= #[trigger] row_in@[q],
                forall|q: int| 0 <= q < row_out@.len() ==> 0 <= #[trigger] row_out@[q],
                p <= row_in@.len(),
                row@.len() == p,
                forall|q: int| 0 <= q < p
                    ==> #[trigger] row@[q] == row_out@[q] - row_in@[q],
            decreases row_in@.len() - p,
        {
            proof {
                assert(0 <= row_in@[p as int]);
                assert(0 <= row_out@[p as int]);
            }
            row.push(row_out[p] - row_in[p]);
            p += 1;
        }
        r.push(row);
        proof {
            assert forall|k: int, p: int| 0 <= k < i + 1 && 0 <= p < tin[k].len()
                implies #[trigger] r@[k]@[p] == tout[k][p] - tin[k][p] by {
                if k == i {
                    assert(r@[k]@ == row@);
                }
            }
        }
        i += 1;
    }
    proof {
        assert forall|i: int| 0 <= i < tin.len()
            implies (#[trigger] r.deep_view()[i]).len() == tin[i].len() by {
            lemma_deep_view_index(&r, i);
        }
        assert forall|i: int, p: int| 0 <= i < tin.len() && 0 <= p < tin[i].len()
            implies #[trigger] r.deep_view()[i][p] == tout[i][p] - tin[i][p] by {
            lemma_deep_view_index(&r, i);
        }
    }
    r
}

/// An element-for-element copy of a marking.
pub fn copy_marking(v: &Vec<i16>) -> (r: Vec<i16>)
    ensures
        r@ == v@,
{
    let mut r: Vec<i16> = Vec::new();
    let mut p: usize = 0;
    while p < v.len()
        invariant
            p <= v@.len(),
            r@ =~= v@.take(p as int),
        decreases v@.len() - p,
    {
        r.push(v[p]);
        proof {
            assert(r@ =~= v@.take(p + 1));
        }
        p += 1;
    }
    proof {
        assert(r@ =~= v@);
    }
    r
}

/// Fire `t` at `state` with the sums taken in 32-bit arithmetic: `Some` with
/// the exact componentwise result when every sum stays within `i16`, `None`
/// when one escapes above.
pub(crate) fn fire_checked(state: &Vec<i16>, effect: &PTMatrix, t: usize) -> (r: Option<Vec<i16>>)
    requires
        t < effect@.len(),
        effect.deep_view()[t as int].len() == state@.len(),
        forall|p: int| 0 <= p < state@.len()
            ==> 0 <= state@[p] + #[trigger] effect.deep_view()[t as int][p],
    ensures
        match r {
            Some(v) => {
                &&& v@.len() == state@.len()
                &&& forall|p: int| 0 <= p < state@.len()
                    ==> #[trigger] v@[p] == state@[p] + effect.deep_view()[t as int][p]
            },
            None => exists|p: int|
                0 <= p < state@.len() && state@[p] + #[trigger] effect.deep_view()[t as int][p]
                    > i16::MAX,
        },
{
    let ghost eff_row = effect.deep_view()[t as int];
    proof {
        lemma_deep_view_index(effect, t as int);
    }
    let row = &effect[t];
    let mut v: Vec<i16> = Vec::new();
    let mut p: usize = 0;
    while p < state.len()
        invariant
            t < effect@.len(),
            eff_row == effect.deep_view()[t as int],
            row@ == eff_row,
            row@.len() == state@.len(),
            forall|q: int| 0 <= q < state@.len() ==> 0 <= state@[q] + #[trigger] row@[q],
            p <= state@.len(),
            v@.len() == p,
            forall|q: int| 0 <= q < p ==> #[trigger] v@[q] == state@[q] + row@[q],
        decreases state@.len() - p,
    {
        let sum: i32 = state[p] as i32 + row[p] as i32;
        if sum > i16::MAX as i32 {
            proof {
                assert(state@[p as int] + row@[p as int] > i16::MAX);
                assert(eff_row[p as int] == row@[p as int]);
                assert(effect.deep_view()[t as int] == eff_row);
                assert(state@[p as int] + effect.deep_view()[t as int][p as int] > i16::MAX);
            }
            return None;
        }
        v.push(sum as i16);
        p += 1;
    }
    proof {
        assert forall|q: int| 0 <= q < state@.len()
            implies #[trigger] v@[q] == state@[q] + effect.deep_view()[t as int][q] by {
            assert(effect.deep_view()[t as int][q] == row@[q]);
        }
    }
    Some(v)
}

/// All transitions enabled at `marking`, in ascending index order.
pub fn find_active_transitions(marking: &State, transition_inputs: &PTMatrix) -> (r: InputState)
    requires
        is_matrix(
            transition_inputs.deep_view(),
            transition_inputs@.len(),
            marking@.len(),
        ),
        transition_inputs@.len() <= i16::MAX,
    ensures
        forall|i: int, j: int| 0 <= i < j < r@.len() ==> #[trigger] r@[i] < #[trigger] r@[j],
        active_set_matches(r@, marking@, transition_inputs.deep_view()),
{
    let mut active_transitions: Vec<i16> = Vec::new();
    let mut t: usize = 0;
    while t < transition_inputs.len()
        invariant
            is_matrix(
                transition_inputs.deep_view(),
                transition_inputs@.len(),
                marking@.len(),
            ),
            transition_inputs@.len() <= i16::MAX,
            t <= transition_inputs@.len(),
            forall|i: int, j: int| 0 <= i < j < active_transitions@.len()
                ==> #[trigger] active_transitions@[i] < #[trigger] active_transitions@[j],
            forall|k: int| 0 <= k < active_transitions@.len()
                ==> 0 <= #[trigger] active_transitions@[k] < t,
            forall|u: int| 0 <= u < t
                ==> (active_transitions@.contains(u as i16) <==> transition_enabled(
                    marking@,
                    transition_inputs.deep_view(),
                    u,
                )),
        decreases transition_inputs@.len() - t,
    {
        let ghost pre = active_transitions@;
        proof {
            assert(transition_inputs.deep_view()[t as int] =~= transition_inputs@[t as int]@);
        }
        if is_enabled(marking, transition_inputs, t) {
            active_transitions.push(t as i16);
            assert forall|u: int| 0 <= u < t + 1
                implies (active_transitions@.contains(u as i16) <==> transition_enabled(
                    marking@,
                    transition_inputs.deep_view(),
                    u,
                )) by {
                if u < t {
                    assert(active_transitions@.contains(u as i16) <==> pre.contains(u as i16))
                        by {
                        if pre.contains(u as i16) {
                            let i = choose|i: int| 0 <= i < pre.len() && pre[i] == u as i16;
                            assert(active_transitions@[i] == u as i16);
                        }
                        if active_transitions@.contains(u as i16) {
                            let i = choose|i: int|
                                0 <= i < active_transitions@.len()
                                    && active_transitions@[i] == u as i16;
                            assert(i < pre.len());
                        }
                    }
                } else {
                    assert(active_transitions@[active_transitions@.len() - 1] == u as i16);
                }
            }
        } else {
            assert forall|u: int| 0 <= u < t + 1
                implies (active_transitions@.contains(u as i16) <==> transition_enabled(
                    marking@,
                    transition_inputs.deep_view(),
                    u,
                )) by {
                if u == t {
                    if active_transitions@.contains(u as i16) {
                        let i = choose|i: int|
                            0 <= i < active_transitions@.len()
                                && active_transitions@[i] == u as i16;
                        assert(active_transitions@[i] < t);
                    }
                }
            }
        }
        t += 1;
    }
    active_transitions
}

} // verus!
