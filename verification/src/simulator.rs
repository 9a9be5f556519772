//! The simulator session: a single mutable record holding the net and the
//! current marking, advanced by budgeted runs of random firings with an
//! incrementally maintained enabled set.

use vstd::prelude::*;
use vstd::pervasive::VecAdditionalExecFns;

use rand::Rng;

use crate::clock::{elapsed_millis, instant_now};
use crate::net::{
    InputMatrix, InputState, PTMatrix, State, active_set_matches, as_ints, copy_marking,
    effect_matrix, fire_checked, find_active_transitions, fire_step, fires_to, is_matrix,
    marking_nonneg, matrix_nonneg, place_count, transition_enabled,
};
use crate::responses::SimulationResponse;
use crate::updates::{
    FiringUpdates, create_firing_updates, find_active_transitions_from_firing_set,
    incremental_seed_witness,
};

verus! {

/// The simulator session: the current marking, the net's matrices, the
/// firing-update index, and the sticky deadlock flag.
pub struct SimulatorState {
    pub state: State,
    pub t_in: PTMatrix,
    pub t_effect: PTMatrix,
    pub deadlocked: bool,
    pub firing_updates: FiringUpdates,
}

impl SimulatorState {
    /// The session is consistent with the output matrix `t_out`: all tables
    /// share the net's shape, the effect matrix is `t_out - t_in`, the
    /// firing-update index fits the matrices, and the marking is
    /// non-negative.
    pub open spec fn wf_with(&self, t_out: Seq<Seq<i16>>) -> bool {
        let tin = self.t_in.deep_view();
        let eff = self.t_effect.deep_view();
        &&& is_matrix(tin, tin.len(), self.state@.len() as nat)
        &&& is_matrix(t_out, tin.len(), self.state@.len() as nat)
        &&& is_matrix(eff, tin.len(), self.state@.len() as nat)
        &&& matrix_nonneg(tin)
        &&& matrix_nonneg(t_out)
        &&& (forall|t: int, p: int|
            0 <= t < tin.len() && 0 <= p < self.state@.len()
                ==> #[trigger] eff[t][p] == t_out[t][p] - tin[t][p])
        &&& self.firing_updates.wf(tin, t_out)
        &&& marking_nonneg(self.state@)
        &&& tin.len() <= 32767
    }

    /// Some output matrix makes the session consistent.
    pub open spec fn wf(&self) -> bool {
        exists|t_out: Seq<Seq<i16>>| self.wf_with(t_out)
    }

    /// What every stored session satisfies between calls: either the sticky
    /// deadlock flag is set, or the session is consistent and not degenerate.
    pub open spec fn session_ok(&self) -> bool {
        self.deadlocked || (self.wf() && (self.t_in@.len() == 0 || self.state@.len() >= 1))
    }
}

/// The output matrix consistent with a session is unique: it is pinned
/// componentwise by `t_in` and the effect matrix.
proof fn lemma_wf_with_unique(s: SimulatorState, a: Seq<Seq<i16>>, b: Seq<Seq<i16>>)
    requires
        s.wf_with(a),
        s.wf_with(b),
    ensures
        a == b,
{
    let tin = s.t_in.deep_view();
    let eff = s.t_effect.deep_view();
    assert forall|t: int| 0 <= t < a.len() implies a[t] == b[t] by {
        assert forall|p: int| 0 <= p < a[t].len() implies a[t][p] == b[t][p] by {
            assert(eff[t][p] == a[t][p] - tin[t][p]);
            assert(eff[t][p] == b[t][p] - tin[t][p]);
        }
        assert(a[t] =~= b[t]);
    }
    assert(a =~= b);
}

/// How often `t` occurs in the firing sequence.
pub open spec fn count_of(fs: Seq<int>, t: int) -> nat
    decreases fs.len(),
{
    if fs.len() == 0 {
        0
    } else {
        count_of(fs.drop_last(), t) + (if fs.last() == t {
            1nat
        } else {
            0nat
        })
    }
}

/// Why a run stops with the deadlock flag set: no transition is enabled, or
/// the overflow guard fired (a token count beyond 30000, or a firing whose
/// result would not fit the 16-bit word).
pub open spec fn simulation_stuck(m: Seq<i16>, t_in: Seq<Seq<i16>>, eff: Seq<Seq<i16>>) -> bool {
    ||| (forall|t: int| 0 <= t < t_in.len() ==> !(#[trigger] transition_enabled(m, t_in, t)))
    ||| (exists|p: int| 0 <= p < m.len() && #[trigger] m[p] > 30000)
    ||| (exists|t: int, p: int|
        0 <= t < t_in.len() && 0 <= p < m.len() && transition_enabled(m, t_in, t) && m[p]
            + #[trigger] eff[t][p] > i16::MAX)
}

/// The run reported in `firings` leads from the marking of `s0` to
/// `m_final`: for the output matrix of the session there is a firing
/// sequence whose per-transition counts are exactly `firings`.
pub open spec fn ran_to(s0: SimulatorState, m_final: Seq<i16>, firings: Seq<i16>) -> bool {
    forall|t_out: Seq<Seq<i16>>| #[trigger] s0.wf_with(t_out)
        ==> exists|fs: Seq<int>|
            #[trigger] fires_to(
                as_ints(s0.state@),
                s0.t_in.deep_view(),
                t_out,
                fs,
                as_ints(m_final),
            ) && (forall|t: int| 0 <= t < s0.t_in@.len() ==> firings[t] == count_of(fs, t))
}

/// Relies on rand's `thread_rng` and `Rng::gen_range`: a random index below
/// `n`; nothing is promised beyond the range.
#[verifier::external_body]
fn random_index(n: usize) -> (r: usize)
    requires
        n > 0,
    ensures
        r < n,
{
    rand::thread_rng().gen_range(0..n)
}

/// Pick one of the active transitions at random.
pub fn select_transition(active_transitions: &InputState) -> (r: usize)
    requires
        active_transitions@.len() > 0,
        forall|k: int| 0 <= k < active_transitions@.len()
            ==> 0 <= #[trigger] active_transitions@[k],
    ensures
        exists|k: int|
            0 <= k < active_transitions@.len() && r == (#[trigger] active_transitions@[k]) as usize,
        r <= 32767,
{
    let rng_index = random_index(active_transitions.len());
    let v = active_transitions[rng_index];
    proof {
        assert(0 <= active_transitions@[rng_index as int]);
    }
    v as usize
}

/// A vector of `n` zero counters.
fn zero_heat(n: usize) -> (r: Vec<i16>)
    ensures
        r@.len() == n,
        forall|k: int| 0 <= k < n ==> (#[trigger] r@[k]) == 0,
{
    let mut r: Vec<i16> = Vec::new();
    let mut k: usize = 0;
    while k < n
        invariant
            k <= n,
            r@.len() == k,
            forall|j: int| 0 <= j < k ==> (#[trigger] r@[j]) == 0,
        decreases n - k,
    {
        r.push(0);
        k += 1;
    }
    r
}

/// Extending a run by one firing bumps exactly that transition's count.
proof fn lemma_count_push(fs: Seq<int>, x: int)
    ensures
        forall|u: int| #[trigger] count_of(fs.push(x), u) == count_of(fs, u) + (if u == x {
            1int
        } else {
            0int
        }),
{
    assert forall|u: int| #[trigger] count_of(fs.push(x), u) == count_of(fs, u) + (if u == x {
        1int
    } else {
        0int
    }) by {
        assert(fs.push(x).drop_last() =~= fs);
        assert(fs.push(x).last() == x);
    }
}

/// Build a fresh session from the caller's net: the marking as given, the
/// effect matrix and firing-update index computed, not deadlocked.
pub fn get_fresh_simulator_state(
    marking: InputState,
    transition_inputs: InputMatrix,
    transition_outputs: InputMatrix,
) -> (r: SimulatorState)
    requires
        is_matrix(transition_inputs.deep_view(), transition_inputs@.len(), marking@.len()),
        is_matrix(transition_outputs.deep_view(), transition_inputs@.len(), marking@.len()),
        matrix_nonneg(transition_inputs.deep_view()),
        matrix_nonneg(transition_outputs.deep_view()),
        marking_nonneg(marking@),
        transition_inputs@.len() <= 32767,
    ensures
        r.state@ == marking@,
        r.t_in == transition_inputs,
        !r.deadlocked,
        r.wf_with(transition_outputs.deep_view()),
{
    let ghost tin = transition_inputs.deep_view();
    let ghost tout = transition_outputs.deep_view();
    proof {
        assert forall|i: int| 0 <= i < tin.len()
            implies (#[trigger] tout[i]).len() == tin[i].len() by {}
        assert(place_count(tin) == tin.len() == 0 || place_count(tin) == marking@.len()
            || tin.len() == 0);
    }
    let t_effect = effect_matrix(&transition_inputs, &transition_outputs);
    proof {
        if transition_inputs@.len() > 0 {
            assert(place_count(tin) == marking@.len());
        }
        assert(is_matrix(tin, tin.len(), place_count(tin)));
        assert(is_matrix(tout, tin.len(), place_count(tin)));
    }
    let firing_updates = create_firing_updates(&transition_inputs, &transition_outputs);
    SimulatorState {
        state: marking,
        t_in: transition_inputs,
        t_effect,
        deadlocked: false,
        firing_updates,
    }
}

/// Register an empty net: mark the session deadlocked with empty matrices
/// and hand the marking straight back.
pub fn handle_no_transitions(sim: &mut SimulatorState, marking: InputState) -> (r:
    SimulationResponse)
    ensures
        final(sim).deadlocked,
        final(sim).state == old(sim).state,
        final(sim).t_in@.len() == 0,
        final(sim).t_effect@.len() == 0,
        r.marking == marking,
        r.firings@.len() == 0,
        r.deadlocked,
{
    sim.t_in = Vec::new();
    sim.t_effect = Vec::new();
    sim.deadlocked = true;
    SimulationResponse::new(marking, Vec::new(), true)
}

/// Run random firings from the stored marking until the update budget in
/// milliseconds is spent or the net deadlocks, maintaining the enabled set
/// incrementally; near integer overflow the run stops as a sticky deadlock.
pub fn simulate(sim: &mut SimulatorState, update_time: u128) -> (r: SimulationResponse)
    requires
        old(sim).wf(),
        !old(sim).deadlocked,
        old(sim).t_in@.len() == 0 || old(sim).state@.len() >= 1,
    ensures
        final(sim).wf(),
        final(sim).t_in == old(sim).t_in,
        final(sim).t_effect == old(sim).t_effect,
        final(sim).firing_updates == old(sim).firing_updates,
        final(sim).state@.len() == old(sim).state@.len(),
        r.marking@ == final(sim).state@,
        r.deadlocked == final(sim).deadlocked,
        r.firings@.len() == old(sim).t_in@.len(),
        ran_to(*old(sim), final(sim).state@, r.firings@),
        r.deadlocked ==> simulation_stuck(
            final(sim).state@,
            old(sim).t_in.deep_view(),
            old(sim).t_effect.deep_view(),
        ),
        forall|t_out: Seq<Seq<i16>>| #[trigger] old(sim).wf_with(t_out)
            ==> final(sim).wf_with(t_out),
        update_time == 0 ==> (!r.deadlocked && final(sim).state@ == old(sim).state@ && forall|
            t: int,
        | 0 <= t < old(sim).t_in@.len() ==> r.firings@[t] == 0),
{
    let ghost s0 = *old(sim);
    let ghost tout = choose|t_out: Seq<Seq<i16>>| old(sim).wf_with(t_out);
    let ghost tin = sim.t_in.deep_view();
    let ghost effv = sim.t_effect.deep_view();
    let ghost m0i = as_ints(sim.state@);
    let t_count = sim.t_in.len();

    let mut state_vec = copy_marking(&sim.state);
    let mut t_heat = zero_heat(t_count);
    let ghost mut fs: Seq<int> = Seq::empty();
    proof {
        assert(fires_to(m0i, tin, tout, fs, as_ints(state_vec@)));
    }
    let mut active = find_active_transitions(&state_vec, &sim.t_in);
    let start = instant_now();
    let mut step: u64 = 1;

    while step < u64::MAX && elapsed_millis(&start) < update_time
        invariant
            *sim == s0,
            s0 == *old(sim),
            s0.wf_with(tout),
            !s0.deadlocked,
            tin == s0.t_in.deep_view(),
            effv == s0.t_effect.deep_view(),
            m0i == as_ints(s0.state@),
            t_count == tin.len(),
            t_count <= 32767,
            s0.t_in@.len() == 0 || s0.state@.len() >= 1,
            state_vec@.len() == s0.state@.len(),
            marking_nonneg(state_vec@),
            t_heat@.len() == t_count,
            forall|t: int| 0 <= t < t_count ==> #[trigger] t_heat@[t] == count_of(fs, t),
            fires_to(m0i, tin, tout, fs, as_ints(state_vec@)),
            active_set_matches(active@, state_vec@, tin),
            update_time == 0 ==> fs == Seq::<int>::empty() && state_vec@ == s0.state@,
        decreases u64::MAX - step,
    {
        // check if the simulation is deadlocked
        if active.len() == 0 {
            proof {
                assert forall|t: int| 0 <= t < tin.len()
                    implies !(#[trigger] transition_enabled(state_vec@, tin, t)) by {
                    assert(!active@.contains(t as i16));
                }
            }
            let result_marking = copy_marking(&state_vec);
            sim.state = state_vec;
            sim.deadlocked = true;
            let r = SimulationResponse::new(result_marking, t_heat, true);
            proof {
                assert(sim.wf_with(tout));
                assert forall|t_out2: Seq<Seq<i16>>| #[trigger] s0.wf_with(t_out2)
                    implies sim.wf_with(t_out2) by {
                    lemma_wf_with_unique(s0, t_out2, tout);
                }
                lemma_simulate_post(s0, tout, fs, final(sim).state@, r.firings@);
            }
            return r;
        }
        let fired = select_transition(&active);
        proof {
            let k = choose|k: int| 0 <= k < active@.len() && fired == (
            #[trigger] active@[k]) as usize;
            assert(active@[k] == fired as i16);
            assert(active@.contains(fired as i16));
            assert(0 <= fired < t_count);
            assert(transition_enabled(state_vec@, tin, fired as int));
        }
        // stop a run whose firing counter would no longer fit its word
        if t_heat[fired] == i16::MAX {
            break;
        }
        proof {
            assert forall|p: int| 0 <= p < state_vec@.len()
                implies 0 <= state_vec@[p] + #[trigger] effv[fired as int][p] by {
                assert(tin[fired as int][p] <= state_vec@[p]);
                assert(effv[fired as int][p] == tout[fired as int][p] - tin[fired as int][p]);
                assert(0 <= tout[fired as int][p]);
            }
        }
        match fire_checked(&state_vec, &sim.t_effect, fired) {
            None => {
                // the next marking would escape the 16-bit word: near
                // overflow, convert to a sticky deadlock
                proof {
                    let p = choose|p: int|
                        0 <= p < state_vec@.len() && state_vec@[p]
                            + #[trigger] effv[fired as int][p] > i16::MAX;
                    assert(simulation_stuck(state_vec@, tin, effv));
                }
                let result_marking = copy_marking(&state_vec);
                sim.state = state_vec;
                sim.deadlocked = true;
                let r = SimulationResponse::new(result_marking, t_heat, true);
                proof {
                    assert(sim.wf_with(tout));
                    assert forall|t_out2: Seq<Seq<i16>>| #[trigger] s0.wf_with(t_out2)
                        implies sim.wf_with(t_out2) by {
                        lemma_wf_with_unique(s0, t_out2, tout);
                    }
                    lemma_simulate_post(s0, tout, fs, final(sim).state@, r.firings@);
                }
                return r;
            },
            Some(new_state) => {
                let ghost prev = state_vec@;
                let ghost prev_active = active@;
                proof {
                    assert forall|p: int| 0 <= p < new_state@.len()
                        implies 0 <= #[trigger] new_state@[p] by {
                        assert(new_state@[p] == prev[p] + effv[fired as int][p]);
                        assert(tin[fired as int][p] <= prev[p]);
                        assert(effv[fired as int][p] == tout[fired as int][p] - tin[
                            fired as int][p]);
                        assert(0 <= tout[fired as int][p]);
                    }
                    assert forall|p: int| 0 <= p < prev.len()
                        implies #[trigger] new_state@[p] == prev[p] + tout[fired as int][p]
                            - tin[fired as int][p] by {
                        assert(new_state@[p] == prev[p] + effv[fired as int][p]);
                    }
                    crate::reachability::lemma_fire_step_from_vec(
                        prev,
                        new_state@,
                        tin,
                        tout,
                        fired as int,
                    );
                    let fs2 = fs.push(fired as int);
                    assert(fs2.drop_last() =~= fs);
                    assert(fs2.last() == fired as int);
                    assert(fires_to(m0i, tin, tout, fs2.drop_last(), as_ints(prev)));
                    assert(fire_step(as_ints(prev), tin, tout, fs2.last(), as_ints(new_state@)));
                    assert(fires_to(m0i, tin, tout, fs2, as_ints(new_state@)));
                    lemma_count_push(fs, fired as int);
                    fs = fs2;
                }
                let bumped = t_heat[fired] + 1;
                t_heat.set(fired, bumped);
                state_vec = new_state;
                step = step + 1;
                // guard against integer overflow on long unbounded runs
                if step % 2000 == 0 {
                    let peak = crate::properties::max_entry(&state_vec);
                    if peak > 30000 {
                        proof {
                            let p = choose|p: int|
                                0 <= p < state_vec@.len() && (#[trigger] state_vec@[p]) == peak;
                            assert(simulation_stuck(state_vec@, tin, effv));
                        }
                        let result_marking = copy_marking(&state_vec);
                        sim.state = state_vec;
                        sim.deadlocked = true;
                        let r = SimulationResponse::new(result_marking, t_heat, true);
                        proof {
                            assert(sim.wf_with(tout));
                            assert forall|t_out2: Seq<Seq<i16>>| #[trigger] s0.wf_with(t_out2)
                                implies sim.wf_with(t_out2) by {
                                lemma_wf_with_unique(s0, t_out2, tout);
                            }
                            lemma_simulate_post(s0, tout, fs, final(sim).state@, r.firings@);
                        }
                        return r;
                    }
                }
                proof {
                    assert(incremental_seed_witness(
                        state_vec@,
                        tin,
                        active@,
                        sim.firing_updates,
                        fired as int,
                        prev,
                        tout,
                    ));
                }
                active = find_active_transitions_from_firing_set(
                    &state_vec,
                    &sim.t_in,
                    active,
                    &sim.firing_updates,
                    &fired,
                );
            },
        }
    }
    let result_marking = copy_marking(&state_vec);
    sim.state = state_vec;
    let r = SimulationResponse::new(result_marking, t_heat, false);
    proof {
        assert(sim.wf_with(tout));
        lemma_simulate_post(s0, tout, fs, final(sim).state@, r.firings@);
    }
    r
}

/// One firing was taken: for the output matrix of the session, some enabled
/// transition leads from the old marking to `m_final`, and `firings` is its
/// one-hot record.
pub open spec fn stepped_to(s0: SimulatorState, m_final: Seq<i16>, firings: Seq<i16>) -> bool {
    forall|t_out: Seq<Seq<i16>>| #[trigger] s0.wf_with(t_out)
        ==> exists|t: int|
            0 <= t < s0.t_in@.len() && #[trigger] fire_step(
                as_ints(s0.state@),
                s0.t_in.deep_view(),
                t_out,
                t,
                as_ints(m_final),
            ) && firings[t] == 1 && (forall|u: int|
                0 <= u < s0.t_in@.len() && u != t ==> firings[u] == 0)
}

/// A one-hot vector: `1` at `fired`, `0` elsewhere.
fn one_hot(n: usize, fired: usize) -> (r: Vec<i16>)
    requires
        fired < n,
    ensures
        r@.len() == n,
        r@[fired as int] == 1,
        forall|k: int| 0 <= k < n && k != fired ==> (#[trigger] r@[k]) == 0,
{
    let mut r: Vec<i16> = Vec::new();
    let mut k: usize = 0;
    while k < n
        invariant
            fired < n,
            k <= n,
            r@.len() == k,
            forall|j: int| 0 <= j < k && j != fired ==> (#[trigger] r@[j]) == 0,
            fired < k ==> r@[fired as int] == 1,
        decreases n - k,
    {
        if k == fired {
            r.push(1);
        } else {
            r.push(0);
        }
        k += 1;
    }
    r
}

/// The single recorded firing satisfies `stepped_to` for every output
/// matrix consistent with the starting session (there is exactly one).
proof fn lemma_step_post(
    s0: SimulatorState,
    tout: Seq<Seq<i16>>,
    t: int,
    m_final: Seq<i16>,
    firings: Seq<i16>,
)
    requires
        s0.wf_with(tout),
        0 <= t < s0.t_in@.len(),
        fire_step(as_ints(s0.state@), s0.t_in.deep_view(), tout, t, as_ints(m_final)),
        firings.len() == s0.t_in@.len(),
        firings[t] == 1,
        forall|u: int| 0 <= u < s0.t_in@.len() && u != t ==> firings[u] == 0,
    ensures
        stepped_to(s0, m_final, firings),
{
    assert forall|t_out: Seq<Seq<i16>>| #[trigger] s0.wf_with(t_out)
        implies exists|t2: int|
        0 <= t2 < s0.t_in@.len() && #[trigger] fire_step(
            as_ints(s0.state@),
            s0.t_in.deep_view(),
            t_out,
            t2,
            as_ints(m_final),
        ) && firings[t2] == 1 && (forall|u: int|
            0 <= u < s0.t_in@.len() && u != t2 ==> firings[u] == 0) by {
        lemma_wf_with_unique(s0, t_out, tout);
        assert(fire_step(as_ints(s0.state@), s0.t_in.deep_view(), t_out, t, as_ints(m_final)));
    }
}

/// Perform exactly one random firing from the stored marking: overflow
/// guard first, then a full scan for the enabled set, then one firing with
/// a one-hot firing record; an empty enabled set or the guard is a sticky
/// deadlock.
pub fn simulate_step(sim: &mut SimulatorState) -> (r: SimulationResponse)
    requires
        old(sim).wf(),
        !old(sim).deadlocked,
        old(sim).state@.len() >= 1,
    ensures
        final(sim).wf(),
        final(sim).t_in == old(sim).t_in,
        final(sim).t_effect == old(sim).t_effect,
        final(sim).firing_updates == old(sim).firing_updates,
        r.marking@ == final(sim).state@,
        r.deadlocked == final(sim).deadlocked,
        r.firings@.len() == old(sim).t_in@.len(),
        !r.deadlocked ==> stepped_to(*old(sim), final(sim).state@, r.firings@),
        r.deadlocked ==> final(sim).state@ == old(sim).state@ && simulation_stuck(
            final(sim).state@,
            old(sim).t_in.deep_view(),
            old(sim).t_effect.deep_view(),
        ),
        r.deadlocked ==> forall|t: int| 0 <= t < old(sim).t_in@.len() ==> r.firings@[t] == 0,
        (exists|p: int| 0 <= p < old(sim).state@.len() && #[trigger] old(sim).state@[p] > 30000)
            ==> r.deadlocked,
        forall|t_out: Seq<Seq<i16>>| #[trigger] old(sim).wf_with(t_out)
            ==> final(sim).wf_with(t_out),
{
    let ghost s0 = *old(sim);
    let ghost tout = choose|t_out: Seq<Seq<i16>>| old(sim).wf_with(t_out);
    let ghost tin = sim.t_in.deep_view();
    let ghost effv = sim.t_effect.deep_view();
    let t_count = sim.t_in.len();
    let state_vec = copy_marking(&sim.state);

    // check if the marking is close to overflow
    let peak = crate::properties::max_entry(&state_vec);
    if peak > 30000 {
        proof {
            let p = choose|p: int| 0 <= p < state_vec@.len() && (#[trigger] state_vec@[p]) == peak;
            assert(simulation_stuck(state_vec@, tin, effv));
        }
        let result_marking = copy_marking(&state_vec);
        sim.state = state_vec;
        sim.deadlocked = true;
        proof {
            assert(sim.wf_with(tout));
            assert forall|t_out2: Seq<Seq<i16>>| #[trigger] s0.wf_with(t_out2)
                implies sim.wf_with(t_out2) by {
                lemma_wf_with_unique(s0, t_out2, tout);
            }
        }
        return SimulationResponse::new(result_marking, zero_heat(t_count), true);
    }

    let active = find_active_transitions(&state_vec, &sim.t_in);
    if active.len() == 0 {
        proof {
            assert forall|t: int| 0 <= t < tin.len()
                implies !(#[trigger] transition_enabled(state_vec@, tin, t)) by {
                assert(!active@.contains(t as i16));
            }
        }
        let result_marking = copy_marking(&state_vec);
        sim.state = state_vec;
        sim.deadlocked = true;
        proof {
            assert(sim.wf_with(tout));
            assert forall|t_out2: Seq<Seq<i16>>| #[trigger] s0.wf_with(t_out2)
                implies sim.wf_with(t_out2) by {
                lemma_wf_with_unique(s0, t_out2, tout);
            }
        }
        return SimulationResponse::new(result_marking, zero_heat(t_count), true);
    }

    let fired = select_transition(&active);
    proof {
        let k = choose|k: int| 0 <= k < active@.len() && fired == (#[trigger] active@[k]) as usize;
        assert(active@[k] == fired as i16);
        assert(active@.contains(fired as i16));
        assert(0 <= fired < t_count);
        assert(transition_enabled(state_vec@, tin, fired as int));
        assert forall|p: int| 0 <= p < state_vec@.len()
            implies 0 <= state_vec@[p] + #[trigger] effv[fired as int][p] by {
            assert(tin[fired as int][p] <= state_vec@[p]);
            assert(effv[fired as int][p] == tout[fired as int][p] - tin[fired as int][p]);
            assert(0 <= tout[fired as int][p]);
        }
    }
    match fire_checked(&state_vec, &sim.t_effect, fired) {
        None => {
            // the firing would escape the 16-bit word: near overflow,
            // convert to a sticky deadlock
            proof {
                let p = choose|p: int|
                    0 <= p < state_vec@.len() && state_vec@[p] + #[trigger] effv[fired as int][p]
                        > i16::MAX;
                assert(simulation_stuck(state_vec@, tin, effv));
            }
            let result_marking = copy_marking(&state_vec);
            sim.state = state_vec;
            sim.deadlocked = true;
            proof {
                assert(sim.wf_with(tout));
                assert forall|t_out2: Seq<Seq<i16>>| #[trigger] s0.wf_with(t_out2)
                    implies sim.wf_with(t_out2) by {
                    lemma_wf_with_unique(s0, t_out2, tout);
                }
            }
            SimulationResponse::new(result_marking, zero_heat(t_count), true)
        },
        Some(new_state) => {
            proof {
                assert forall|p: int| 0 <= p < new_state@.len()
                    implies 0 <= #[trigger] new_state@[p] by {
                    assert(new_state@[p] == state_vec@[p] + effv[fired as int][p]);
                    assert(tin[fired as int][p] <= state_vec@[p]);
                    assert(effv[fired as int][p] == tout[fired as int][p] - tin[fired as int][p]);
                    assert(0 <= tout[fired as int][p]);
                }
                assert forall|p: int| 0 <= p < state_vec@.len()
                    implies #[trigger] new_state@[p] == state_vec@[p] + tout[fired as int][p]
                        - tin[fired as int][p] by {
                    assert(new_state@[p] == state_vec@[p] + effv[fired as int][p]);
                }
                crate::reachability::lemma_fire_step_from_vec(
                    state_vec@,
                    new_state@,
                    tin,
                    tout,
                    fired as int,
                );
            }
            let t_heat = one_hot(t_count, fired);
            let result_marking = copy_marking(&new_state);
            sim.state = new_state;
            proof {
                assert(sim.wf_with(tout));
                assert forall|t_out2: Seq<Seq<i16>>| #[trigger] s0.wf_with(t_out2)
                    implies sim.wf_with(t_out2) by {
                    lemma_wf_with_unique(s0, t_out2, tout);
                }
                assert(!(exists|p: int|
                    0 <= p < s0.state@.len() && #[trigger] s0.state@[p] > 30000)) by {
                    if exists|p: int| 0 <= p < s0.state@.len() && #[trigger] s0.state@[p]
                        > 30000 {
                        let p = choose|p: int|
                            0 <= p < s0.state@.len() && #[trigger] s0.state@[p] > 30000;
                        assert(state_vec@[p] <= peak);
                    }
                }
                lemma_step_post(s0, tout, fired as int, final(sim).state@, t_heat@);
            }
            SimulationResponse::new(result_marking, t_heat, false)
        },
    }
}

/// Replace the session with a fresh one for the caller's net and run the
/// budgeted simulation; a net with no transitions or no places is registered
/// as immediately deadlocked.
pub fn start_simulation(
    sim: &mut SimulatorState,
    marking: InputState,
    transition_inputs: InputMatrix,
    transition_outputs: InputMatrix,
    update_time: u128,
) -> (r: SimulationResponse)
    requires
        is_matrix(transition_inputs.deep_view(), transition_inputs@.len(), marking@.len()),
        is_matrix(transition_outputs.deep_view(), transition_inputs@.len(), marking@.len()),
        matrix_nonneg(transition_inputs.deep_view()),
        matrix_nonneg(transition_outputs.deep_view()),
        marking_nonneg(marking@),
        transition_inputs@.len() <= 32767,
    ensures
        final(sim).session_ok(),
        r.deadlocked == final(sim).deadlocked,
        (transition_inputs@.len() == 0 || marking@.len() == 0) ==> (final(sim).deadlocked
            && r.deadlocked && r.marking == marking && r.firings@.len() == 0
            && final(sim).t_in@.len() == 0 && final(sim).t_effect@.len() == 0),
        (transition_inputs@.len() > 0 && marking@.len() > 0) ==> ({
            &&& final(sim).wf_with(transition_outputs.deep_view())
            &&& final(sim).t_in == transition_inputs
            &&& r.marking@ == final(sim).state@
            &&& r.firings@.len() == transition_inputs@.len()
            &&& (exists|fs: Seq<int>|
                #[trigger] fires_to(
                    as_ints(marking@),
                    transition_inputs.deep_view(),
                    transition_outputs.deep_view(),
                    fs,
                    as_ints(final(sim).state@),
                ) && (forall|t: int|
                    0 <= t < transition_inputs@.len() ==> r.firings@[t] == count_of(fs, t)))
            &&& (r.deadlocked ==> simulation_stuck(
                final(sim).state@,
                transition_inputs.deep_view(),
                final(sim).t_effect.deep_view(),
            ))
        }),
{
    if transition_inputs.len() == 0 {
        return handle_no_transitions(sim, marking);
    }
    if transition_inputs[0].len() == 0 {
        proof {
            assert(transition_inputs.deep_view()[0].len() == marking@.len());
            assert(transition_inputs.deep_view()[0] =~= transition_inputs@[0]@);
        }
        return handle_no_transitions(sim, marking);
    }
    proof {
        assert(transition_inputs.deep_view()[0].len() == marking@.len());
        assert(transition_inputs.deep_view()[0] =~= transition_inputs@[0]@);
        assert(marking@.len() > 0);
    }
    let ghost m0 = marking@;
    let ghost tin = transition_inputs.deep_view();
    let ghost tout = transition_outputs.deep_view();
    let new_state = get_fresh_simulator_state(marking, transition_inputs, transition_outputs);
    let ghost fresh = new_state;
    *sim = new_state;
    let r = simulate(sim, update_time);
    proof {
        assert(fresh.wf_with(tout));
        assert(sim.wf_with(tout));
        assert(ran_to(fresh, final(sim).state@, r.firings@));
        let fs = choose|fs: Seq<int>|
            #[trigger] fires_to(
                as_ints(fresh.state@),
                fresh.t_in.deep_view(),
                tout,
                fs,
                as_ints(final(sim).state@),
            ) && (forall|t: int|
                0 <= t < fresh.t_in@.len() ==> r.firings@[t] == count_of(fs, t));
        assert(fires_to(as_ints(m0), tin, tout, fs, as_ints(final(sim).state@)));
    }
    r
}

/// Replace the session with a fresh one for the caller's net and perform
/// exactly one firing; a net with no transitions or no places is registered
/// as immediately deadlocked.
pub fn start_simulation_step(
    sim: &mut SimulatorState,
    marking: InputState,
    transition_inputs: InputMatrix,
    transition_outputs: InputMatrix,
) -> (r: SimulationResponse)
    requires
        is_matrix(transition_inputs.deep_view(), transition_inputs@.len(), marking@.len()),
        is_matrix(transition_outputs.deep_view(), transition_inputs@.len(), marking@.len()),
        matrix_nonneg(transition_inputs.deep_view()),
        matrix_nonneg(transition_outputs.deep_view()),
        marking_nonneg(marking@),
        transition_inputs@.len() <= 32767,
    ensures
        final(sim).session_ok(),
        r.deadlocked == final(sim).deadlocked,
        (transition_inputs@.len() == 0 || marking@.len() == 0) ==> (final(sim).deadlocked
            && r.deadlocked && r.marking == marking && r.firings@.len() == 0
            && final(sim).t_in@.len() == 0 && final(sim).t_effect@.len() == 0),
        (transition_inputs@.len() > 0 && marking@.len() > 0) ==> ({
            &&& final(sim).wf_with(transition_outputs.deep_view())
            &&& final(sim).t_in == transition_inputs
            &&& r.marking@ == final(sim).state@
            &&& r.firings@.len() == transition_inputs@.len()
            &&& (!r.deadlocked ==> exists|t: int|
                0 <= t < transition_inputs@.len() && #[trigger] fire_step(
                    as_ints(marking@),
                    transition_inputs.deep_view(),
                    transition_outputs.deep_view(),
                    t,
                    as_ints(final(sim).state@),
                ) && r.firings@[t] == 1 && (forall|u: int|
                    0 <= u < transition_inputs@.len() && u != t ==> r.firings@[u] == 0))
            &&& (r.deadlocked ==> final(sim).state@ == marking@ && simulation_stuck(
                final(sim).state@,
                transition_inputs.deep_view(),
                final(sim).t_effect.deep_view(),
            ))
        }),
{
    if transition_inputs.len() == 0 {
        return handle_no_transitions(sim, marking);
    }
    if transition_inputs[0].len() == 0 {
        proof {
            assert(transition_inputs.deep_view()[0].len() == marking@.len());
            assert(transition_inputs.deep_view()[0] =~= transition_inputs@[0]@);
        }
        return handle_no_transitions(sim, marking);
    }
    proof {
        assert(transition_inputs.deep_view()[0].len() == marking@.len());
        assert(transition_inputs.deep_view()[0] =~= transition_inputs@[0]@);
        assert(marking@.len() > 0);
    }
    let ghost m0 = marking@;
    let ghost tin = transition_inputs.deep_view();
    let ghost tout = transition_outputs.deep_view();
    let new_state = get_fresh_simulator_state(marking, transition_inputs, transition_outputs);
    let ghost fresh = new_state;
    *sim = new_state;
    let r = simulate_step(sim);
    proof {
        assert(fresh.wf_with(tout));
        assert(sim.wf_with(tout));
        if !r.deadlocked {
            assert(stepped_to(fresh, final(sim).state@, r.firings@));
            let t = choose|t: int|
                0 <= t < fresh.t_in@.len() && #[trigger] fire_step(
                    as_ints(fresh.state@),
                    fresh.t_in.deep_view(),
                    tout,
                    t,
                    as_ints(final(sim).state@),
                ) && r.firings@[t] == 1 && (forall|u: int|
                    0 <= u < fresh.t_in@.len() && u != t ==> r.firings@[u] == 0);
            assert(fire_step(as_ints(m0), tin, tout, t, as_ints(final(sim).state@)));
        }
    }
    r
}

/// Resume the stored session: a deadlocked session answers at once with its
/// stored marking; otherwise the budgeted simulation continues from it.
pub fn continue_simulation(sim: &mut SimulatorState, update_time: u128) -> (r: SimulationResponse)
    requires
        old(sim).session_ok(),
    ensures
        final(sim).session_ok(),
        r.deadlocked == final(sim).deadlocked,
        old(sim).deadlocked ==> (*final(sim) == *old(sim) && r.deadlocked && r.marking@
            == old(sim).state@ && r.firings@.len() == 0),
        !old(sim).deadlocked ==> ({
            &&& final(sim).wf()
            &&& (forall|t_out: Seq<Seq<i16>>| #[trigger] old(sim).wf_with(t_out)
                ==> final(sim).wf_with(t_out))
            &&& final(sim).t_in == old(sim).t_in
            &&& r.marking@ == final(sim).state@
            &&& r.firings@.len() == old(sim).t_in@.len()
            &&& ran_to(*old(sim), final(sim).state@, r.firings@)
            &&& (r.deadlocked ==> simulation_stuck(
                final(sim).state@,
                old(sim).t_in.deep_view(),
                old(sim).t_effect.deep_view(),
            ))
        }),
{
    if sim.deadlocked {
        let m = copy_marking(&sim.state);
        return SimulationResponse::new(m, Vec::new(), true);
    }
    simulate(sim, update_time)
}

/// The recorded run satisfies `ran_to` for every output matrix consistent
/// with the starting session (there is exactly one).
proof fn lemma_simulate_post(
    s0: SimulatorState,
    tout: Seq<Seq<i16>>,
    fs: Seq<int>,
    m_final: Seq<i16>,
    firings: Seq<i16>,
)
    requires
        s0.wf_with(tout),
        fires_to(as_ints(s0.state@), s0.t_in.deep_view(), tout, fs, as_ints(m_final)),
        firings.len() == s0.t_in@.len(),
        forall|t: int| 0 <= t < s0.t_in@.len() ==> #[trigger] firings[t] == count_of(fs, t),
    ensures
        ran_to(s0, m_final, firings),
{
    assert forall|t_out: Seq<Seq<i16>>| #[trigger] s0.wf_with(t_out)
        implies exists|fs2: Seq<int>|
        #[trigger] fires_to(
            as_ints(s0.state@),
            s0.t_in.deep_view(),
            t_out,
            fs2,
            as_ints(m_final),
        ) && (forall|t: int| 0 <= t < s0.t_in@.len() ==> firings[t] == count_of(fs2, t)) by {
        lemma_wf_with_unique(s0, t_out, tout);
        assert(fires_to(as_ints(s0.state@), s0.t_in.deep_view(), t_out, fs, as_ints(m_final)));
    }
}

} // verus!
