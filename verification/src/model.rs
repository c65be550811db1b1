use vstd::prelude::*;

verus! {

/// How a property is expected to behave over the reachable states.
///
/// `Always(p)` holds iff `p` is true of every reachable state; a failing
/// state is a counterexample. `Sometimes(p)` holds iff some reachable state
/// satisfies `p`; such a state is an example. `Eventually(p)` holds iff every
/// maximal path from an initial state contains a state satisfying `p`; a
/// terminal path with no such state is a counterexample.
#[derive(Clone, Copy, PartialEq, Eq, Structural, Debug)]
pub enum Expectation {
    Always,
    Eventually,
    Sometimes,
}

/// A named property with an expectation. The predicate itself is evaluated
/// through [`Model::prop_holds`] at this property's index in
/// [`Model::properties`].
#[derive(Clone)]
pub struct Property {
    pub name: String,
    pub expectation: Expectation,
}

/// A transition system together with the properties to check against it.
///
/// Every executable method is pinned to a spec function, so the engine's
/// contracts can treat the model as a mathematical transition system: the
/// spec functions are the system, the executable methods compute it. In
/// particular `spec_fp` makes the fingerprint a deterministic function of
/// the state, which the engine's deduplication depends on.
pub trait Model: Sized {
    type State;
    type Action;

    /// The initial states, in order.
    open spec fn spec_inits(&self) -> Seq<Self::State> {
        arbitrary()
    }

    /// The actions enabled in a state, in order (duplicates are tolerated).
    open spec fn spec_actions(&self, s: Self::State) -> Seq<Self::Action> {
        arbitrary()
    }

    /// The deterministic successor; `None` means the action is in fact
    /// disabled and is dropped silently.
    open spec fn spec_next(&self, s: Self::State, a: Self::Action) -> Option<Self::State> {
        arbitrary()
    }

    /// A soft cut-off: states outside the boundary are recorded but not
    /// expanded further.
    open spec fn spec_boundary(&self, s: Self::State) -> bool {
        arbitrary()
    }

    /// The 64-bit fingerprint identity of a state, used for deduplication
    /// and path encoding. Distinct states may collide; the engine then
    /// treats them as equal.
    open spec fn spec_fp(&self, s: Self::State) -> u64 {
        arbitrary()
    }

    /// Name and expectation of each property, by index.
    open spec fn spec_props(&self) -> Seq<(Seq<char>, Expectation)> {
        arbitrary()
    }

    /// Whether property `i`'s predicate holds of a state.
    open spec fn spec_holds(&self, i: int, s: Self::State) -> bool {
        arbitrary()
    }

    fn init_states(&self) -> (r: Vec<Self::State>)
        ensures
            r@ == self.spec_inits(),
    ;

    fn actions(&self, s: &Self::State, acts: &mut Vec<Self::Action>)
        ensures
            final(acts)@ == old(acts)@ + self.spec_actions(*s),
    ;

    fn next_state(&self, s: &Self::State, a: &Self::Action) -> (r: Option<Self::State>)
        ensures
            r == self.spec_next(*s, *a),
    ;

    fn within_boundary(&self, s: &Self::State) -> (r: bool)
        ensures
            r == self.spec_boundary(*s),
    ;

    fn fingerprint(&self, s: &Self::State) -> (r: u64)
        ensures
            r == self.spec_fp(*s),
    ;

    fn properties(&self) -> (r: Vec<Property>)
        ensures
            r@.len() == self.spec_props().len(),
            forall|i: int|
                0 <= i < r@.len() ==> (#[trigger] r@[i]).name@ == self.spec_props()[i].0
                    && r@[i].expectation == self.spec_props()[i].1,
    ;

    fn prop_holds(&self, i: usize, s: &Self::State) -> (r: bool)
        requires
            i < self.spec_props().len(),
        ensures
            r == self.spec_holds(i as int, *s),
    ;

    fn clone_state(&self, s: &Self::State) -> (r: Self::State)
        ensures
            r == *s,
    ;

    fn clone_action(&self, a: &Self::Action) -> (r: Self::Action)
        ensures
            r == *a,
    ;

    fn state_eq(&self, a: &Self::State, b: &Self::State) -> (r: bool)
        ensures
            r == (*a == *b),
    ;

    fn action_eq(&self, a: &Self::Action, b: &Self::Action) -> (r: bool)
        ensures
            r == (*a == *b),
    ;
}

/// The fingerprint function never maps two distinct states to one identity.
/// Deduplication by fingerprint is then exact, and replaying a fingerprint
/// sequence recovers the very states the engine saw.
pub open spec fn fp_injective<M: Model>(m: M) -> bool {
    forall|s1: M::State, s2: M::State|
        #[trigger] m.spec_fp(s1) == #[trigger] m.spec_fp(s2) ==> s1 == s2
}

/// The `(action, successor)` pairs enabled in `s` from index `i` of the
/// action list on, with disabled actions dropped.
pub open spec fn spec_next_steps_from<M: Model>(m: M, s: M::State, i: int) -> Seq<
    (M::Action, M::State),
>
    decreases m.spec_actions(s).len() - i,
{
    if i < 0 || i >= m.spec_actions(s).len() {
        Seq::empty()
    } else {
        let rest = spec_next_steps_from(m, s, i + 1);
        match m.spec_next(s, m.spec_actions(s)[i]) {
            Some(s2) => seq![(m.spec_actions(s)[i], s2)] + rest,
            None => rest,
        }
    }
}

/// All `(action, successor)` pairs enabled in `s`, in action-list order.
pub open spec fn spec_next_steps<M: Model>(m: M, s: M::State) -> Seq<(M::Action, M::State)> {
    spec_next_steps_from(m, s, 0)
}

/// Every listed step is a real transition of the model.
pub proof fn lemma_next_steps_sound<M: Model>(m: M, s: M::State, i: int)
    ensures
        forall|j: int|
            0 <= j < spec_next_steps_from(m, s, i).len() ==> m.spec_next(
                s,
                (#[trigger] spec_next_steps_from(m, s, i)[j]).0,
            ) == Some(spec_next_steps_from(m, s, i)[j].1),
    decreases m.spec_actions(s).len() - i,
{
    if i < 0 || i >= m.spec_actions(s).len() {
    } else {
        lemma_next_steps_sound(m, s, i + 1);
    }
}

/// Every enabled transition of the model is listed among the steps.
pub proof fn lemma_next_steps_complete<M: Model>(m: M, s: M::State, i: int, k: int, s2: M::State)
    requires
        i <= k < m.spec_actions(s).len(),
        0 <= i,
        m.spec_next(s, m.spec_actions(s)[k]) == Some(s2),
    ensures
        exists|j: int|
            0 <= j < spec_next_steps_from(m, s, i).len() && #[trigger] spec_next_steps_from(
                m,
                s,
                i,
            )[j] == (m.spec_actions(s)[k], s2),
    decreases m.spec_actions(s).len() - i,
{
    let steps = spec_next_steps_from(m, s, i);
    if k == i {
        assert(steps[0] == (m.spec_actions(s)[i], s2));
    } else {
        lemma_next_steps_complete(m, s, i + 1, k, s2);
        let rest = spec_next_steps_from(m, s, i + 1);
        let j = choose|j: int| 0 <= j < rest.len() && #[trigger] rest[j] == (m.spec_actions(s)[k], s2);
        match m.spec_next(s, m.spec_actions(s)[i]) {
            Some(_) => {
                assert(steps[j + 1] == (m.spec_actions(s)[k], s2));
            },
            None => {
                assert(steps[j] == (m.spec_actions(s)[k], s2));
            },
        }
    }
}

/// Computes [`spec_next_steps`]: the enabled `(action, successor)` pairs of
/// a state, in action-list order.
pub fn next_steps<M: Model>(m: &M, s: &M::State) -> (r: Vec<(M::Action, M::State)>)
    ensures
        r@ == spec_next_steps(*m, *s),
{
    let mut acts: Vec<M::Action> = Vec::new();
    m.actions(s, &mut acts);
    let mut r: Vec<(M::Action, M::State)> = Vec::new();
    let mut k: usize = 0;
    while k < acts.len()
        invariant
            acts@ == m.spec_actions(*s),
            k <= acts.len(),
            spec_next_steps(*m, *s) == r@ + spec_next_steps_from(*m, *s, k as int),
        decreases acts.len() - k,
    {
        proof {
            assert(spec_next_steps_from(*m, *s, k as int) == (match m.spec_next(
                *s,
                m.spec_actions(*s)[k as int],
            ) {
                Some(s2) => seq![(m.spec_actions(*s)[k as int], s2)] + spec_next_steps_from(
                    *m,
                    *s,
                    k as int + 1,
                ),
                None => spec_next_steps_from(*m, *s, k as int + 1),
            }));
        }
        match m.next_state(s, &acts[k]) {
            Some(s2) => {
                r.push((m.clone_action(&acts[k]), s2));
                proof {
                    assert(spec_next_steps(*m, *s) =~= r@ + spec_next_steps_from(
                        *m,
                        *s,
                        k as int + 1,
                    ));
                }
            },
            None => {},
        }
        k += 1;
    }
    proof {
        assert(spec_next_steps_from(*m, *s, acts@.len() as int) =~= Seq::<
            (M::Action, M::State),
        >::empty());
        assert(r@ =~= spec_next_steps(*m, *s));
    }
    r
}

/// The model can move from `s` to `s2` by some enabled action.
pub open spec fn has_edge<M: Model>(m: M, s: M::State, s2: M::State) -> bool {
    exists|k: int|
        0 <= k < m.spec_actions(s).len() && m.spec_next(s, #[trigger] m.spec_actions(s)[k])
            == Some(s2)
}

/// A finite run of the model: it starts in an initial state and each step is
/// an enabled transition.
pub open spec fn is_trace<M: Model>(m: M, t: Seq<M::State>) -> bool {
    t.len() > 0 && m.spec_inits().contains(t[0]) && forall|j: int|
        0 <= j < t.len() - 1 ==> exists|k: int|
            0 <= k < m.spec_actions(#[trigger] t[j]).len() && m.spec_next(
                t[j],
                m.spec_actions(t[j])[k],
            ) == Some(t[j + 1])
}

/// A state is reachable if some trace ends in it.
pub open spec fn reachable<M: Model>(m: M, s: M::State) -> bool {
    exists|t: Seq<M::State>| is_trace(m, t) && t.last() == s
}

} // verus!
