use std::collections::HashMap;
use vstd::pervasive::VecAdditionalExecFns;
use vstd::prelude::*;

use crate::ebits::{ebits_clone, ebits_contains, ebits_insert, ebits_new, ebits_remove, id_set_elems};
use crate::model::{has_edge, Expectation, Model, Property};
use crate::path::{
    chain_wf, first_init_index, first_step_index, lemma_first_init_props, lemma_first_step_props,
    lemma_from_actions_len, lemma_replay_from_len, spec_from_actions, spec_replay,
    spec_replay_from, spec_replayable, spec_replayable_from, Path,
};
use crate::model::{lemma_next_steps_complete, spec_next_steps};
use crate::model::{fp_injective, is_trace, reachable};

verus! {

/// The traversal strategy of a checker: a shared FIFO frontier expanded
/// level by level, or a LIFO stack carrying the current path prefix.
#[derive(Clone, Copy, PartialEq, Eq, Structural, Debug)]
pub enum Strategy {
    Bfs,
    Dfs,
}

/// All entries are recorded discoveries.
pub open spec fn all_some<T>(s: Seq<Option<T>>) -> bool {
    forall|i: int| 0 <= i < s.len() ==> (#[trigger] s[i]) is Some
}

/// First property index whose name is `name`, or `-1`.
pub open spec fn first_prop_index<M: Model>(m: M, name: Seq<char>, i: int) -> int
    decreases m.spec_props().len() - i,
{
    if i < 0 || i >= m.spec_props().len() {
        -1
    } else if m.spec_props()[i].0 == name {
        i
    } else {
        first_prop_index(m, name, i + 1)
    }
}

pub proof fn lemma_first_prop_props<M: Model>(m: M, name: Seq<char>, i: int)
    requires
        0 <= i,
    ensures
        ({
            let r = first_prop_index(m, name, i);
            (r == -1 && forall|j: int|
                i <= j < m.spec_props().len() ==> (#[trigger] m.spec_props()[j]).0 != name) || (i
                <= r < m.spec_props().len() && m.spec_props()[r].0 == name && forall|j: int|
                i <= j < r ==> (#[trigger] m.spec_props()[j]).0 != name)
        }),
    decreases m.spec_props().len() - i,
{
    if i >= m.spec_props().len() {
    } else if m.spec_props()[i].0 == name {
    } else {
        lemma_first_prop_props(m, name, i + 1);
    }
}

/// Whether two string slices hold the same characters.
fn str_eq(a: &str, b: &str) -> (r: bool)
    ensures
        r == (a@ == b@),
{
    let sa: String = a.to_owned();
    let sb: String = b.to_owned();
    sa == sb
}


/// The action sequence, taken from `init`, itself witnesses property `i`:
/// it replays to a path whose final state fails the predicate (`Always`),
/// satisfies it (`Sometimes`), or which is terminal and never satisfies it
/// (`Eventually`).
pub open spec fn spec_witnesses<M: Model>(m: M, i: int, init: M::State, acts: Seq<M::Action>) -> bool {
    spec_from_actions(m, init, acts) matches Some(p) && match m.spec_props()[i].1 {
        Expectation::Always => !m.spec_holds(i, p.last().0),
        Expectation::Sometimes => m.spec_holds(i, p.last().0),
        Expectation::Eventually => (forall|q: int|
            0 <= q < p.len() ==> !m.spec_holds(i, (#[trigger] p[q]).0)) && m.spec_actions(
            p.last().0,
        ).len() == 0,
    }
}

struct Frame<M: Model> {
    state: M::State,
    fp: u64,
    ebits: id_set::IdSet,
}

/// A checker builder: holds the model and the exploration settings — a
/// worker-thread count and a soft target for the number of generated
/// states — until a checker is spawned over them. No per-state callback
/// hook is offered: observers read the checker's state through its
/// accessors instead.
pub struct CheckerBuilder<M: Model> {
    model: M,
    target_generated_count: Option<usize>,
    thread_count: usize,
}

impl<M: Model> CheckerBuilder<M> {
    pub closed spec fn spec_model(&self) -> M {
        self.model
    }

    pub closed spec fn spec_target(&self) -> Option<usize> {
        self.target_generated_count
    }

    pub closed spec fn spec_threads(&self) -> usize {
        self.thread_count
    }

    pub fn new(model: M) -> (r: Self)
        ensures
            r.spec_model() == model,
            r.spec_target() is None,
            r.spec_threads() == 1,
    {
        CheckerBuilder { model, target_generated_count: None, thread_count: 1 }
    }

    /// Sets the number of states the checker should aim to generate; it may
    /// exceed this number but never generates fewer if more exist. Zero
    /// clears the target.
    pub fn target_generated_count(self, target_generated_count: usize) -> (r: Self)
        ensures
            r.spec_model() == self.spec_model(),
            r.spec_threads() == self.spec_threads(),
            r.spec_target() == (if target_generated_count == 0 {
                None::<usize>
            } else {
                Some(target_generated_count)
            }),
    {
        let t = if target_generated_count == 0 {
            None
        } else {
            Some(target_generated_count)
        };
        CheckerBuilder { target_generated_count: t, ..self }
    }

    /// Sets the number of worker threads the checker may use. Exploration
    /// here is deterministic, so the setting does not change what is found.
    pub fn threads(self, thread_count: usize) -> (r: Self)
        ensures
            r.spec_model() == self.spec_model(),
            r.spec_target() == self.spec_target(),
            r.spec_threads() == thread_count,
    {
        CheckerBuilder { thread_count, ..self }
    }

    /// Spawns a breadth-first search checker: more memory than depth-first,
    /// but discoveries come with shortest paths.
    pub fn spawn_bfs(self) -> (r: Checker<M>)
        ensures
            r.wf(),
            r.m() == self.spec_model(),
            r.target() == self.spec_target(),
            r.strat() == Strategy::Bfs,
            r.discs().len() == r.m().spec_props().len(),
            forall|i: int| 0 <= i < r.discs().len() ==> (#[trigger] r.discs()[i]) is None,
    {
        self.spawn(Strategy::Bfs)
    }

    /// Spawns a depth-first search checker: dramatically less memory than
    /// breadth-first at the cost of longer discovery paths.
    pub fn spawn_dfs(self) -> (r: Checker<M>)
        ensures
            r.wf(),
            r.m() == self.spec_model(),
            r.target() == self.spec_target(),
            r.strat() == Strategy::Dfs,
            r.discs().len() == r.m().spec_props().len(),
            forall|i: int| 0 <= i < r.discs().len() ==> (#[trigger] r.discs()[i]) is None,
    {
        self.spawn(Strategy::Dfs)
    }

    fn spawn(self, strategy: Strategy) -> (r: Checker<M>)
        ensures
            r.wf(),
            r.m() == self.spec_model(),
            r.target() == self.spec_target(),
            r.strat() == strategy,
            r.discs().len() == r.m().spec_props().len(),
            forall|i: int| 0 <= i < r.discs().len() ==> (#[trigger] r.discs()[i]) is None,
    {
        let CheckerBuilder { model, target_generated_count, thread_count } = self;
        let props = model.properties();
        let nprops = props.len();
        let mut discoveries: Vec<Option<Vec<u64>>> = Vec::new();
        let mut i: usize = 0;
        while i < nprops
            invariant
                discoveries@.len() == i,
                i <= nprops,
                forall|q: int| 0 <= q < i ==> (#[trigger] discoveries@[q]) is None,
            decreases nprops - i,
        {
            discoveries.push(None);
            i += 1;
        }
        let mut eb0 = ebits_new();
        let mut i2: usize = 0;
        while i2 < nprops
            invariant
                i2 <= nprops,
                nprops == props@.len(),
            decreases nprops - i2,
        {
            if props[i2].expectation == Expectation::Eventually {
                ebits_insert(&mut eb0, i2);
            }
            i2 += 1;
        }
        let mut visited: HashMap<u64, Option<u64>> = HashMap::new();
        let mut frontier: Vec<Frame<M>> = Vec::new();
        let ghost mut repr: Map<u64, M::State> = Map::empty();
        let ghost mut depth: Map<u64, nat> = Map::empty();
        let mut inits = model.init_states();
        let ghost orig = inits@;
        let mut k: usize = 0;
        let n = inits.len();
        while k < n
            invariant
                n == orig.len(),
                orig == model.spec_inits(),
                inits@ == orig.skip(k as int),
                k <= n,
                forall|f: u64| #[trigger] visited@.contains_key(f) ==> repr.dom().contains(f)
                    && depth.dom().contains(f) && model.spec_fp(repr[f]) == f
                    && visited@[f] is None && model.spec_inits().contains(repr[f]) && depth[f]
                    == 0,
                forall|j: int|
                    0 <= j < frontier@.len() ==> visited@.contains_key(
                        (#[trigger] frontier@[j]).fp,
                    ) && repr[frontier@[j].fp] == frontier@[j].state,
                forall|q: int|
                    0 <= q < k ==> visited@.contains_key(model.spec_fp(#[trigger] orig[q])),
                forall|f: u64|
                    #[trigger] visited@.contains_key(f) ==> exists|j: int|
                        0 <= j < frontier@.len() && (#[trigger] frontier@[j]).fp == f,
            decreases n - k,
        {
            let s = inits.remove(0);
            proof {
                assert(s == orig[k as int]);
                assert(inits@ =~= orig.skip(k as int + 1));
            }
            let f = model.fingerprint(&s);
            if !visited.contains_key(&f) {
                proof {
                    repr = repr.insert(f, s);
                    depth = depth.insert(f, 0);
                }
                let ghost vmA = visited@;
                let ghost frA = frontier@;
                visited.insert(f, None);
                frontier.push(Frame { state: s, fp: f, ebits: ebits_clone(&eb0) });
                proof {
                    assert forall|f3: u64| #[trigger] visited@.contains_key(f3) implies exists|j: int|
                        0 <= j < frontier@.len() && (#[trigger] frontier@[j]).fp == f3 by {
                        if f3 == f {
                            assert(frontier@.last().fp == f);
                        } else {
                            assert(vmA.contains_key(f3));
                            let j = choose|j: int|
                                0 <= j < frA.len() && (#[trigger] frA[j]).fp == f3;
                            assert(frontier@[j].fp == f3);
                        }
                    }
                }
            }
            k += 1;
        }
        let ghost vmF = visited@;
        let ghost frF = frontier@;
        let c = Checker {
            model,
            strategy,
            props,
            target: target_generated_count,
            thread_count,
            visited,
            frontier,
            discoveries,
            repr: Ghost(repr),
            depth: Ghost(depth),
            expanded: Ghost(Set::empty()),
        };
        proof {
            assert forall|f: u64| #[trigger] c.visited@.contains_key(f) implies c.in_frontier(
                f,
            ) by {
                assert(vmF.contains_key(f));
                let j = choose|j: int| 0 <= j < frF.len() && (#[trigger] frF[j]).fp == f;
                assert(c.frontier@[j].fp == f);
            }
            assert(c.cover_wf(None));
            assert forall|i3: int| 0 <= i3 < c.discs().len() implies (#[trigger] c.discs()[i3]) is None by {
                assert(c.discoveries@[i3] is None);
            }
        }
        c
    }
}

/// A model checker over a spawned exploration. Exploration is performed by
/// [`Checker::join`]; the visited set, the frontier and the discovery store
/// persist in this value.
pub struct Checker<M: Model> {
    model: M,
    strategy: Strategy,
    props: Vec<Property>,
    target: Option<usize>,
    thread_count: usize,
    visited: HashMap<u64, Option<u64>>,
    frontier: Vec<Frame<M>>,
    discoveries: Vec<Option<Vec<u64>>>,
    repr: Ghost<Map<u64, M::State>>,
    depth: Ghost<Map<u64, nat>>,
    expanded: Ghost<Set<u64>>,
}

impl<M: Model> Checker<M> {
    /// The model under check.
    pub closed spec fn m(&self) -> M {
        self.model
    }

    /// The traversal strategy.
    pub closed spec fn strat(&self) -> Strategy {
        self.strategy
    }

    /// The visited map: fingerprint to parent fingerprint, `None` for roots.
    pub closed spec fn visited_map(&self) -> Map<u64, Option<u64>> {
        self.visited@
    }

    /// The state each visited fingerprint stands for.
    pub closed spec fn repr_map(&self) -> Map<u64, M::State> {
        self.repr@
    }

    /// The recorded discovery fingerprint path of each property, by index.
    pub closed spec fn discs(&self) -> Seq<Option<Seq<u64>>> {
        self.discoveries@.map_values(
            |d: Option<Vec<u64>>|
                match d {
                    Some(v) => Some(v@),
                    None => None,
                },
        )
    }

    /// The target generated count, if one was set.
    pub closed spec fn target(&self) -> Option<usize> {
        self.target
    }

    /// How many frontier items await expansion.
    pub closed spec fn frontier_len(&self) -> nat {
        self.frontier@.len()
    }

    /// Whether some frontier item carries this fingerprint.
    pub closed spec fn in_frontier(&self, f: u64) -> bool {
        exists|j: int| 0 <= j < self.frontier@.len() && (#[trigger] self.frontier@[j]).fp == f
    }

    /// The fingerprints whose states have been expanded: their properties
    /// were evaluated and all their successors recorded.
    pub closed spec fn expanded_set(&self) -> Set<u64> {
        self.expanded@
    }

    /// The core invariant. Every visited fingerprint stands for a state
    /// with that fingerprint; a root is an initial state; any other entry's
    /// parent is visited, one transition away, and one level shallower; the
    /// frontier holds visited states; and each recorded discovery is a
    /// parent chain whose last state refutes (for `Always`) or satisfies
    /// (for `Sometimes`) its property.
    pub closed spec fn base_wf(&self) -> bool {
        &&& self.props@.len() == self.m().spec_props().len()
        &&& forall|i: int|
            0 <= i < self.props@.len() ==> (#[trigger] self.props@[i]).name@
                == self.m().spec_props()[i].0 && self.props@[i].expectation
                == self.m().spec_props()[i].1
        &&& self.discoveries@.len() == self.props@.len()
        &&& forall|f: u64|
            #[trigger] self.visited@.contains_key(f) ==> self.repr@.dom().contains(f)
                && self.depth@.dom().contains(f) && self.m().spec_fp(self.repr@[f]) == f
        &&& forall|f: u64|
            #[trigger] self.visited@.contains_key(f) ==> match self.visited@[f] {
                None => self.m().spec_inits().contains(self.repr@[f]) && self.depth@[f] == 0,
                Some(p) => self.visited@.contains_key(p) && self.depth@[f] == self.depth@[p] + 1
                    && has_edge(self.m(), self.repr@[p], self.repr@[f]),
            }
        &&& forall|j: int|
            0 <= j < self.frontier@.len() ==> self.visited@.contains_key(
                (#[trigger] self.frontier@[j]).fp,
            ) && self.repr@[self.frontier@[j].fp] == self.frontier@[j].state
        &&& forall|i: int|
            0 <= i < self.discoveries@.len() ==> match #[trigger] self.discoveries@[i] {
                Some(v) => chain_wf(self.visited@, v@) && (self.m().spec_props()[i].1
                    == Expectation::Always ==> !self.m().spec_holds(i, self.repr@[v@.last()])) && (
                self.m().spec_props()[i].1 == Expectation::Sometimes ==> self.m().spec_holds(
                    i,
                    self.repr@[v@.last()],
                )) && (self.m().spec_props()[i].1 == Expectation::Eventually ==> (
                self.m().spec_actions(self.repr@[v@.last()]).len() == 0
                    || !self.m().spec_boundary(self.repr@[v@.last()]))),
                None => true,
            }
    }

    /// The exploration-progress invariant, with `hole` possibly exempt from
    /// coverage: every initial state's fingerprint is visited; expanded
    /// fingerprints are visited, their successors are all visited, and any
    /// `Sometimes` property satisfied at an expanded state has a discovery;
    /// and every visited fingerprint except the hole is expanded, still in
    /// the frontier, out of boundary, or moot because every property
    /// already has a discovery.
    pub closed spec fn cover_wf(&self, hole: Option<u64>) -> bool {
        &&& forall|q: int|
            0 <= q < self.m().spec_inits().len() ==> self.visited@.contains_key(
                self.m().spec_fp(#[trigger] self.m().spec_inits()[q]),
            )
        &&& forall|f: u64| #[trigger] self.expanded@.contains(f) ==> self.visited@.contains_key(f)
        &&& forall|f: u64, k: int|
            self.expanded@.contains(f) && 0 <= k < self.m().spec_actions(self.repr@[f]).len()
                ==> match #[trigger] self.m().spec_next(
                self.repr@[f],
                self.m().spec_actions(self.repr@[f])[k],
            ) {
                Some(s2) => self.visited@.contains_key(self.m().spec_fp(s2)),
                None => true,
            }
        &&& forall|f: u64, i: int|
            #![trigger self.expanded@.contains(f), self.m().spec_holds(i, self.repr@[f])]
            self.expanded@.contains(f) && 0 <= i < self.m().spec_props().len()
                && self.m().spec_props()[i].1 == Expectation::Sometimes && self.m().spec_holds(
                i,
                self.repr@[f],
            ) ==> self.discoveries@[i] is Some
        &&& forall|f: u64|
            #[trigger] self.visited@.contains_key(f) && (hole matches Some(h) ==> f != h)
                ==> self.expanded@.contains(f) || self.in_frontier(f) || !self.m().spec_boundary(
                self.repr@[f],
            ) || all_some(self.discs())
    }

    /// The checker's invariant: the core invariant together with full
    /// exploration progress.
    pub closed spec fn wf(&self) -> bool {
        self.base_wf() && self.cover_wf(None)
    }

    /// Whether exploration has stopped: every property has a discovery, or
    /// the frontier is exhausted, or the target generated count is reached.
    pub open spec fn spec_is_done(&self) -> bool {
        all_some(self.discs()) || self.frontier_len() == 0 || (self.target() matches Some(t)
            && self.visited_map().dom().len() >= t)
    }

    /// A reference to this checker's model.
    pub fn model(&self) -> (r: &M)
        ensures
            *r == self.m(),
    {
        &self.model
    }

    /// How many states have been generated (the size of the visited map).
    pub fn generated_count(&self) -> (r: usize)
        ensures
            r == self.visited_map().dom().len(),
    {
        self.visited.len()
    }

    fn all_discovered(&self) -> (r: bool)
        ensures
            r == all_some(self.discs()),
    {
        let mut i: usize = 0;
        let n = self.discoveries.len();
        while i < n
            invariant
                n == self.discoveries@.len(),
                i <= n,
                forall|q: int| 0 <= q < i ==> (#[trigger] self.discoveries@[q]) is Some,
            decreases n - i,
        {
            if self.discoveries[i].is_none() {
                proof {
                    assert(self.discs()[i as int] is None);
                }
                return false;
            }
            i += 1;
        }
        proof {
            assert forall|q: int| 0 <= q < self.discs().len() implies (#[trigger] self.discs()[q]) is Some by {
                assert(self.discoveries@[q] is Some);
            }
        }
        true
    }

    /// Whether checking is finished.
    pub fn is_done(&self) -> (r: bool)
        ensures
            r == self.spec_is_done(),
    {
        if self.all_discovered() {
            return true;
        }
        if self.frontier.len() == 0 {
            return true;
        }
        match self.target {
            Some(t) => self.visited.len() >= t,
            None => false,
        }
    }

    /// Walks parent links from `f` back to a root and returns the chain in
    /// root-to-`f` order.
    #[verifier::rlimit(60)]
    fn trace_to(&self, f: u64) -> (r: Vec<u64>)
        requires
            self.base_wf(),
            self.visited_map().contains_key(f),
        ensures
            chain_wf(self.visited_map(), r@),
            r@.len() >= 1,
            r@.last() == f,
    {
        let mut rev: Vec<u64> = Vec::new();
        let mut cur: u64 = f;
        rev.push(f);
        loop
            invariant_except_break
                self.base_wf(),
                self.visited@.contains_key(cur),
                rev@.len() >= 1,
                rev@[0] == f,
                rev@.last() == cur,
                forall|j: int| 0 <= j < rev@.len() ==> self.visited@.contains_key(#[trigger] rev@[j]),
                forall|j: int| 0 <= j < rev@.len() - 1 ==> self.visited@[#[trigger] rev@[j]] == Some(
                    rev@[j + 1],
                ),
            ensures
                rev@.len() >= 1,
                rev@[0] == f,
                forall|j: int| 0 <= j < rev@.len() ==> self.visited@.contains_key(#[trigger] rev@[j]),
                forall|j: int| 0 <= j < rev@.len() - 1 ==> self.visited@[#[trigger] rev@[j]] == Some(
                    rev@[j + 1],
                ),
                self.visited@[rev@.last()] is None,
            decreases self.depth@[cur],
        {
            let parent = *self.visited.get(&cur).unwrap();
            match parent {
                None => {
                    break ;
                },
                Some(p) => {
                    rev.push(p);
                    cur = p;
                },
            }
        }
        let mut out: Vec<u64> = Vec::new();
        let nrev = rev.len();
        let mut t: usize = nrev;
        while t > 0
            invariant
                nrev == rev@.len(),
                t <= nrev,
                out@.len() == nrev - t,
                forall|j: int| 0 <= j < out@.len() ==> #[trigger] out@[j] == rev@[nrev - 1 - j],
            decreases t,
        {
            t -= 1;
            let b: u64 = rev[t];
            out.push(b);
        }
        proof {
            assert(out@.last() == rev@[0]);
            assert(out@[0] == rev@[nrev - 1]);
            assert(self.visited@[out@[0]] is None);
            assert forall|j: int| 0 < j < out@.len() implies self.visited@[#[trigger] out@[j]]
                == Some(out@[j - 1]) by {
                assert(out@[j] == rev@[nrev - 1 - j]);
                assert(out@[j - 1] == rev@[nrev - j]);
                assert(self.visited@[rev@[nrev - 1 - j]] == Some(rev@[nrev - j]));
            }
        }
        out
    }

    /// Records `f`'s parent chain as property `i`'s discovery, unless one is
    /// already recorded (first discovery wins).
    fn record_discovery(&mut self, i: usize, f: u64)
        requires
            old(self).base_wf(),
            old(self).visited_map().contains_key(f),
            i < old(self).props@.len(),
            old(self).m().spec_props()[i as int].1 == Expectation::Always ==> !old(
                self,
            ).m().spec_holds(i as int, old(self).repr_map()[f]),
            old(self).m().spec_props()[i as int].1 == Expectation::Sometimes ==> old(
                self,
            ).m().spec_holds(i as int, old(self).repr_map()[f]),
            old(self).m().spec_props()[i as int].1 == Expectation::Eventually ==> (old(
                self,
            ).m().spec_actions(old(self).repr_map()[f]).len() == 0 || !old(
                self,
            ).m().spec_boundary(old(self).repr_map()[f])),
        ensures
            final(self).base_wf(),
            final(self).model == old(self).model,
            final(self).strategy == old(self).strategy,
            final(self).props == old(self).props,
            final(self).target == old(self).target,
            final(self).thread_count == old(self).thread_count,
            final(self).visited == old(self).visited,
            final(self).frontier == old(self).frontier,
            final(self).repr == old(self).repr,
            final(self).depth == old(self).depth,
            final(self).expanded == old(self).expanded,
            final(self).discoveries@.len() == old(self).discoveries@.len(),
            forall|j: int|
                0 <= j < old(self).discoveries@.len() && j != i ==> final(self).discoveries@[j]
                    == old(self).discoveries@[j],
            forall|j: int|
                0 <= j < old(self).discoveries@.len() && (#[trigger] old(
                    self,
                ).discoveries@[j]) is Some ==> final(self).discoveries@[j] == old(
                    self,
                ).discoveries@[j],
            final(self).discoveries@[i as int] is Some,
            old(self).discoveries@[i as int] is None
                ==> final(self).discoveries@[i as int].unwrap()@.last() == f,
    {
        if self.discoveries[i].is_some() {
            return ;
        }
        let chain = self.trace_to(f);
        proof {
            assert(chain@.last() == f);
        }
        self.discoveries.set(i, Some(chain));
    }

    /// Records a counterexample ending at `f` for exactly the `Eventually`
    /// properties whose bit is still set and which have no discovery yet.
    fn record_eventually(&mut self, eb: &id_set::IdSet, f: u64)
        requires
            old(self).base_wf(),
            old(self).visited_map().contains_key(f),
            old(self).m().spec_actions(old(self).repr_map()[f]).len() == 0 || !old(
                self,
            ).m().spec_boundary(old(self).repr_map()[f]),
        ensures
            final(self).base_wf(),
            final(self).model == old(self).model,
            final(self).strategy == old(self).strategy,
            final(self).props == old(self).props,
            final(self).target == old(self).target,
            final(self).thread_count == old(self).thread_count,
            final(self).visited == old(self).visited,
            final(self).frontier == old(self).frontier,
            final(self).repr == old(self).repr,
            final(self).depth == old(self).depth,
            final(self).expanded == old(self).expanded,
            final(self).discoveries@.len() == old(self).discoveries@.len(),
            forall|j: int|
                0 <= j < old(self).discoveries@.len() && (#[trigger] old(
                    self,
                ).discoveries@[j]) is Some ==> final(self).discoveries@[j] == old(
                    self,
                ).discoveries@[j],
            forall|j: int|
                0 <= j < old(self).discoveries@.len()
                    ==> ((#[trigger] final(self).discoveries@[j]) is Some
                    <==> (old(self).discoveries@[j] is Some
                    || (old(self).m().spec_props()[j].1 == Expectation::Eventually
                    && id_set_elems(*eb).contains(j as usize)))),
            forall|j: int|
                0 <= j < old(self).discoveries@.len() && old(self).discoveries@[j] is None && (
                #[trigger] final(self).discoveries@[j]) is Some
                    ==> final(self).discoveries@[j].unwrap()@.last() == f,
    {
        let n = self.props.len();
        let mut i: usize = 0;
        while i < n
            invariant
                self.base_wf(),
                n == self.props@.len(),
                i <= n,
                self.visited_map().contains_key(f),
                old(self).m().spec_actions(old(self).repr_map()[f]).len() == 0 || !old(
                    self,
                ).m().spec_boundary(old(self).repr_map()[f]),
                self.model == old(self).model,
                self.strategy == old(self).strategy,
                self.props == old(self).props,
                self.target == old(self).target,
                self.thread_count == old(self).thread_count,
                self.visited == old(self).visited,
                self.frontier == old(self).frontier,
                self.repr == old(self).repr,
                self.depth == old(self).depth,
                self.expanded == old(self).expanded,
                self.discoveries@.len() == old(self).discoveries@.len(),
                forall|j: int|
                    0 <= j < old(self).discoveries@.len() && (#[trigger] old(
                        self,
                    ).discoveries@[j]) is Some ==> self.discoveries@[j] == old(
                        self,
                    ).discoveries@[j],
                forall|j: int|
                    0 <= j < i ==> ((#[trigger] self.discoveries@[j]) is Some <==> (old(
                        self,
                    ).discoveries@[j] is Some || (old(self).m().spec_props()[j].1
                        == Expectation::Eventually && id_set_elems(*eb).contains(j as usize)))),
                forall|j: int|
                    i <= j < old(self).discoveries@.len() ==> self.discoveries@[j] == old(
                        self,
                    ).discoveries@[j],
                forall|j: int|
                    0 <= j < i && old(self).discoveries@[j] is None && (
                    #[trigger] self.discoveries@[j]) is Some ==> self.discoveries@[j].unwrap()@.last() == f,
            decreases n - i,
        {
            if self.props[i].expectation == Expectation::Eventually && ebits_contains(eb, i)
                && self.discoveries[i].is_none() {
                proof {
                    assert(self.m() == old(self).m());
                    assert(self.repr@[f] == old(self).repr@[f]);
                    assert(self.m().spec_actions(self.repr@[f]).len() == 0
                        || !self.m().spec_boundary(self.repr@[f]));
                }
                self.record_discovery(i, f);
            }
            i += 1;
        }
    }


    /// Recording discoveries (never un-recording) preserves the progress
    /// invariant: its only mention of the discovery store is positive.
    proof fn lemma_cover_mono(a: Checker<M>, b: Checker<M>, hole: Option<u64>)
        requires
            a.cover_wf(hole),
            b.model == a.model,
            b.visited == a.visited,
            b.frontier == a.frontier,
            b.repr == a.repr,
            b.expanded == a.expanded,
            a.discoveries@.len() == a.m().spec_props().len(),
            b.discoveries@.len() == a.discoveries@.len(),
            forall|j: int|
                0 <= j < a.discoveries@.len() && (#[trigger] a.discoveries@[j]) is Some
                    ==> b.discoveries@[j] == a.discoveries@[j],
        ensures
            b.cover_wf(hole),
    {
        assert forall|q: int|
            0 <= q < b.m().spec_inits().len() implies b.visited@.contains_key(
            b.m().spec_fp(#[trigger] b.m().spec_inits()[q]),
        ) by {
            assert(a.visited@.contains_key(a.m().spec_fp(a.m().spec_inits()[q])));
        }
        assert forall|f: u64| #[trigger] b.expanded@.contains(f) implies b.visited@.contains_key(
            f,
        ) by {
            assert(a.expanded@.contains(f));
        }
        assert forall|f: u64, i: int|
            #![trigger b.expanded@.contains(f), b.m().spec_holds(i, b.repr@[f])]
            b.expanded@.contains(f) && 0 <= i < b.m().spec_props().len() && b.m().spec_props()[i].1
                == Expectation::Sometimes && b.m().spec_holds(i, b.repr@[f]) implies b.discoveries@[
        i] is Some by {
            assert(a.expanded@.contains(f));
            assert(a.m().spec_holds(i, a.repr@[f]));
            assert(a.discoveries@[i] is Some);
            assert(b.discoveries@[i] == a.discoveries@[i]);
        }
        assert forall|f: u64, k: int|
            b.expanded@.contains(f) && 0 <= k < b.m().spec_actions(b.repr@[f]).len()
                implies match #[trigger] b.m().spec_next(
                b.repr@[f],
                b.m().spec_actions(b.repr@[f])[k],
            ) {
                Some(s2) => b.visited@.contains_key(b.m().spec_fp(s2)),
                None => true,
            } by {
            assert(a.expanded@.contains(f));
            assert(match a.m().spec_next(a.repr@[f], a.m().spec_actions(a.repr@[f])[k]) {
                Some(s2) => a.visited@.contains_key(a.m().spec_fp(s2)),
                None => true,
            });
        }
        assert forall|f: u64|
            #[trigger] b.visited@.contains_key(f) && (hole matches Some(h) ==> f != h)
                implies b.expanded@.contains(f) || b.in_frontier(f) || !b.m().spec_boundary(
                b.repr@[f],
            ) || all_some(b.discs()) by {
            assert(a.visited@.contains_key(f));
            if a.in_frontier(f) {
                let j = choose|j: int|
                    0 <= j < a.frontier@.len() && (#[trigger] a.frontier@[j]).fp == f;
                assert(b.frontier@[j].fp == f);
            } else if all_some(a.discs()) {
                assert forall|q: int| 0 <= q < b.discs().len() implies (#[trigger] b.discs()[
                q]) is Some by {
                    assert(a.discs()[q] is Some);
                    assert(a.discoveries@[q] is Some);
                    assert(b.discoveries@[q] == a.discoveries@[q]);
                }
            }
        }
    }

    /// Expands one frontier item: evaluates the properties at its state,
    /// fires discoveries, and generates its successors. Properties are
    /// evaluated when a state is expanded, not when it is generated, so a
    /// state that is generated but never expanded — beyond the boundary, or
    /// left on the frontier by a target count or an early stop — is never
    /// property-evaluated.
    #[verifier::rlimit(100)]
    fn step(&mut self)
        requires
            old(self).wf(),
            old(self).frontier@.len() > 0,
        ensures
            final(self).wf(),
            final(self).model == old(self).model,
            final(self).strategy == old(self).strategy,
            final(self).props == old(self).props,
            final(self).target == old(self).target,
            final(self).thread_count == old(self).thread_count,
            final(self).discoveries@.len() == old(self).discoveries@.len(),
            forall|j: int|
                0 <= j < old(self).discoveries@.len() && (#[trigger] old(
                    self,
                ).discoveries@[j]) is Some ==> final(self).discoveries@[j] == old(
                    self,
                ).discoveries@[j],
            forall|f: u64|
                #[trigger] old(self).visited@.contains_key(f) ==> final(self).visited@.contains_key(
                    f,
                ) && final(self).visited@[f] == old(self).visited@[f],
            final(self).visited@.dom().len() >= old(self).visited@.dom().len(),
            final(self).visited@.dom().len() > old(self).visited@.dom().len()
                || (final(self).visited@ == old(self).visited@
                && final(self).frontier@.len() < old(self).frontier@.len()),
    {
        let frame = if self.strategy == Strategy::Bfs {
            self.frontier.remove(0)
        } else {
            self.frontier.pop().unwrap()
        };
        let Frame { state: fstate, fp: ffp, ebits: mut eb } = frame;
        let ghost fr1 = self.frontier@;
        proof {
            assert(fr1.len() == old(self).frontier@.len() - 1);
            assert(self.visited@.contains_key(ffp));
            assert(self.repr@[ffp] == fstate);
            assert forall|f: u64| old(self).in_frontier(f) && f != ffp implies self.in_frontier(
                f,
            ) by {
                let j = choose|j: int|
                    0 <= j < old(self).frontier@.len() && (#[trigger] old(self).frontier@[j]).fp
                        == f;
                if old(self).strategy == Strategy::Bfs {
                    assert(j != 0);
                    assert(self.frontier@[j - 1] == old(self).frontier@[j]);
                } else {
                    assert(j != old(self).frontier@.len() - 1);
                    assert(self.frontier@[j] == old(self).frontier@[j]);
                }
            }
            assert(self.cover_wf(Some(ffp)));
        }
        let n = self.props.len();
        // Clear the bit of every `Eventually` property satisfied here.
        let mut i: usize = 0;
        while i < n
            invariant
                self.base_wf(),
                n == self.props@.len(),
                i <= n,
            decreases n - i,
        {
            if self.props[i].expectation == Expectation::Eventually {
                if self.model.prop_holds(i, &fstate) {
                    ebits_remove(&mut eb, i);
                }
            }
            i += 1;
        }
        // Evaluate `Always` and `Sometimes` properties at this state.
        let mut i2: usize = 0;
        while i2 < n
            invariant
                self.base_wf(),
                self.cover_wf(Some(ffp)),
                n == self.props@.len(),
                i2 <= n,
                self.visited@.contains_key(ffp),
                self.repr@[ffp] == fstate,
                self.expanded@ == old(self).expanded@,
                self.frontier@ == fr1,
                forall|q: int|
                    0 <= q < i2 && self.m().spec_props()[q].1 == Expectation::Sometimes
                        && self.m().spec_holds(q, fstate) ==> (#[trigger] self.discoveries@[
                    q]) is Some,
                self.model == old(self).model,
                self.strategy == old(self).strategy,
                self.props == old(self).props,
                self.target == old(self).target,
                self.thread_count == old(self).thread_count,
                self.visited == old(self).visited,
                self.repr == old(self).repr,
                self.depth == old(self).depth,
                self.discoveries@.len() == old(self).discoveries@.len(),
                forall|j: int|
                    0 <= j < old(self).discoveries@.len() && (#[trigger] old(
                        self,
                    ).discoveries@[j]) is Some ==> self.discoveries@[j] == old(
                        self,
                    ).discoveries@[j],
            decreases n - i2,
        {
            let ghost pre = *self;
            if self.discoveries[i2].is_none() {
                let e = self.props[i2].expectation;
                if e == Expectation::Always {
                    if !self.model.prop_holds(i2, &fstate) {
                        self.record_discovery(i2, ffp);
                    }
                } else if e == Expectation::Sometimes {
                    if self.model.prop_holds(i2, &fstate) {
                        self.record_discovery(i2, ffp);
                    }
                }
            }
            proof {
                Self::lemma_cover_mono(pre, *self, Some(ffp));
            }
            i2 += 1;
        }
        // Short-circuit: once every property has a discovery, stop
        // expanding.
        if self.all_discovered() {
            proof {
                assert(self.cover_wf(None));
            }
            return ;
        }
        self.expand(fstate, ffp, eb);
    }

    /// Generates the successors of an expanded state: new fingerprints are
    /// recorded with this state as parent and enqueued when within the
    /// boundary; a cut-off or terminal successor closes the path for
    /// `Eventually` tracking.
    #[verifier::rlimit(100)]
    fn expand(&mut self, fstate: M::State, ffp: u64, eb: id_set::IdSet)
        requires
            old(self).base_wf(),
            old(self).cover_wf(Some(ffp)),
            old(self).visited@.contains_key(ffp),
            old(self).repr@[ffp] == fstate,
            forall|q: int|
                0 <= q < old(self).m().spec_props().len() && old(self).m().spec_props()[q].1
                    == Expectation::Sometimes && old(self).m().spec_holds(q, fstate) ==> (
                #[trigger] old(self).discoveries@[q]) is Some,
        ensures
            final(self).wf(),
            final(self).model == old(self).model,
            final(self).strategy == old(self).strategy,
            final(self).props == old(self).props,
            final(self).target == old(self).target,
            final(self).thread_count == old(self).thread_count,
            final(self).discoveries@.len() == old(self).discoveries@.len(),
            forall|j: int|
                0 <= j < old(self).discoveries@.len() && (#[trigger] old(
                    self,
                ).discoveries@[j]) is Some ==> final(self).discoveries@[j] == old(
                    self,
                ).discoveries@[j],
            forall|f: u64|
                #[trigger] old(self).visited@.contains_key(f) ==> final(self).visited@.contains_key(
                    f,
                ) && final(self).visited@[f] == old(self).visited@[f],
            final(self).visited@.dom().len() >= old(self).visited@.dom().len(),
            final(self).visited@.dom().len() > old(self).visited@.dom().len()
                || (final(self).visited@ == old(self).visited@
                && final(self).frontier@ == old(self).frontier@),
    {
        let n = self.props.len();
        let mut acts: Vec<M::Action> = Vec::new();
        self.model.actions(&fstate, &mut acts);
        if acts.len() == 0 {
            proof {
                self.expanded@ = self.expanded@.insert(ffp);
                assert(self.m().spec_actions(self.repr@[ffp]).len() == 0);
                assert forall|f: u64, k2: int|
                    self.expanded@.contains(f) && 0 <= k2 < self.m().spec_actions(
                        self.repr@[f],
                    ).len() implies match #[trigger] self.m().spec_next(
                    self.repr@[f],
                    self.m().spec_actions(self.repr@[f])[k2],
                ) {
                    Some(sx) => self.visited@.contains_key(self.m().spec_fp(sx)),
                    None => true,
                } by {
                    if f != ffp {
                        assert(old(self).expanded@.contains(f));
                        assert(match old(self).m().spec_next(
                            old(self).repr@[f],
                            old(self).m().spec_actions(old(self).repr@[f])[k2],
                        ) {
                            Some(sx) => old(self).visited@.contains_key(
                                old(self).m().spec_fp(sx),
                            ),
                            None => true,
                        });
                    }
                }
                assert forall|f: u64, i6: int|
                    #![trigger self.expanded@.contains(f), self.m().spec_holds(i6, self.repr@[f])]
                    self.expanded@.contains(f) && 0 <= i6 < self.m().spec_props().len()
                        && self.m().spec_props()[i6].1 == Expectation::Sometimes
                        && self.m().spec_holds(i6, self.repr@[f]) implies self.discoveries@[
                i6] is Some by {
                    if f == ffp {
                        assert(self.repr@[ffp] == fstate);
                        assert(self.m().spec_holds(i6, fstate));
                    } else {
                        assert(old(self).expanded@.contains(f));
                        assert(old(self).m().spec_holds(i6, old(self).repr@[f]));
                    }
                }
                assert forall|q: int|
                    0 <= q < self.m().spec_inits().len() implies self.visited@.contains_key(
                    self.m().spec_fp(#[trigger] self.m().spec_inits()[q]),
                ) by {
                    assert(old(self).visited@.contains_key(
                        old(self).m().spec_fp(old(self).m().spec_inits()[q]),
                    ));
                }
                assert forall|f: u64|
                    #[trigger] self.expanded@.contains(f) implies self.visited@.contains_key(
                    f,
                ) by {
                    if f != ffp {
                        assert(old(self).expanded@.contains(f));
                    }
                }
                assert forall|f: u64|
                    #[trigger] self.visited@.contains_key(f) implies self.expanded@.contains(f)
                    || self.in_frontier(f) || !self.m().spec_boundary(self.repr@[f])
                    || all_some(self.discs()) by {
                    if f != ffp {
                        assert(old(self).visited@.contains_key(f));
                        if old(self).in_frontier(f) {
                            let j = choose|j: int|
                                0 <= j < old(self).frontier@.len() && (#[trigger] old(
                                    self,
                                ).frontier@[j]).fp == f;
                            assert(self.frontier@[j].fp == f);
                        }
                    }
                }
                assert(self.cover_wf(None));
            }
            // Terminal state: any `Eventually` bit still set is a
            // counterexample ending here.
            let ghost pre = *self;
            self.record_eventually(&eb, ffp);
            proof {
                Self::lemma_cover_mono(pre, *self, None);
            }
            return ;
        }
        let nacts = acts.len();
        let mut k: usize = 0;
        while k < nacts
            invariant
                self.base_wf(),
                self.cover_wf(Some(ffp)),
                nacts == acts@.len(),
                acts@ == self.m().spec_actions(fstate),
                k <= nacts,
                self.visited@.contains_key(ffp),
                self.repr@[ffp] == fstate,
                self.expanded@ == old(self).expanded@,
                n == self.props@.len(),
                forall|q: int|
                    0 <= q < self.m().spec_props().len() && self.m().spec_props()[q].1
                        == Expectation::Sometimes && self.m().spec_holds(q, fstate) ==> (
                    #[trigger] self.discoveries@[q]) is Some,
                forall|k2: int|
                    0 <= k2 < k ==> match self.m().spec_next(fstate, #[trigger] acts@[k2]) {
                        Some(s2) => self.visited@.contains_key(self.m().spec_fp(s2)),
                        None => true,
                    },
                self.model == old(self).model,
                self.strategy == old(self).strategy,
                self.props == old(self).props,
                self.target == old(self).target,
                self.thread_count == old(self).thread_count,
                self.discoveries@.len() == old(self).discoveries@.len(),
                forall|j: int|
                    0 <= j < old(self).discoveries@.len() && (#[trigger] old(
                        self,
                    ).discoveries@[j]) is Some ==> self.discoveries@[j] == old(
                        self,
                    ).discoveries@[j],
                forall|f: u64|
                    #[trigger] old(self).visited@.contains_key(f) ==> self.visited@.contains_key(f)
                        && self.visited@[f] == old(self).visited@[f],
                self.visited@.dom().len() >= old(self).visited@.dom().len(),
                self.visited@.dom().len() > old(self).visited@.dom().len() || (self.visited@
                    == old(self).visited@ && self.frontier@ == old(self).frontier@),
            decreases nacts - k,
        {
            let ghost selfA = *self;
            let next = self.model.next_state(&fstate, &acts[k]);
            match next {
                None => {},
                Some(s2) => {
                    let f2 = self.model.fingerprint(&s2);
                    if !self.visited.contains_key(&f2) {
                        let ghost dpar = self.depth@[ffp];
                        let ghost repr0 = self.repr@;
                        proof {
                            self.repr@ = self.repr@.insert(f2, s2);
                            self.depth@ = self.depth@.insert(f2, dpar + 1);
                        }
                        let ghost vm0 = self.visited@;
                        self.visited.insert(f2, Some(ffp));
                        proof {
                            assert(self.visited@ == vm0.insert(f2, Some(ffp)));
                            assert(has_edge(self.m(), self.repr@[ffp], s2)) by {
                                assert(self.m().spec_next(
                                    fstate,
                                    self.m().spec_actions(fstate)[k as int],
                                ) == Some(s2));
                                assert(self.repr@[ffp] == fstate);
                            }
                            assert forall|i4: int|
                                0 <= i4 < self.discoveries@.len() && (#[trigger] self.discoveries@[i4]) is Some implies chain_wf(
                                self.visited@,
                                self.discoveries@[i4].unwrap()@,
                            ) && self.repr@[self.discoveries@[i4].unwrap()@.last()]
                                == repr0[self.discoveries@[i4].unwrap()@.last()] by {
                                let v = self.discoveries@[i4].unwrap();
                                assert(chain_wf(vm0, v@));
                                assert(forall|q: int|
                                    0 <= q < v@.len() ==> vm0.contains_key(#[trigger] v@[q]));
                                assert(!vm0.contains_key(f2));
                                assert(forall|q: int|
                                    0 <= q < v@.len() ==> self.visited@.contains_key(
                                        #[trigger] v@[q],
                                    ) && self.visited@[v@[q]] == vm0[v@[q]]);
                            }
                            vstd::set_lib::lemma_len_subset(
                                vm0.dom(),
                                self.visited@.dom(),
                            );
                            assert(self.visited@.dom() =~= vm0.dom().insert(f2));
                            assert(self.visited@.dom().len() == vm0.dom().len() + 1);
                            assert(self.m().spec_fp(s2) == f2);
                            assert forall|q: int|
                                0 <= q < self.m().spec_inits().len() implies self.visited@.contains_key(
                                self.m().spec_fp(#[trigger] self.m().spec_inits()[q]),
                            ) by {
                                assert(vm0.contains_key(
                                    selfA.m().spec_fp(selfA.m().spec_inits()[q]),
                                ));
                            }
                            assert forall|f: u64|
                                #[trigger] self.expanded@.contains(f) implies self.visited@.contains_key(
                                f,
                            ) && self.repr@[f] == repr0[f] by {
                                assert(selfA.expanded@.contains(f));
                                assert(vm0.contains_key(f));
                                assert(f != f2);
                            }
                            assert forall|f: u64, k2: int|
                                self.expanded@.contains(f) && 0 <= k2 < self.m().spec_actions(
                                    self.repr@[f],
                                ).len() implies match #[trigger] self.m().spec_next(
                                self.repr@[f],
                                self.m().spec_actions(self.repr@[f])[k2],
                            ) {
                                Some(sx) => self.visited@.contains_key(self.m().spec_fp(sx)),
                                None => true,
                            } by {
                                assert(self.repr@[f] == repr0[f]);
                                assert(match selfA.m().spec_next(
                                    selfA.repr@[f],
                                    selfA.m().spec_actions(selfA.repr@[f])[k2],
                                ) {
                                    Some(sx) => vm0.contains_key(selfA.m().spec_fp(sx)),
                                    None => true,
                                });
                            }
                            assert forall|f: u64, i6: int|
                                #![trigger self.expanded@.contains(f), self.m().spec_holds(i6, self.repr@[f])]
                                self.expanded@.contains(f) && 0 <= i6
                                    < self.m().spec_props().len() && self.m().spec_props()[i6].1
                                    == Expectation::Sometimes && self.m().spec_holds(
                                    i6,
                                    self.repr@[f],
                                ) implies self.discoveries@[i6] is Some by {
                                assert(self.repr@[f] == repr0[f]);
                                assert(selfA.m().spec_holds(i6, selfA.repr@[f]));
                            }
                        }
                        if self.model.within_boundary(&s2) {
                            let eb2 = ebits_clone(&eb);
                            self.frontier.push(Frame { state: s2, fp: f2, ebits: eb2 });
                            proof {
                                assert forall|f: u64|
                                    #[trigger] self.visited@.contains_key(f) && f != ffp implies self.expanded@.contains(
                                    f,
                                ) || self.in_frontier(f) || !self.m().spec_boundary(self.repr@[f])
                                    || all_some(self.discs()) by {
                                    if f == f2 {
                                        assert(self.frontier@.last().fp == f2);
                                        assert(self.in_frontier(f2));
                                    } else {
                                        assert(vm0.contains_key(f));
                                        assert(self.repr@[f] == repr0[f]);
                                        if selfA.in_frontier(f) {
                                            let j = choose|j: int|
                                                0 <= j < selfA.frontier@.len() && (
                                                #[trigger] selfA.frontier@[j]).fp == f;
                                            assert(self.frontier@[j].fp == f);
                                        }
                                    }
                                }
                                assert(self.cover_wf(Some(ffp)));
                            }
                        } else {
                            // Out of boundary: recorded but not expanded;
                            // any `Eventually` bit still unsatisfied at the
                            // cut-off state is a counterexample ending here.
                            let mut eb2 = ebits_clone(&eb);
                            let mut i5: usize = 0;
                            while i5 < n
                                invariant
                                    self.base_wf(),
                                    n == self.props@.len(),
                                    i5 <= n,
                                decreases n - i5,
                            {
                                if self.props[i5].expectation == Expectation::Eventually {
                                    if self.model.prop_holds(i5, &s2) {
                                        ebits_remove(&mut eb2, i5);
                                    }
                                }
                                i5 += 1;
                            }
                            proof {
                                assert(!self.m().spec_boundary(self.repr@[f2]));
                                assert forall|f: u64|
                                    #[trigger] self.visited@.contains_key(f) && f != ffp implies self.expanded@.contains(
                                    f,
                                ) || self.in_frontier(f) || !self.m().spec_boundary(self.repr@[f])
                                    || all_some(self.discs()) by {
                                    if f == f2 {
                                    } else {
                                        assert(vm0.contains_key(f));
                                        assert(self.repr@[f] == repr0[f]);
                                        if selfA.in_frontier(f) {
                                            let j = choose|j: int|
                                                0 <= j < selfA.frontier@.len() && (
                                                #[trigger] selfA.frontier@[j]).fp == f;
                                            assert(self.frontier@[j].fp == f);
                                        }
                                    }
                                }
                                assert(self.cover_wf(Some(ffp)));
                            }
                            let ghost preb = *self;
                            self.record_eventually(&eb2, f2);
                            proof {
                                Self::lemma_cover_mono(preb, *self, Some(ffp));
                                assert forall|q: int|
                                    0 <= q < self.m().spec_props().len()
                                        && self.m().spec_props()[q].1 == Expectation::Sometimes
                                        && self.m().spec_holds(q, fstate) implies (
                                #[trigger] self.discoveries@[q]) is Some by {
                                    assert(preb.discoveries@[q] is Some);
                                }
                            }
                        }
                    }
                },
            }
            k += 1;
        }
        let ghost pre2 = *self;
        proof {
            self.expanded@ = self.expanded@.insert(ffp);
            assert(acts@ == self.m().spec_actions(self.repr@[ffp]));
            assert forall|q: int|
                0 <= q < self.m().spec_inits().len() implies self.visited@.contains_key(
                self.m().spec_fp(#[trigger] self.m().spec_inits()[q]),
            ) by {
                assert(pre2.visited@.contains_key(
                    pre2.m().spec_fp(pre2.m().spec_inits()[q]),
                ));
            }
            assert forall|f: u64|
                #[trigger] self.expanded@.contains(f) implies self.visited@.contains_key(f) by {
                if f != ffp {
                    assert(pre2.expanded@.contains(f));
                }
            }
            assert forall|f: u64|
                #[trigger] self.visited@.contains_key(f) implies self.expanded@.contains(f)
                || self.in_frontier(f) || !self.m().spec_boundary(self.repr@[f]) || all_some(
                self.discs(),
            ) by {
                if f != ffp {
                    assert(pre2.visited@.contains_key(f));
                    if pre2.in_frontier(f) {
                        let j = choose|j: int|
                            0 <= j < pre2.frontier@.len() && (#[trigger] pre2.frontier@[j]).fp
                                == f;
                        assert(self.frontier@[j].fp == f);
                    }
                }
            }
            assert forall|f: u64, k2: int|
                self.expanded@.contains(f) && 0 <= k2 < self.m().spec_actions(
                    self.repr@[f],
                ).len() implies match #[trigger] self.m().spec_next(
                self.repr@[f],
                self.m().spec_actions(self.repr@[f])[k2],
            ) {
                Some(sx) => self.visited@.contains_key(self.m().spec_fp(sx)),
                None => true,
            } by {
                if f == ffp {
                    assert(self.repr@[ffp] == fstate);
                    assert(match self.m().spec_next(fstate, acts@[k2]) {
                        Some(sx) => self.visited@.contains_key(self.m().spec_fp(sx)),
                        None => true,
                    });
                }
            }
            assert forall|f: u64, i6: int|
                #![trigger self.expanded@.contains(f), self.m().spec_holds(i6, self.repr@[f])]
                self.expanded@.contains(f) && 0 <= i6 < self.m().spec_props().len()
                    && self.m().spec_props()[i6].1 == Expectation::Sometimes
                    && self.m().spec_holds(i6, self.repr@[f]) implies self.discoveries@[
            i6] is Some by {
                if f == ffp {
                    assert(self.repr@[ffp] == fstate);
                    assert(self.m().spec_holds(i6, fstate));
                }
            }
            assert(self.base_wf());
            assert(self.cover_wf(None));
        }
    }


    /// Every suffix of a recorded parent chain can be replayed: each link is
    /// a transition whose successor's fingerprint is the next chain entry,
    /// and with an injective fingerprint the replayed states are the
    /// recorded ones.
    proof fn lemma_chain_suffix(&self, v: Seq<u64>, j: int)
        requires
            self.wf(),
            fp_injective(self.m()),
            chain_wf(self.visited_map(), v),
            0 <= j < v.len(),
        ensures
            spec_replayable_from(self.m(), self.repr@[v[j]], v.skip(j + 1)),
            spec_replay_from(self.m(), self.repr@[v[j]], v.skip(j + 1)).last().0 == self.repr@[v.last()],
        decreases v.len() - j,
    {
        let m = self.m();
        let s = self.repr@[v[j]];
        if j == v.len() - 1 {
            assert(v.skip(j + 1) =~= Seq::<u64>::empty());
            assert(spec_replay_from(m, s, Seq::<u64>::empty()) == seq![(s, None::<M::Action>)]);
        } else {
            let f2 = v[j + 1];
            assert(self.visited@[f2] == Some(v[j]));
            assert(has_edge(m, self.repr@[v[j]], self.repr@[f2]));
            assert(m.spec_fp(self.repr@[f2]) == f2);
            let k = choose|k: int|
                0 <= k < m.spec_actions(s).len() && m.spec_next(s, #[trigger] m.spec_actions(s)[k])
                    == Some(self.repr@[f2]);
            lemma_next_steps_complete(m, s, 0, k, self.repr@[f2]);
            let steps = spec_next_steps(m, s);
            let w = choose|w: int|
                0 <= w < steps.len() && #[trigger] steps[w] == (m.spec_actions(s)[k], self.repr@[f2]);
            assert(m.spec_fp(steps[w].1) == f2);
            lemma_first_step_props(m, steps, f2, 0);
            let fidx = first_step_index(m, steps, f2, 0);
            assert(0 <= fidx < steps.len() && m.spec_fp(steps[fidx].1) == f2);
            assert(steps[fidx].1 == self.repr@[f2]);
            self.lemma_chain_suffix(v, j + 1);
            assert(v.skip(j + 1)[0] == f2);
            assert(v.skip(j + 1).drop_first() =~= v.skip(j + 2));
            lemma_replay_from_len(m, steps[fidx].1, v.skip(j + 2));
            assert(spec_replay_from(m, s, v.skip(j + 1)) == seq![(s, Some(steps[fidx].0))]
                + spec_replay_from(m, self.repr@[f2], v.skip(j + 2)));
        }
    }

    /// A recorded parent chain is a replayable fingerprint path, and with an
    /// injective fingerprint its replay ends at the recorded last state.
    pub proof fn lemma_chain_replayable(&self, v: Seq<u64>)
        requires
            self.wf(),
            fp_injective(self.m()),
            chain_wf(self.visited_map(), v),
        ensures
            spec_replayable(self.m(), v),
            spec_replay(self.m(), v).last().0 == self.repr_map()[v.last()],
    {
        let m = self.m();
        assert(self.visited@[v[0]] is None);
        assert(m.spec_inits().contains(self.repr@[v[0]]));
        assert(m.spec_fp(self.repr@[v[0]]) == v[0]);
        let w = choose|w: int| 0 <= w < m.spec_inits().len() && m.spec_inits()[w] == self.repr@[v[0]];
        lemma_first_init_props(m, v[0], 0);
        let gidx = first_init_index(m, v[0], 0);
        assert(m.spec_fp(m.spec_inits()[w]) == v[0]);
        assert(0 <= gidx < m.spec_inits().len() && m.spec_fp(m.spec_inits()[gidx]) == v[0]);
        assert(m.spec_inits()[gidx] == self.repr@[v[0]]);
        self.lemma_chain_suffix(v, 0);
        assert(v.skip(1) =~= v.drop_first());
    }

    /// For every visited fingerprint, either it is the fingerprint of an
    /// initial state recorded with no parent, or its recorded parent is
    /// itself visited and the model has a transition from the parent's state
    /// to this one's.
    pub proof fn lemma_visited_parent(&self, f: u64)
        requires
            self.wf(),
            self.visited_map().contains_key(f),
        ensures
            self.m().spec_fp(self.repr_map()[f]) == f,
            self.visited_map()[f] is None ==> self.m().spec_inits().contains(self.repr_map()[f]),
            self.visited_map()[f] matches Some(p) ==> self.visited_map().contains_key(p)
                && has_edge(self.m(), self.repr_map()[p], self.repr_map()[f])
                && self.m().spec_fp(self.repr_map()[p]) == p,
    {
    }

    /// Every recorded discovery of an `Always` property is a replayable
    /// path whose last state fails the property's predicate; of a
    /// `Sometimes` property, one whose last state satisfies it.
    pub proof fn lemma_discovery_witness(&self, i: int)
        requires
            self.wf(),
            fp_injective(self.m()),
            0 <= i < self.discs().len(),
            self.discs()[i] is Some,
        ensures
            spec_replayable(self.m(), self.discs()[i].unwrap()),
            self.m().spec_props()[i].1 == Expectation::Always ==> !self.m().spec_holds(
                i,
                spec_replay(self.m(), self.discs()[i].unwrap()).last().0,
            ),
            self.m().spec_props()[i].1 == Expectation::Sometimes ==> self.m().spec_holds(
                i,
                spec_replay(self.m(), self.discs()[i].unwrap()).last().0,
            ),
    {
        let v = self.discs()[i].unwrap();
        assert(self.discoveries@[i] is Some && self.discoveries@[i].unwrap()@ == v);
        assert(chain_wf(self.visited@, v));
        self.lemma_chain_replayable(v);
    }


    /// Along any trace, every state's fingerprint has been visited and
    /// expanded once exploration stopped with an empty frontier, a trivial
    /// boundary and no property short-circuit, and with an injective
    /// fingerprint the visited entry stands for that very state.
    proof fn lemma_trace_covered(&self, t: Seq<M::State>, j: int)
        requires
            self.wf(),
            fp_injective(self.m()),
            self.frontier@.len() == 0,
            !all_some(self.discs()),
            forall|x: M::State| self.m().spec_boundary(x),
            is_trace(self.m(), t),
            0 <= j < t.len(),
        ensures
            self.visited@.contains_key(self.m().spec_fp(t[j])),
            self.repr@[self.m().spec_fp(t[j])] == t[j],
            self.expanded@.contains(self.m().spec_fp(t[j])),
        decreases j,
    {
        let m = self.m();
        let f = m.spec_fp(t[j]);
        if j == 0 {
            assert(m.spec_inits().contains(t[0]));
            let w = choose|w: int| 0 <= w < m.spec_inits().len() && m.spec_inits()[w] == t[0];
            assert(self.visited@.contains_key(m.spec_fp(m.spec_inits()[w])));
        } else {
            self.lemma_trace_covered(t, j - 1);
            let fprev = m.spec_fp(t[j - 1]);
            assert(exists|k: int|
                0 <= k < m.spec_actions(t[j - 1]).len() && m.spec_next(
                    t[j - 1],
                    #[trigger] m.spec_actions(t[j - 1])[k],
                ) == Some(t[j]));
            let k = choose|k: int|
                0 <= k < m.spec_actions(t[j - 1]).len() && m.spec_next(
                    t[j - 1],
                    #[trigger] m.spec_actions(t[j - 1])[k],
                ) == Some(t[j]);
            assert(self.repr@[fprev] == t[j - 1]);
            assert(self.expanded@.contains(fprev));
            assert(match m.spec_next(self.repr@[fprev], m.spec_actions(self.repr@[fprev])[k]) {
                Some(s2) => self.visited@.contains_key(m.spec_fp(s2)),
                None => true,
            });
            assert(self.visited@.contains_key(f));
        }
        assert(m.spec_fp(self.repr@[f]) == f);
        assert(self.repr@[f] == t[j]);
        assert(self.expanded@.contains(f) || self.in_frontier(f) || !m.spec_boundary(
            self.repr@[f],
        ) || all_some(self.discs()));
        assert(!self.in_frontier(f));
        assert(m.spec_boundary(self.repr@[f]));
        assert(self.expanded@.contains(f));
    }

    /// After exploration has stopped, with no target count and a boundary
    /// that cuts nothing off, and with an injective fingerprint: every
    /// `Sometimes` property that some reachable state satisfies has a
    /// recorded discovery.
    pub proof fn lemma_sometimes_complete(&self, i: int, s: M::State)
        requires
            self.wf(),
            self.spec_is_done(),
            self.target() is None,
            forall|x: M::State| self.m().spec_boundary(x),
            fp_injective(self.m()),
            0 <= i < self.m().spec_props().len(),
            self.m().spec_props()[i].1 == Expectation::Sometimes,
            reachable(self.m(), s),
            self.m().spec_holds(i, s),
        ensures
            self.discs()[i] is Some,
    {
        if all_some(self.discs()) {
            assert(self.discs()[i] is Some);
        } else {
            assert(self.frontier@.len() == 0);
            let t = choose|t: Seq<M::State>| is_trace(self.m(), t) && t.last() == s;
            self.lemma_trace_covered(t, t.len() - 1);
            let f = self.m().spec_fp(s);
            assert(self.expanded@.contains(f));
            assert(self.repr@[f] == s);
            assert(self.m().spec_holds(i, self.repr@[f]));
            assert(self.discoveries@[i] is Some);
            assert(self.discs()[i] is Some);
        }
    }


    /// With the frontier exhausted, a boundary that cuts nothing off and an
    /// injective fingerprint, every reachable state has been generated —
    /// unless every property already has a discovery, which stops
    /// exploration early. Together with [`Checker::spec_is_done`] after
    /// [`Checker::join`], this is the soft-bound promise of
    /// [`CheckerBuilder::target_generated_count`]: a stopped checker has
    /// either reached its target count, answered every property, or
    /// generated every reachable state.
    pub proof fn lemma_exhaustive(&self, s: M::State)
        requires
            self.wf(),
            self.frontier_len() == 0,
            forall|x: M::State| self.m().spec_boundary(x),
            fp_injective(self.m()),
            reachable(self.m(), s),
        ensures
            all_some(self.discs()) || self.visited_map().contains_key(self.m().spec_fp(s)),
    {
        if !all_some(self.discs()) {
            let t = choose|t: Seq<M::State>| is_trace(self.m(), t) && t.last() == s;
            self.lemma_trace_covered(t, t.len() - 1);
        }
    }

    /// Looks up a discovery by property name and materialises it as a
    /// concrete path by replaying the recorded fingerprints. The name must
    /// belong to a property of the model; `None` means no discovery is
    /// recorded (yet) for it.
    pub fn discovery(&self, name: &str) -> (r: Option<Path<M::State, M::Action>>)
        requires
            self.wf(),
            fp_injective(self.m()),
            first_prop_index(self.m(), name@, 0) >= 0,
        ensures
            ({
                let pi = first_prop_index(self.m(), name@, 0);
                match self.discs()[pi] {
                    Some(v) => r matches Some(p) && p@ == spec_replay(self.m(), v),
                    None => r is None,
                }
            }),
    {
        let ghost pi = first_prop_index(self.m(), name@, 0);
        let i = self.find_prop(name);
        if self.discoveries[i].is_none() {
            proof {
                assert(self.discs()[pi] is None);
            }
            return None;
        }
        let chain = self.discoveries[i].as_ref().unwrap();
        let nc = chain.len();
        let mut fps: Vec<u64> = Vec::new();
        let mut j: usize = 0;
        while j < nc
            invariant
                nc == chain@.len(),
                j <= nc,
                fps@.len() == j,
                forall|q: int| 0 <= q < j ==> #[trigger] fps@[q] == chain@[q],
            decreases nc - j,
        {
            let b: u64 = chain[j];
            fps.push(b);
            j += 1;
        }
        proof {
            assert(fps@ =~= chain@);
            assert(self.discs()[pi].unwrap() == chain@);
            self.lemma_chain_replayable(chain@);
        }
        Some(Path::from_fingerprints(&self.model, &fps))
    }

    /// The pair is a faithfully materialised discovery: some property has
    /// this name, has a recorded discovery, and the path is its replay.
    pub open spec fn disc_entry_ok(&self, e: (String, Path<M::State, M::Action>)) -> bool {
        exists|i: int|
            #![trigger self.discs()[i]]
            0 <= i < self.discs().len() && e.0@ == self.m().spec_props()[i].0 && self.discs()[
            i] is Some && e.1@ == spec_replay(self.m(), self.discs()[i].unwrap())
    }

    /// Looks up a discovery by property name; the path is the recorded one.
    /// The name must belong to a property of the model; `None` means no
    /// discovery is recorded (yet) for it.
    pub fn assert_any_discovery(&self, name: &str) -> (r: Option<Path<M::State, M::Action>>)
        requires
            self.wf(),
            fp_injective(self.m()),
            first_prop_index(self.m(), name@, 0) >= 0,
        ensures
            ({
                let pi = first_prop_index(self.m(), name@, 0);
                match self.discs()[pi] {
                    Some(v) => r matches Some(p) && p@ == spec_replay(self.m(), v),
                    None => r is None,
                }
            }),
    {
        self.discovery(name)
    }

    /// A snapshot of the discovery store: every recorded discovery,
    /// materialised as a concrete path, under its property's name.
    pub fn discoveries(&self) -> (r: Vec<(String, Path<M::State, M::Action>)>)
        requires
            self.wf(),
            fp_injective(self.m()),
        ensures
            forall|j: int| 0 <= j < r@.len() ==> self.disc_entry_ok(#[trigger] r@[j]),
            forall|i: int|
                0 <= i < self.discs().len() && (#[trigger] self.discs()[i]) is Some ==> exists|
                    j: int,
                |
                    0 <= j < r@.len() && (#[trigger] r@[j]).0@ == self.m().spec_props()[i].0,
    {
        let n = self.props.len();
        let mut r: Vec<(String, Path<M::State, M::Action>)> = Vec::new();
        let mut i: usize = 0;
        while i < n
            invariant
                self.wf(),
                fp_injective(self.m()),
                n == self.props@.len(),
                i <= n,
                forall|j: int| 0 <= j < r@.len() ==> self.disc_entry_ok(#[trigger] r@[j]),
                forall|q: int|
                    0 <= q < i && (#[trigger] self.discs()[q]) is Some ==> exists|j: int|
                        0 <= j < r@.len() && (#[trigger] r@[j]).0@ == self.m().spec_props()[q].0,
            decreases n - i,
        {
            if self.discoveries[i].is_some() {
                let chain = self.discoveries[i].as_ref().unwrap();
                let nc = chain.len();
                let mut fps: Vec<u64> = Vec::new();
                let mut j2: usize = 0;
                while j2 < nc
                    invariant
                        nc == chain@.len(),
                        j2 <= nc,
                        fps@.len() == j2,
                        forall|q: int| 0 <= q < j2 ==> #[trigger] fps@[q] == chain@[q],
                    decreases nc - j2,
                {
                    let b: u64 = chain[j2];
                    fps.push(b);
                    j2 += 1;
                }
                proof {
                    assert(fps@ =~= chain@);
                    assert(self.discs()[i as int].unwrap() == chain@);
                    self.lemma_chain_replayable(chain@);
                }
                let name = self.props[i].name.clone();
                let path = Path::from_fingerprints(&self.model, &fps);
                let ghost r0 = r@;
                r.push((name, path));
                proof {
                    assert(r@[r0.len() as int].0@ == self.m().spec_props()[i as int].0);
                    assert(r@[r0.len() as int].1@ == spec_replay(
                        self.m(),
                        self.discs()[i as int].unwrap(),
                    ));
                    assert forall|j: int| 0 <= j < r@.len() implies self.disc_entry_ok(
                        #[trigger] r@[j],
                    ) by {
                        if j < r0.len() {
                            assert(r@[j] == r0[j]);
                            assert(self.disc_entry_ok(r0[j]));
                        } else {
                            assert(0 <= i < self.discs().len() && r@[j].0@
                                == self.m().spec_props()[i as int].0 && self.discs()[
                            i as int] is Some && r@[j].1@ == spec_replay(
                                self.m(),
                                self.discs()[i as int].unwrap(),
                            ));
                        }
                    }
                    assert forall|q: int|
                        0 <= q < i + 1 && (#[trigger] self.discs()[q]) is Some implies exists|
                            j: int,
                        |
                            0 <= j < r@.len() && (#[trigger] r@[j]).0@
                                == self.m().spec_props()[q].0 by {
                        if q < i {
                            let j = choose|j: int|
                                0 <= j < r0.len() && (#[trigger] r0[j]).0@
                                    == self.m().spec_props()[q].0;
                            assert(r@[j].0@ == self.m().spec_props()[q].0);
                        } else {
                            assert(r@[r0.len() as int].0@ == self.m().spec_props()[q].0);
                        }
                    }
                }
            }
            i += 1;
        }
        r
    }

    /// Whether a named property's discovery would be an `"example"` (for
    /// `Sometimes`) or a `"counterexample"` (for `Always` and `Eventually`).
    pub fn discovery_classification(&self, name: &str) -> (r: &'static str)
        requires
            self.wf(),
            first_prop_index(self.m(), name@, 0) >= 0,
        ensures
            ({
                let pi = first_prop_index(self.m(), name@, 0);
                if self.m().spec_props()[pi].1 == Expectation::Sometimes {
                    r@ == "example"@
                } else {
                    r@ == "counterexample"@
                }
            }),
    {
        let n = self.props.len();
        proof {
            lemma_first_prop_props(self.m(), name@, 0);
        }
        let ghost pi = first_prop_index(self.m(), name@, 0);
        let mut i: usize = 0;
        loop
            invariant
                self.wf(),
                n == self.props@.len(),
                i <= pi,
                pi == first_prop_index(self.m(), name@, 0),
                0 <= pi < n,
                self.m().spec_props()[pi].0 == name@,
                forall|q: int| 0 <= q < pi ==> (#[trigger] self.m().spec_props()[q]).0 != name@,
            ensures
                0 <= i < n,
                i == pi,
            decreases pi - i,
        {
            if str_eq(self.props[i].name.as_str(), name) {
                break ;
            }
            proof {
                assert(i < pi);
            }
            i += 1;
        }
        match self.props[i].expectation {
            Expectation::Sometimes => "example",
            Expectation::Always => "counterexample",
            Expectation::Eventually => "counterexample",
        }
    }

    /// Whether every `Sometimes` property has a recorded discovery and no
    /// `Always` or `Eventually` property has one.
    pub fn assert_properties(&self) -> (r: bool)
        requires
            self.wf(),
        ensures
            r == ((forall|i: int|
                0 <= i < self.discs().len() ==> ((self.m().spec_props()[i].1
                    == Expectation::Sometimes) == (#[trigger] self.discs()[i]) is Some)) && ((
            exists|i: int|
                0 <= i < self.discs().len() && (#[trigger] self.m().spec_props()[i]).1
                    != Expectation::Sometimes) ==> self.spec_is_done())),
    {
        let done = self.is_done();
        let n = self.props.len();
        let mut i: usize = 0;
        while i < n
            invariant
                self.wf(),
                done == self.spec_is_done(),
                n == self.props@.len(),
                i <= n,
                forall|q: int|
                    0 <= q < i ==> ((self.m().spec_props()[q].1 == Expectation::Sometimes) == (
                    #[trigger] self.discs()[q]) is Some),
                forall|q: int|
                    0 <= q < i && (#[trigger] self.m().spec_props()[q]).1
                        != Expectation::Sometimes ==> self.spec_is_done(),
            decreases n - i,
        {
            let has = self.discoveries[i].is_some();
            let wants = self.props[i].expectation == Expectation::Sometimes;
            proof {
                assert(self.discs()[i as int] is Some == self.discoveries@[i as int] is Some);
            }
            if has != wants {
                return false;
            }
            // An absent discovery counts as verified absence only once
            // checking is complete.
            if !wants && !done {
                return false;
            }
            i += 1;
        }
        true
    }


    /// Whether the named property has no recorded discovery *and* checking
    /// is complete: only then is the absence a verified one rather than a
    /// not-yet.
    pub fn assert_no_discovery(&self, name: &str) -> (r: bool)
        requires
            self.wf(),
            first_prop_index(self.m(), name@, 0) >= 0,
        ensures
            r == (self.discs()[first_prop_index(self.m(), name@, 0)] is None
                && self.spec_is_done()),
    {
        let i = self.find_prop(name);
        let absent = self.discoveries[i].is_none();
        proof {
            assert(self.discs()[i as int] is Some == self.discoveries@[i as int] is Some);
        }
        absent && self.is_done()
    }

    fn find_prop(&self, name: &str) -> (r: usize)
        requires
            self.wf(),
            first_prop_index(self.m(), name@, 0) >= 0,
        ensures
            r == first_prop_index(self.m(), name@, 0),
            r < self.props@.len(),
    {
        let n = self.props.len();
        proof {
            lemma_first_prop_props(self.m(), name@, 0);
        }
        let ghost pi = first_prop_index(self.m(), name@, 0);
        let mut i: usize = 0;
        loop
            invariant
                self.wf(),
                n == self.props@.len(),
                i <= pi,
                pi == first_prop_index(self.m(), name@, 0),
                0 <= pi < n,
                self.m().spec_props()[pi].0 == name@,
                forall|q: int| 0 <= q < pi ==> (#[trigger] self.m().spec_props()[q]).0 != name@,
            ensures
                0 <= i < n,
                i == pi,
            decreases pi - i,
        {
            if str_eq(self.props[i].name.as_str(), name) {
                break ;
            }
            proof {
                assert(i < pi);
            }
            i += 1;
        }
        i
    }

    /// Whether the given action sequence, taken from some initial state,
    /// itself witnesses the named property's recorded discovery: a failing
    /// final state for `Always`, a satisfying one for `Sometimes`, and a
    /// terminal path with no satisfying state for `Eventually`.
    pub fn assert_discovery(&self, name: &str, actions: &Vec<M::Action>) -> (r: bool)
        requires
            self.wf(),
            first_prop_index(self.m(), name@, 0) >= 0,
        ensures
            ({
                let pi = first_prop_index(self.m(), name@, 0);
                r == (self.discs()[pi] is Some && exists|ii: int|
                    0 <= ii < self.m().spec_inits().len() && spec_witnesses(
                        self.m(),
                        pi,
                        #[trigger] self.m().spec_inits()[ii],
                        actions@,
                    ))
            }),
    {
        let ghost pi = first_prop_index(self.m(), name@, 0);
        let i = self.find_prop(name);
        if self.discoveries[i].is_none() {
            proof {
                assert(self.discs()[pi] is None);
            }
            return false;
        }
        proof {
            assert(self.discs()[pi] is Some);
        }
        let inits = self.model.init_states();
        let n = inits.len();
        let mut ii: usize = 0;
        while ii < n
            invariant
                self.wf(),
                n == inits@.len(),
                inits@ == self.m().spec_inits(),
                ii <= n,
                i == pi,
                pi == first_prop_index(self.m(), name@, 0),
                0 <= pi < self.props@.len(),
                self.discs()[pi] is Some,
                forall|q: int|
                    0 <= q < ii ==> !spec_witnesses(
                        self.m(),
                        pi,
                        #[trigger] inits@[q],
                        actions@,
                    ),
            decreases n - ii,
        {
            let init = self.model.clone_state(&inits[ii]);
            let ghost init_g = inits@[ii as int];
            match Path::from_actions(&self.model, init, actions) {
                None => {
                    proof {
                        assert(spec_from_actions(self.m(), init_g, actions@) is None);
                        assert(!spec_witnesses(self.m(), pi, init_g, actions@));
                    }
                },
                Some(path) => {
                    let ghost pv = spec_from_actions(self.m(), init_g, actions@).unwrap();
                    proof {
                        assert(path@ == pv);
                        assert(self.m().spec_inits().contains(init_g));
                        lemma_from_actions_len(self.m(), init_g, actions@);
                    }
                    match self.props[i].expectation {
                        Expectation::Always => {
                            if !self.model.prop_holds(i, path.last_state()) {
                                proof {
                                    assert(spec_witnesses(self.m(), pi, init_g, actions@));
                                }
                                return true;
                            }
                        },
                        Expectation::Sometimes => {
                            if self.model.prop_holds(i, path.last_state()) {
                                proof {
                                    assert(spec_witnesses(self.m(), pi, init_g, actions@));
                                }
                                return true;
                            }
                        },
                        Expectation::Eventually => {
                            let states = path.into_states();
                            let ns = states.len();
                            let mut sat = false;
                            let mut q: usize = 0;
                            while q < ns
                                invariant
                                    self.wf(),
                                    ns == states@.len(),
                                    states@ == pv.map_values(
                                        |e: (M::State, Option<M::Action>)| e.0,
                                    ),
                                    q <= ns,
                                    i == pi,
                                    0 <= pi < self.props@.len(),
                                    sat == (exists|w: int|
                                        0 <= w < q && self.m().spec_holds(
                                            pi,
                                            (#[trigger] pv[w]).0,
                                        )),
                                decreases ns - q,
                            {
                                proof {
                                    assert(states@[q as int] == pv[q as int].0);
                                }
                                if self.model.prop_holds(i, &states[q]) {
                                    proof {
                                        assert(self.m().spec_holds(pi, pv[q as int].0));
                                    }
                                    sat = true;
                                } else {
                                    proof {
                                        assert(!self.m().spec_holds(pi, pv[q as int].0));
                                    }
                                }
                                q += 1;
                            }
                            let mut acts2: Vec<M::Action> = Vec::new();
                            self.model.actions(&states[ns - 1], &mut acts2);
                            let terminal = acts2.len() == 0;
                            proof {
                                assert(states@[ns - 1] == pv.last().0);
                            }
                            if !sat && terminal {
                                proof {
                                    assert forall|w: int|
                                        0 <= w < pv.len() implies !self.m().spec_holds(
                                        pi,
                                        (#[trigger] pv[w]).0,
                                    ) by {}
                                    assert(spec_witnesses(self.m(), pi, init_g, actions@));
                                }
                                return true;
                            }
                            proof {
                                if sat {
                                    assert(!spec_witnesses(self.m(), pi, init_g, actions@));
                                } else {
                                    assert(self.m().spec_actions(pv.last().0).len() > 0);
                                    assert(!spec_witnesses(self.m(), pi, init_g, actions@));
                                }
                            }
                        },
                    }
                    proof {
                        assert(!spec_witnesses(self.m(), pi, init_g, actions@));
                    }
                },
            }
            ii += 1;
        }
        false
    }

    /// Runs exploration until [`Checker::is_done`]: the frontier is
    /// exhausted, every property has a discovery, or the target generated
    /// count is reached. The generated count never decreases, visited
    /// entries are never removed or rewritten, and recorded discoveries are
    /// never replaced. Each expansion either generates a fresh fingerprint
    /// — and only finitely many fit in memory — or merely consumes a
    /// frontier item, so exploration terminates.
    pub fn join(self) -> (r: Self)
        requires
            self.wf(),
        ensures
            r.wf(),
            r.spec_is_done(),
            r.m() == self.m(),
            r.strat() == self.strat(),
            r.target() == self.target(),
            r.discs().len() == self.discs().len(),
            forall|i: int|
                0 <= i < self.discs().len() && (#[trigger] self.discs()[i]) is Some ==> r.discs()[i]
                    == self.discs()[i],
            forall|f: u64|
                #[trigger] self.visited_map().contains_key(f) ==> r.visited_map().contains_key(f)
                    && r.visited_map()[f] == self.visited_map()[f],
            r.visited_map().dom().len() >= self.visited_map().dom().len(),
    {
        let mut c = self;
        let _count0 = c.generated_count();
        let mut done = c.is_done();
        while !done
            invariant
                done == c.spec_is_done(),
                c.wf(),
                c.visited@.dom().len() <= usize::MAX,
                c.model == self.model,
                c.strategy == self.strategy,
                c.target == self.target,
                c.discoveries@.len() == self.discoveries@.len(),
                forall|i: int|
                    0 <= i < self.discoveries@.len() && (#[trigger] self.discoveries@[i]) is Some
                        ==> c.discoveries@[i] == self.discoveries@[i],
                forall|f: u64|
                    #[trigger] self.visited@.contains_key(f) ==> c.visited@.contains_key(f)
                        && c.visited@[f] == self.visited@[f],
                c.visited@.dom().len() >= self.visited@.dom().len(),
            decreases usize::MAX as int + 1 - c.visited@.dom().len(), c.frontier@.len(),
        {
            c.step();
            let _count = c.generated_count();
            done = c.is_done();
        }
        proof {
            assert forall|i: int|
                0 <= i < self.discs().len() && (#[trigger] self.discs()[i]) is Some implies c.discs()[i] == self.discs()[i] by {
                assert(self.discoveries@[i] is Some);
                assert(c.discoveries@[i] == self.discoveries@[i]);
            }
        }
        c
    }
}

} // verus!
