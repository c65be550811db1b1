use vstd::prelude::*;

use crate::model::{
    has_edge, lemma_next_steps_complete, lemma_next_steps_sound, next_steps, spec_next_steps,
    Model, fp_injective,
};

verus! {

/// First index `>= i` of an initial state with fingerprint `f`, or `-1`.
pub open spec fn first_init_index<M: Model>(m: M, f: u64, i: int) -> int
    decreases m.spec_inits().len() - i,
{
    if i < 0 || i >= m.spec_inits().len() {
        -1
    } else if m.spec_fp(m.spec_inits()[i]) == f {
        i
    } else {
        first_init_index(m, f, i + 1)
    }
}

/// First index `>= i` of a step whose successor has fingerprint `f`, or `-1`.
pub open spec fn first_step_index<M: Model>(
    m: M,
    steps: Seq<(M::Action, M::State)>,
    f: u64,
    i: int,
) -> int
    decreases steps.len() - i,
{
    if i < 0 || i >= steps.len() {
        -1
    } else if m.spec_fp(steps[i].1) == f {
        i
    } else {
        first_step_index(m, steps, f, i + 1)
    }
}

/// First index `>= i` of a step whose action is `a`, or `-1`.
pub open spec fn first_action_index<M: Model>(
    m: M,
    steps: Seq<(M::Action, M::State)>,
    a: M::Action,
    i: int,
) -> int
    decreases steps.len() - i,
{
    if i < 0 || i >= steps.len() {
        -1
    } else if steps[i].0 == a {
        i
    } else {
        first_action_index(m, steps, a, i + 1)
    }
}

pub proof fn lemma_first_init_props<M: Model>(m: M, f: u64, i: int)
    requires
        0 <= i,
    ensures
        ({
            let r = first_init_index(m, f, i);
            (r == -1 && forall|j: int|
                i <= j < m.spec_inits().len() ==> m.spec_fp(#[trigger] m.spec_inits()[j]) != f) || (
            i <= r < m.spec_inits().len() && m.spec_fp(m.spec_inits()[r]) == f && forall|j: int|
                i <= j < r ==> m.spec_fp(#[trigger] m.spec_inits()[j]) != f)
        }),
    decreases m.spec_inits().len() - i,
{
    if i >= m.spec_inits().len() {
    } else if m.spec_fp(m.spec_inits()[i]) == f {
    } else {
        lemma_first_init_props(m, f, i + 1);
    }
}

pub proof fn lemma_first_step_props<M: Model>(m: M, steps: Seq<(M::Action, M::State)>, f: u64, i: int)
    requires
        0 <= i,
    ensures
        ({
            let r = first_step_index(m, steps, f, i);
            (r == -1 && forall|j: int|
                i <= j < steps.len() ==> m.spec_fp((#[trigger] steps[j]).1) != f) || (i <= r
                < steps.len() && m.spec_fp(steps[r].1) == f && forall|j: int|
                i <= j < r ==> m.spec_fp((#[trigger] steps[j]).1) != f)
        }),
    decreases steps.len() - i,
{
    if i >= steps.len() {
    } else if m.spec_fp(steps[i].1) == f {
    } else {
        lemma_first_step_props(m, steps, f, i + 1);
    }
}

pub proof fn lemma_first_action_props<M: Model>(
    m: M,
    steps: Seq<(M::Action, M::State)>,
    a: M::Action,
    i: int,
)
    requires
        0 <= i,
    ensures
        ({
            let r = first_action_index(m, steps, a, i);
            (r == -1 && forall|j: int| i <= j < steps.len() ==> (#[trigger] steps[j]).0 != a) || (i
                <= r < steps.len() && steps[r].0 == a && forall|j: int|
                i <= j < r ==> (#[trigger] steps[j]).0 != a)
        }),
    decreases steps.len() - i,
{
    if i >= steps.len() {
    } else if steps[i].0 == a {
    } else {
        lemma_first_action_props(m, steps, a, i + 1);
    }
}

/// Starting from `s`, every fingerprint in `fps` is matched, in order, by
/// some enabled successor of the state reached so far.
pub open spec fn spec_replayable_from<M: Model>(m: M, s: M::State, fps: Seq<u64>) -> bool
    decreases fps.len(),
{
    if fps.len() == 0 {
        true
    } else {
        let steps = spec_next_steps(m, s);
        let idx = first_step_index(m, steps, fps[0], 0);
        idx >= 0 && spec_replayable_from(m, steps[idx].1, fps.drop_first())
    }
}

/// The path obtained by replaying `fps` from `s`, taking at each step the
/// first enabled successor whose fingerprint matches.
pub open spec fn spec_replay_from<M: Model>(m: M, s: M::State, fps: Seq<u64>) -> Seq<
    (M::State, Option<M::Action>),
>
    decreases fps.len(),
{
    if fps.len() == 0 {
        seq![(s, None)]
    } else {
        let steps = spec_next_steps(m, s);
        let idx = first_step_index(m, steps, fps[0], 0);
        seq![(s, Some(steps[idx].0))] + spec_replay_from(m, steps[idx].1, fps.drop_first())
    }
}

/// `fps` names an initial state and can be replayed from it.
pub open spec fn spec_replayable<M: Model>(m: M, fps: Seq<u64>) -> bool {
    fps.len() > 0 && {
        let idx = first_init_index(m, fps[0], 0);
        idx >= 0 && spec_replayable_from(m, m.spec_inits()[idx], fps.drop_first())
    }
}

/// The path obtained by replaying `fps` from the first matching initial
/// state.
pub open spec fn spec_replay<M: Model>(m: M, fps: Seq<u64>) -> Seq<(M::State, Option<M::Action>)> {
    let idx = first_init_index(m, fps[0], 0);
    spec_replay_from(m, m.spec_inits()[idx], fps.drop_first())
}

pub proof fn lemma_replay_from_len<M: Model>(m: M, s: M::State, fps: Seq<u64>)
    ensures
        spec_replay_from(m, s, fps).len() == fps.len() + 1,
    decreases fps.len(),
{
    if fps.len() == 0 {
    } else {
        let steps = spec_next_steps(m, s);
        let idx = first_step_index(m, steps, fps[0], 0);
        lemma_replay_from_len(m, steps[idx].1, fps.drop_first());
    }
}

/// The actions recorded along a path, in order.
pub open spec fn path_actions<State, Action>(p: Seq<(State, Option<Action>)>) -> Seq<Action>
    decreases p.len(),
{
    if p.len() == 0 {
        Seq::empty()
    } else {
        match p[0].1 {
            Some(a) => seq![a] + path_actions(p.drop_first()),
            None => path_actions(p.drop_first()),
        }
    }
}

/// Replaying `acts` from `s`: take at each step the first enabled step whose
/// action equals the next one; `None` when some action is not enabled.
pub open spec fn spec_from_actions_rec<M: Model>(m: M, s: M::State, acts: Seq<M::Action>) -> Option<
    Seq<(M::State, Option<M::Action>)>,
>
    decreases acts.len(),
{
    if acts.len() == 0 {
        Some(seq![(s, None)])
    } else {
        let steps = spec_next_steps(m, s);
        let idx = first_action_index(m, steps, acts[0], 0);
        if idx < 0 {
            None
        } else {
            match spec_from_actions_rec(m, steps[idx].1, acts.drop_first()) {
                Some(rest) => Some(seq![(s, Some(steps[idx].0))] + rest),
                None => None,
            }
        }
    }
}

/// What [`Path::from_actions`] returns: `None` unless `init` is an initial
/// state and every action is enabled in turn.
pub open spec fn spec_from_actions<M: Model>(m: M, init: M::State, acts: Seq<M::Action>) -> Option<
    Seq<(M::State, Option<M::Action>)>,
>
 {
    if m.spec_inits().contains(init) {
        spec_from_actions_rec(m, init, acts)
    } else {
        None
    }
}

/// A well-formed path: non-empty, closed by an action-less tail, and each
/// recorded action is enabled and leads to the next state.
pub open spec fn path_wf<M: Model>(m: M, p: Seq<(M::State, Option<M::Action>)>) -> bool {
    p.len() > 0 && p.last().1 is None && forall|j: int|
        0 <= j < p.len() - 1 ==> ((#[trigger] p[j]).1 matches Some(a) && exists|k: int|
            0 <= k < m.spec_actions(p[j].0).len() && #[trigger] m.spec_actions(p[j].0)[k] == a
                && m.spec_next(p[j].0, a) == Some(p[j + 1].0))
}

/// A chain in the visited map: it begins at a root (no parent) and each
/// entry's recorded parent is its predecessor in the chain.
pub open spec fn chain_wf(vm: Map<u64, Option<u64>>, fps: Seq<u64>) -> bool {
    fps.len() > 0 && (forall|j: int| 0 <= j < fps.len() ==> vm.contains_key(#[trigger] fps[j]))
        && vm[fps[0]] is None && (forall|j: int|
        0 < j < fps.len() ==> vm[#[trigger] fps[j]] == Some(fps[j - 1]))
}

/// Decimal digits of `n`, as ASCII bytes.
pub open spec fn dec_bytes(n: nat) -> Seq<u8>
    decreases n,
{
    if n < 10 {
        seq![(48 + n) as u8]
    } else {
        dec_bytes(n / 10) + seq![(48 + n % 10) as u8]
    }
}

/// The fingerprints rendered as decimal integers joined by `/`, as ASCII
/// bytes.
pub open spec fn encode_bytes(fps: Seq<u64>) -> Seq<u8>
    decreases fps.len(),
{
    if fps.len() == 0 {
        Seq::empty()
    } else if fps.len() == 1 {
        dec_bytes(fps[0] as nat)
    } else {
        dec_bytes(fps[0] as nat) + seq![47u8] + encode_bytes(fps.drop_first())
    }
}

/// What [`Path::encode`] returns, over the path's state fingerprints.
pub open spec fn spec_encode<M: Model>(m: M, p: Seq<(M::State, Option<M::Action>)>) -> Seq<char> {
    encode_bytes(p.map_values(|q: (M::State, Option<M::Action>)| m.spec_fp(q.0))).map_values(
        |b: u8| b as char,
    )
}

proof fn lemma_dec_bytes_range(n: nat)
    ensures
        forall|i: int| 0 <= i < dec_bytes(n).len() ==> 48 <= #[trigger] dec_bytes(n)[i] < 58,
    decreases n,
{
    if n < 10 {
        assert(dec_bytes(n) == seq![(48 + n) as u8]);
        assert(dec_bytes(n)[0] == (48 + n) as u8);
    } else {
        lemma_dec_bytes_range(n / 10);
        assert(dec_bytes(n) == dec_bytes(n / 10) + seq![(48 + n % 10) as u8]);
        assert forall|i: int| 0 <= i < dec_bytes(n).len() implies 48 <= #[trigger] dec_bytes(n)[i]
            < 58 by {
            if i < dec_bytes(n / 10).len() {
                assert(dec_bytes(n)[i] == dec_bytes(n / 10)[i]);
            } else {
                assert(dec_bytes(n)[i] == (48 + n % 10) as u8);
            }
        }
    }
}

/// Relies on String::from_utf8: ASCII bytes become the same characters.
#[verifier::external_body]
fn ascii_string(bytes: Vec<u8>) -> (r: String)
    requires
        forall|i: int| 0 <= i < bytes@.len() ==> #[trigger] bytes@[i] < 128,
    ensures
        r@ == bytes@.map_values(|b: u8| b as char),
{
    String::from_utf8(bytes).unwrap_or_default()
}

/// Appends the decimal digits of `n` to `out`.
fn push_dec(out: &mut Vec<u8>, n: u64)
    ensures
        final(out)@ == old(out)@ + dec_bytes(n as nat),
{
    let mut tmp: Vec<u8> = Vec::new();
    let mut x: u64 = n;
    proof {
        assert(tmp@.reverse() =~= Seq::<u8>::empty());
    }
    loop
        invariant_except_break
            dec_bytes(n as nat) == dec_bytes(x as nat) + tmp@.reverse(),
        ensures
            dec_bytes(n as nat) == tmp@.reverse(),
        decreases x,
    {
        let ghost x0 = x as nat;
        let ghost t0 = tmp@;
        let d: u8 = (x % 10) as u8;
        tmp.push(48 + d);
        x = x / 10;
        proof {
            assert(tmp@.reverse() =~= seq![(48 + x0 % 10) as u8] + t0.reverse());
            if x0 < 10 {
                assert(dec_bytes(x0) == seq![(48 + x0) as u8]);
                assert(dec_bytes(x0) + t0.reverse() =~= tmp@.reverse());
                assert(dec_bytes(n as nat) == tmp@.reverse());
            } else {
                assert(dec_bytes(x0) == dec_bytes(x0 / 10) + seq![(48 + x0 % 10) as u8]);
                assert(dec_bytes(x as nat) + tmp@.reverse() =~= dec_bytes(x0) + t0.reverse());
            }
        }
        if x == 0 {
            break ;
        }
    }
    let mut t: usize = tmp.len();
    while t > 0
        invariant
            t <= tmp.len(),
            out@ == old(out)@ + tmp@.reverse().take(tmp@.len() - t),
        decreases t,
    {
        t -= 1;
        let b: u8 = tmp[t];
        out.push(b);
        proof {
            assert(out@ =~= old(out)@ + tmp@.reverse().take(tmp@.len() - t));
        }
    }
    proof {
        assert(tmp@.reverse().take(tmp@.len() as int) =~= tmp@.reverse());
    }
}

/// A path of states including actions: `state --action--> state ...
/// --action--> state`, closed by a final state with no action.
#[derive(Debug, PartialEq)]
pub struct Path<State, Action>(Vec<(State, Option<Action>)>);

impl<State, Action> View for Path<State, Action> {
    type V = Seq<(State, Option<Action>)>;

    closed spec fn view(&self) -> Seq<(State, Option<Action>)> {
        self.0@
    }
}

impl<State, Action> Path<State, Action> {
    /// Constructs a path from a model and a sequence of fingerprints, taking
    /// at each step the first matching initial state or successor.
    pub fn from_fingerprints<M: Model<State = State, Action = Action>>(
        model: &M,
        fingerprints: &Vec<u64>,
    ) -> (r: Self)
        requires
            spec_replayable(*model, fingerprints@),
        ensures
            r@ == spec_replay(*model, fingerprints@),
    {
        let inits = model.init_states();
        let f0 = fingerprints[0];
        proof {
            lemma_first_init_props(*model, f0, 0);
        }
        let ghost gidx = first_init_index(*model, f0, 0);
        let ncap = inits.len();
        let mut j: usize = 0;
        while model.fingerprint(&inits[j]) != f0
            invariant
                inits@ == model.spec_inits(),
                ncap == inits@.len(),
                gidx == first_init_index(*model, f0, 0),
                0 <= gidx < inits@.len(),
                model.spec_fp(inits@[gidx]) == f0,
                forall|q: int| 0 <= q < gidx ==> model.spec_fp(#[trigger] inits@[q]) != f0,
                0 <= j <= gidx,
            decreases gidx - j,
        {
            proof {
                assert(j < gidx);
            }
            j += 1;
        }
        proof {
            assert(j == gidx);
        }
        let mut cur: State = model.clone_state(&inits[j]);
        let mut out: Vec<(State, Option<Action>)> = Vec::new();
        let mut k: usize = 1;
        proof {
            assert(fingerprints@.skip(1) =~= fingerprints@.drop_first());
        }
        while k < fingerprints.len()
            invariant
                1 <= k <= fingerprints@.len(),
                spec_replayable_from(*model, cur, fingerprints@.skip(k as int)),
                spec_replay(*model, fingerprints@) == out@ + spec_replay_from(
                    *model,
                    cur,
                    fingerprints@.skip(k as int),
                ),
            decreases fingerprints@.len() - k,
        {
            let ghost rest = fingerprints@.skip(k as int);
            let fk = fingerprints[k];
            proof {
                assert(rest[0] == fk);
            }
            let steps = next_steps(model, &cur);
            proof {
                lemma_first_step_props(*model, steps@, fk, 0);
            }
            let ghost sidx = first_step_index(*model, steps@, fk, 0);
            let scap = steps.len();
            let mut j2: usize = 0;
            while model.fingerprint(&steps[j2].1) != fk
                invariant
                    steps@ == spec_next_steps(*model, cur),
                    scap == steps@.len(),
                    sidx == first_step_index(*model, steps@, fk, 0),
                    0 <= sidx < steps@.len(),
                    model.spec_fp(steps@[sidx].1) == fk,
                    forall|q: int| 0 <= q < sidx ==> model.spec_fp((#[trigger] steps@[q]).1) != fk,
                    0 <= j2 <= sidx,
                decreases sidx - j2,
            {
                proof {
                    assert(j2 < sidx);
                }
                j2 += 1;
            }
            proof {
                assert(j2 == sidx);
            }
            let a = model.clone_action(&steps[j2].0);
            let s2 = model.clone_state(&steps[j2].1);
            out.push((cur, Some(a)));
            cur = s2;
            proof {
                assert(rest.drop_first() =~= fingerprints@.skip(k as int + 1));
            }
            k += 1;
        }
        proof {
            assert(fingerprints@.skip(fingerprints@.len() as int) =~= Seq::<u64>::empty());
            assert(spec_replay_from(*model, cur, Seq::<u64>::empty()) == seq![
                (cur, None::<Action>),
            ]);
        }
        out.push((cur, None));
        proof {
            assert(out@ =~= spec_replay(*model, fingerprints@));
        }
        Path(out)
    }

    /// Constructs a path from a model, an initial state, and a sequence of
    /// actions; `None` when the state is not initial or some action is not
    /// enabled in turn.
    pub fn from_actions<M: Model<State = State, Action = Action>>(
        model: &M,
        init_state: State,
        actions: &Vec<Action>,
    ) -> (r: Option<Self>)
        ensures
            match spec_from_actions(*model, init_state, actions@) {
                Some(v) => r matches Some(p) && p@ == v,
                None => r is None,
            },
    {
        let inits = model.init_states();
        let mut j: usize = 0;
        let mut found = false;
        loop
            invariant_except_break
                !found,
            invariant
                inits@ == model.spec_inits(),
                j <= inits@.len(),
                forall|q: int| 0 <= q < j ==> #[trigger] inits@[q] != init_state,
            ensures
                found ==> model.spec_inits().contains(init_state),
                !found ==> forall|q: int|
                    0 <= q < inits@.len() ==> #[trigger] inits@[q] != init_state,
            decreases inits@.len() - j,
        {
            if j >= inits.len() {
                break ;
            }
            if model.state_eq(&inits[j], &init_state) {
                found = true;
                break ;
            }
            j += 1;
        }
        if !found {
            proof {
                assert(!model.spec_inits().contains(init_state));
            }
            return None;
        }
        let mut cur: State = model.clone_state(&init_state);
        let mut out: Vec<(State, Option<Action>)> = Vec::new();
        let mut k: usize = 0;
        proof {
            assert(actions@.skip(0) =~= actions@);
        }
        while k < actions.len()
            invariant
                0 <= k <= actions@.len(),
                spec_from_actions(*model, init_state, actions@) == opt_prepend(
                    out@,
                    spec_from_actions_rec(*model, cur, actions@.skip(k as int)),
                ),
            decreases actions@.len() - k,
        {
            let ghost rest = actions@.skip(k as int);
            proof {
                assert(rest[0] == actions@[k as int]);
            }
            let steps = next_steps(model, &cur);
            proof {
                lemma_first_action_props(*model, steps@, actions@[k as int], 0);
            }
            let ghost aidx = first_action_index(*model, steps@, actions@[k as int], 0);
            let mut j2: usize = 0;
            let mut found2 = false;
            loop
                invariant_except_break
                    !found2,
                invariant
                    steps@ == spec_next_steps(*model, cur),
                    aidx == first_action_index(*model, steps@, actions@[k as int], 0),
                    k < actions@.len(),
                    j2 <= steps@.len(),
                    forall|q: int| 0 <= q < j2 ==> (#[trigger] steps@[q]).0 != actions@[k as int],
                ensures
                    found2 ==> 0 <= aidx && j2 == aidx && j2 < steps@.len(),
                    !found2 ==> aidx == -1,
                decreases steps@.len() - j2,
            {
                if j2 >= steps.len() {
                    proof {
                        lemma_first_action_props(*model, steps@, actions@[k as int], 0);
                    }
                    break ;
                }
                if model.action_eq(&steps[j2].0, &actions[k]) {
                    found2 = true;
                    proof {
                        lemma_first_action_props(*model, steps@, actions@[k as int], 0);
                    }
                    break ;
                }
                j2 += 1;
            }
            if !found2 {
                proof {
                    assert(aidx == -1);
                    assert(spec_from_actions_rec(*model, cur, rest) is None);
                    assert(opt_prepend(
                        out@,
                        spec_from_actions_rec(*model, cur, actions@.skip(k as int)),
                    ) is None);
                    assert(spec_from_actions(*model, init_state, actions@) is None);
                }
                return None;
            }
            proof {
                assert(j2 == aidx);
            }
            let a = model.clone_action(&steps[j2].0);
            let s2 = model.clone_state(&steps[j2].1);
            let ghost out0 = out@;
            let ghost cur0 = cur;
            out.push((cur, Some(a)));
            cur = s2;
            proof {
                assert(rest.drop_first() =~= actions@.skip(k as int + 1));
                let tail = spec_from_actions_rec(*model, cur, actions@.skip(k as int + 1));
                match tail {
                    Some(rv) => {
                        assert(spec_from_actions_rec(*model, cur0, rest) == Some(
                            seq![(cur0, Some(steps@[aidx].0))] + rv,
                        ));
                        assert(out0 + (seq![(cur0, Some(steps@[aidx].0))] + rv) =~= out@ + rv);
                    },
                    None => {
                        assert(spec_from_actions_rec(*model, cur0, rest) is None);
                    },
                }
            }
            k += 1;
        }
        proof {
            assert(actions@.skip(actions@.len() as int) =~= Seq::<Action>::empty());
        }
        let ghost out0 = out@;
        let ghost cur0 = cur;
        out.push((cur, None));
        proof {
            assert(spec_from_actions_rec(*model, cur0, Seq::<Action>::empty()) == Some(
                seq![(cur0, None::<Action>)],
            ));
            assert(out0 + seq![(cur0, None::<Action>)] =~= out@);
        }
        Some(Path(out))
    }

    /// Determines the final state reached by a fingerprint path, or `None`
    /// when the path cannot be replayed against the model.
    pub fn final_state<M: Model<State = State, Action = Action>>(
        model: &M,
        fingerprints: &Vec<u64>,
    ) -> (r: Option<State>)
        ensures
            spec_replayable(*model, fingerprints@) ==> (r matches Some(s) && s == spec_replay(
                *model,
                fingerprints@,
            ).last().0),
            !spec_replayable(*model, fingerprints@) ==> r is None,
    {
        if fingerprints.len() == 0 {
            return None;
        }
        let inits = model.init_states();
        let f0 = fingerprints[0];
        proof {
            lemma_first_init_props(*model, f0, 0);
        }
        let ghost gidx = first_init_index(*model, f0, 0);
        let mut j: usize = 0;
        let mut found = false;
        loop
            invariant_except_break
                !found,
            invariant
                inits@ == model.spec_inits(),
                gidx == first_init_index(*model, f0, 0),
                j <= inits@.len(),
                forall|q: int| 0 <= q < j ==> model.spec_fp(#[trigger] inits@[q]) != f0,
            ensures
                found ==> 0 <= gidx && j == gidx && j < inits@.len(),
                !found ==> gidx == -1,
            decreases inits@.len() - j,
        {
            if j >= inits.len() {
                proof {
                    lemma_first_init_props(*model, f0, 0);
                }
                break ;
            }
            if model.fingerprint(&inits[j]) == f0 {
                found = true;
                proof {
                    lemma_first_init_props(*model, f0, 0);
                }
                break ;
            }
            j += 1;
        }
        if !found {
            proof {
                assert(gidx == -1);
            }
            return None;
        }
        let mut cur: State = model.clone_state(&inits[j]);
        let mut k: usize = 1;
        proof {
            assert(fingerprints@.skip(1) =~= fingerprints@.drop_first());
        }
        while k < fingerprints.len()
            invariant
                1 <= k <= fingerprints@.len(),
                spec_replayable(*model, fingerprints@) == spec_replayable_from(
                    *model,
                    cur,
                    fingerprints@.skip(k as int),
                ),
                spec_replayable(*model, fingerprints@) ==> spec_replay(
                    *model,
                    fingerprints@,
                ).last() == spec_replay_from(*model, cur, fingerprints@.skip(k as int)).last(),
            decreases fingerprints@.len() - k,
        {
            let ghost rest = fingerprints@.skip(k as int);
            let fk = fingerprints[k];
            proof {
                assert(rest[0] == fk);
            }
            let steps = next_steps(model, &cur);
            proof {
                lemma_first_step_props(*model, steps@, fk, 0);
            }
            let ghost sidx = first_step_index(*model, steps@, fk, 0);
            let mut j2: usize = 0;
            let mut found2 = false;
            loop
                invariant_except_break
                    !found2,
                invariant
                    steps@ == spec_next_steps(*model, cur),
                    sidx == first_step_index(*model, steps@, fk, 0),
                    j2 <= steps@.len(),
                    forall|q: int| 0 <= q < j2 ==> model.spec_fp((#[trigger] steps@[q]).1) != fk,
                ensures
                    found2 ==> 0 <= sidx && j2 == sidx && j2 < steps@.len(),
                    !found2 ==> sidx == -1,
                decreases steps@.len() - j2,
            {
                if j2 >= steps.len() {
                    proof {
                        lemma_first_step_props(*model, steps@, fk, 0);
                    }
                    break ;
                }
                if model.fingerprint(&steps[j2].1) == fk {
                    found2 = true;
                    proof {
                        lemma_first_step_props(*model, steps@, fk, 0);
                    }
                    break ;
                }
                j2 += 1;
            }
            if !found2 {
                proof {
                    assert(sidx == -1);
                    assert(!spec_replayable_from(*model, cur, rest));
                }
                return None;
            }
            let s2 = model.clone_state(&steps[j2].1);
            proof {
                assert(rest.drop_first() =~= fingerprints@.skip(k as int + 1));
                lemma_replay_from_len(*model, s2, rest.drop_first());
                if spec_replayable(*model, fingerprints@) {
                    assert(spec_replay_from(*model, cur, rest) == seq![
                        (cur, Some(steps@[sidx].0)),
                    ] + spec_replay_from(*model, s2, rest.drop_first()));
                }
            }
            cur = s2;
            k += 1;
        }
        proof {
            assert(fingerprints@.skip(fingerprints@.len() as int) =~= Seq::<u64>::empty());
        }
        Some(cur)
    }

    /// Extracts the last state.
    pub fn last_state(&self) -> (r: &State)
        requires
            self@.len() > 0,
        ensures
            *r == self@.last().0,
    {
        &self.0[self.0.len() - 1].0
    }

    /// Extracts the states.
    pub fn into_states(self) -> (r: Vec<State>)
        ensures
            r@ == self@.map_values(|q: (State, Option<Action>)| q.0),
    {
        let Path(mut v) = self;
        let ghost orig = v@;
        let mut r: Vec<State> = Vec::new();
        proof {
            assert(orig.skip(0) =~= orig);
        }
        let mut k: usize = 0;
        let n = v.len();
        while k < n
            invariant
                n == orig.len(),
                v@ == orig.skip(k as int),
                k <= n,
                r@ == orig.take(k as int).map_values(|q: (State, Option<Action>)| q.0),
            decreases n - k,
        {
            let p = v.remove(0);
            r.push(p.0);
            proof {
                assert(v@ =~= orig.skip(k as int + 1));
                assert(r@ =~= orig.take(k as int + 1).map_values(
                    |q: (State, Option<Action>)| q.0,
                ));
            }
            k += 1;
        }
        proof {
            assert(orig.take(orig.len() as int) =~= orig);
        }
        r
    }

    /// Extracts the actions.
    pub fn into_actions(self) -> (r: Vec<Action>)
        ensures
            r@ == path_actions(self@),
    {
        let Path(mut v) = self;
        let ghost orig = v@;
        let mut r: Vec<Action> = Vec::new();
        proof {
            assert(orig.skip(0) =~= orig);
        }
        let mut k: usize = 0;
        let n = v.len();
        while k < n
            invariant
                n == orig.len(),
                v@ == orig.skip(k as int),
                k <= n,
                path_actions(orig) == r@ + path_actions(orig.skip(k as int)),
            decreases n - k,
        {
            let ghost rest = orig.skip(k as int);
            let p = v.remove(0);
            proof {
                assert(rest[0] == p);
                assert(rest.drop_first() =~= orig.skip(k as int + 1));
                assert(v@ =~= orig.skip(k as int + 1));
            }
            match p.1 {
                Some(a) => {
                    r.push(a);
                    proof {
                        assert(path_actions(orig) =~= r@ + path_actions(orig.skip(k as int + 1)));
                    }
                },
                None => {},
            }
            k += 1;
        }
        proof {
            assert(path_actions(orig.skip(orig.len() as int)) =~= Seq::<Action>::empty());
            assert(r@ =~= path_actions(orig));
        }
        r
    }

    /// Extracts the whole sequence of states and actions.
    pub fn into_vec(self) -> (r: Vec<(State, Option<Action>)>)
        ensures
            r@ == self@,
    {
        self.0
    }

    /// Encodes the path as the decimal fingerprints of its states joined by
    /// forward slashes.
    pub fn encode<M: Model<State = State, Action = Action>>(&self, model: &M) -> (r: String)
        ensures
            r@ == spec_encode(*model, self@),
    {
        let ghost fps = self@.map_values(|q: (State, Option<Action>)| model.spec_fp(q.0));
        let mut bytes: Vec<u8> = Vec::new();
        let mut i: usize = 0;
        while i < self.0.len()
            invariant
                fps == self@.map_values(|q: (State, Option<Action>)| model.spec_fp(q.0)),
                i <= self@.len(),
                i == 0 ==> bytes@ == Seq::<u8>::empty(),
                i >= 1 ==> bytes@ + encode_tail(fps.skip(i as int)) == encode_bytes(fps),
                forall|q: int| 0 <= q < bytes@.len() ==> #[trigger] bytes@[q] < 128,
            decreases self@.len() - i,
        {
            let ghost b0 = bytes@;
            if i > 0 {
                bytes.push(47);
            }
            let f = model.fingerprint(&self.0[i].0);
            push_dec(&mut bytes, f);
            proof {
                lemma_dec_bytes_range(f as nat);
                assert(fps.skip(i as int)[0] == f);
                assert(fps.skip(i as int).drop_first() =~= fps.skip(i as int + 1));
                if i == 0 {
                    lemma_encode_split(fps);
                    assert(bytes@ =~= dec_bytes(f as nat));
                } else {
                    assert(encode_tail(fps.skip(i as int)) == seq![47u8] + dec_bytes(f as nat)
                        + encode_tail(fps.skip(i as int + 1)));
                    assert(bytes@ + encode_tail(fps.skip(i as int + 1)) =~= b0 + encode_tail(
                        fps.skip(i as int),
                    ));
                }
            }
            i += 1;
        }
        proof {
            if self@.len() == 0 {
                assert(fps.len() == 0);
                assert(bytes@ =~= encode_bytes(fps));
            } else {
                assert(encode_tail(fps.skip(fps.len() as int)) =~= Seq::<u8>::empty());
                assert(bytes@ =~= encode_bytes(fps));
            }
        }
        ascii_string(bytes)
    }
}

/// The non-first fingerprints of an encoding, each with its leading slash.
pub open spec fn encode_tail(fps: Seq<u64>) -> Seq<u8>
    decreases fps.len(),
{
    if fps.len() == 0 {
        Seq::empty()
    } else {
        seq![47u8] + dec_bytes(fps[0] as nat) + encode_tail(fps.drop_first())
    }
}

proof fn lemma_encode_split(fps: Seq<u64>)
    requires
        fps.len() > 0,
    ensures
        encode_bytes(fps) == dec_bytes(fps[0] as nat) + encode_tail(fps.drop_first()),
    decreases fps.len(),
{
    if fps.len() == 1 {
        assert(encode_tail(fps.drop_first()) =~= Seq::<u8>::empty());
        assert(dec_bytes(fps[0] as nat) + Seq::<u8>::empty() =~= dec_bytes(fps[0] as nat));
    } else {
        lemma_encode_split(fps.drop_first());
        assert(dec_bytes(fps[0] as nat) + (seq![47u8] + dec_bytes(fps.drop_first()[0] as nat)
            + encode_tail(fps.drop_first().drop_first())) =~= dec_bytes(fps[0] as nat) + seq![47u8]
            + encode_bytes(fps.drop_first()));
        assert(dec_bytes(fps[0] as nat) + encode_tail(fps.drop_first()) =~= dec_bytes(
            fps[0] as nat,
        ) + (seq![47u8] + dec_bytes(fps.drop_first()[0] as nat) + encode_tail(
            fps.drop_first().drop_first(),
        )));
    }
}


/// With an injective fingerprint, a chained run of states can be replayed
/// from its fingerprints, and the replay ends in the run's own last state.
proof fn lemma_states_replayable_from<M: Model>(m: M, ss: Seq<M::State>, fps: Seq<u64>)
    requires
        ss.len() >= 1,
        fps.len() == ss.len(),
        forall|j: int| 0 <= j < ss.len() ==> #[trigger] fps[j] == m.spec_fp(ss[j]),
        forall|j: int| 0 <= j < ss.len() - 1 ==> has_edge(m, #[trigger] ss[j], ss[j + 1]),
        fp_injective(m),
    ensures
        spec_replayable_from(m, ss[0], fps.drop_first()),
        spec_replay_from(m, ss[0], fps.drop_first()).last().0 == ss.last(),
    decreases ss.len(),
{
    if ss.len() == 1 {
        assert(fps.drop_first() =~= Seq::<u64>::empty());
        assert(spec_replay_from(m, ss[0], Seq::<u64>::empty()) == seq![
            (ss[0], None::<M::Action>),
        ]);
    } else {
        let s = ss[0];
        assert(has_edge(m, ss[0], ss[1]));
        let k = choose|k: int|
            0 <= k < m.spec_actions(s).len() && m.spec_next(s, #[trigger] m.spec_actions(s)[k])
                == Some(ss[1]);
        lemma_next_steps_complete(m, s, 0, k, ss[1]);
        let steps = spec_next_steps(m, s);
        let w = choose|w: int|
            0 <= w < steps.len() && #[trigger] steps[w] == (m.spec_actions(s)[k], ss[1]);
        assert(m.spec_fp(steps[w].1) == fps[1]);
        lemma_first_step_props(m, steps, fps[1], 0);
        let fidx = first_step_index(m, steps, fps[1], 0);
        assert(0 <= fidx < steps.len() && m.spec_fp(steps[fidx].1) == fps[1]);
        assert(steps[fidx].1 == ss[1]);
        let ss2 = ss.drop_first();
        let fps2 = fps.drop_first();
        assert forall|j: int| 0 <= j < ss2.len() implies #[trigger] fps2[j] == m.spec_fp(
            ss2[j],
        ) by {
            assert(fps2[j] == fps[j + 1]);
            assert(ss2[j] == ss[j + 1]);
        }
        assert forall|j: int| 0 <= j < ss2.len() - 1 implies has_edge(
            m,
            #[trigger] ss2[j],
            ss2[j + 1],
        ) by {
            assert(ss2[j] == ss[j + 1]);
            assert(ss2[j + 1] == ss[j + 2]);
            assert(has_edge(m, ss[j + 1], ss[j + 2]));
        }
        lemma_states_replayable_from(m, ss2, fps2);
        assert(fps.drop_first()[0] == fps[1]);
        assert(fps.drop_first().drop_first() =~= fps2.drop_first());
        lemma_replay_from_len(m, ss[1], fps2.drop_first());
        assert(spec_replay_from(m, s, fps.drop_first()) == seq![(s, Some(steps[fidx].0))]
            + spec_replay_from(m, ss[1], fps2.drop_first()));
        assert(ss2.last() == ss.last());
    }
}

/// Path reconstruction is round-trip consistent: with an injective
/// fingerprint, replaying a well-formed path's fingerprint sequence
/// succeeds and ends in the path's own last state.
pub proof fn lemma_fingerprint_round_trip<M: Model>(m: M, p: Seq<(M::State, Option<M::Action>)>)
    requires
        path_wf(m, p),
        m.spec_inits().contains(p[0].0),
        fp_injective(m),
    ensures
        spec_replayable(m, p.map_values(|q: (M::State, Option<M::Action>)| m.spec_fp(q.0))),
        spec_replay(m, p.map_values(|q: (M::State, Option<M::Action>)| m.spec_fp(q.0))).last().0
            == p.last().0,
{
    let ss = p.map_values(|q: (M::State, Option<M::Action>)| q.0);
    let fps = p.map_values(|q: (M::State, Option<M::Action>)| m.spec_fp(q.0));
    assert forall|j: int| 0 <= j < ss.len() - 1 implies has_edge(m, #[trigger] ss[j], ss[j + 1]) by {
        assert(p[j].1 matches Some(a) && exists|k: int|
            0 <= k < m.spec_actions(p[j].0).len() && #[trigger] m.spec_actions(p[j].0)[k] == a
                && m.spec_next(p[j].0, a) == Some(p[j + 1].0));
        let a = p[j].1.unwrap();
        let k = choose|k: int|
            0 <= k < m.spec_actions(p[j].0).len() && #[trigger] m.spec_actions(p[j].0)[k] == a
                && m.spec_next(p[j].0, a) == Some(p[j + 1].0);
        assert(m.spec_next(ss[j], m.spec_actions(ss[j])[k]) == Some(ss[j + 1]));
    }
    let w = choose|w: int| 0 <= w < m.spec_inits().len() && m.spec_inits()[w] == p[0].0;
    lemma_first_init_props(m, fps[0], 0);
    let gidx = first_init_index(m, fps[0], 0);
    assert(m.spec_fp(m.spec_inits()[w]) == fps[0]);
    assert(0 <= gidx < m.spec_inits().len() && m.spec_fp(m.spec_inits()[gidx]) == fps[0]);
    assert(m.spec_inits()[gidx] == ss[0]);
    lemma_states_replayable_from(m, ss, fps);
    assert(ss.last() == p.last().0);
}

/// Replaying a well-formed path's recorded actions from its first state
/// succeeds and recovers exactly those actions.
proof fn lemma_actions_round_trip_rec<M: Model>(m: M, p: Seq<(M::State, Option<M::Action>)>)
    requires
        path_wf(m, p),
    ensures
        spec_from_actions_rec(m, p[0].0, path_actions(p)) is Some,
        path_actions(spec_from_actions_rec(m, p[0].0, path_actions(p)).unwrap()) == path_actions(
            p,
        ),
    decreases p.len(),
{
    if p.len() == 1 {
        assert(p[0].1 is None);
        assert(p.drop_first() =~= Seq::<(M::State, Option<M::Action>)>::empty());
        assert(path_actions(p) =~= Seq::<M::Action>::empty());
        let q = seq![(p[0].0, None::<M::Action>)];
        assert(spec_from_actions_rec(m, p[0].0, path_actions(p)) == Some(q));
        assert(q.drop_first() =~= Seq::<(M::State, Option<M::Action>)>::empty());
        assert(path_actions(q) =~= Seq::<M::Action>::empty());
    } else {
        assert(p[0].1 matches Some(a) && exists|k: int|
            0 <= k < m.spec_actions(p[0].0).len() && #[trigger] m.spec_actions(p[0].0)[k] == a
                && m.spec_next(p[0].0, a) == Some(p[1].0));
        let a = p[0].1.unwrap();
        let acts = path_actions(p);
        assert(acts == seq![a] + path_actions(p.drop_first()));
        assert(acts[0] == a);
        let s = p[0].0;
        let k = choose|k: int|
            0 <= k < m.spec_actions(s).len() && #[trigger] m.spec_actions(s)[k] == a
                && m.spec_next(s, a) == Some(p[1].0);
        lemma_next_steps_complete(m, s, 0, k, p[1].0);
        let steps = spec_next_steps(m, s);
        let w = choose|w: int|
            0 <= w < steps.len() && #[trigger] steps[w] == (m.spec_actions(s)[k], p[1].0);
        assert(steps[w].0 == a);
        lemma_first_action_props(m, steps, a, 0);
        let aidx = first_action_index(m, steps, a, 0);
        assert(0 <= aidx < steps.len() && steps[aidx].0 == a);
        lemma_next_steps_sound(m, s, 0);
        assert(m.spec_next(s, steps[aidx].0) == Some(steps[aidx].1));
        assert(steps[aidx].1 == p[1].0);
        let p2 = p.drop_first();
        assert(p2.last() == p.last());
        assert forall|j: int|
            0 <= j < p2.len() - 1 implies ((#[trigger] p2[j]).1 matches Some(a2) && exists|k2: int|
            0 <= k2 < m.spec_actions(p2[j].0).len() && #[trigger] m.spec_actions(p2[j].0)[k2] == a2
                && m.spec_next(p2[j].0, a2) == Some(p2[j + 1].0)) by {
            assert(p2[j] == p[j + 1]);
            assert(p2[j + 1] == p[j + 2]);
            assert((p[j + 1].1 matches Some(a2) && exists|k2: int|
                0 <= k2 < m.spec_actions(p[j + 1].0).len() && #[trigger] m.spec_actions(
                    p[j + 1].0,
                )[k2] == a2 && m.spec_next(p[j + 1].0, a2) == Some(p[j + 2].0)));
        }
        lemma_actions_round_trip_rec(m, p2);
        assert(acts.drop_first() =~= path_actions(p2));
        let q2 = spec_from_actions_rec(m, p2[0].0, path_actions(p2)).unwrap();
        assert(spec_from_actions_rec(m, s, acts) == Some(seq![(s, Some(steps[aidx].0))] + q2));
        let q = seq![(s, Some(steps[aidx].0))] + q2;
        assert(q[0].1 == Some(a));
        assert(q.drop_first() =~= q2);
        assert(path_actions(q) == seq![a] + path_actions(q2));
        assert(path_actions(q) == path_actions(p));
    }
}

/// Replaying a well-formed path's actions from its initial state yields a
/// path with exactly the same actions.
pub proof fn lemma_actions_round_trip<M: Model>(m: M, p: Seq<(M::State, Option<M::Action>)>)
    requires
        path_wf(m, p),
        m.spec_inits().contains(p[0].0),
    ensures
        spec_from_actions(m, p[0].0, path_actions(p)) is Some,
        path_actions(spec_from_actions(m, p[0].0, path_actions(p)).unwrap()) == path_actions(p),
{
    lemma_actions_round_trip_rec(m, p);
}

/// A successful action replay yields one state per action, plus the final
/// state.
pub proof fn lemma_from_actions_len<M: Model>(m: M, s: M::State, acts: Seq<M::Action>)
    requires
        spec_from_actions_rec(m, s, acts) is Some,
    ensures
        spec_from_actions_rec(m, s, acts).unwrap().len() == acts.len() + 1,
    decreases acts.len(),
{
    if acts.len() == 0 {
    } else {
        let steps = spec_next_steps(m, s);
        let idx = first_action_index(m, steps, acts[0], 0);
        lemma_from_actions_len(m, steps[idx].1, acts.drop_first());
    }
}

/// `Some(prefix + v)` when `o == Some(v)`, else `None`.
pub open spec fn opt_prepend<State, Action>(
    prefix: Seq<(State, Option<Action>)>,
    o: Option<Seq<(State, Option<Action>)>>,
) -> Option<Seq<(State, Option<Action>)>> {
    match o {
        Some(v) => Some(prefix + v),
        None => None,
    }
}

} // verus!
