//! A generic Viterbi-style decoder: dynamic-programming relaxation over an
//! implicitly generated lattice of (state, consumed-input) nodes.
//!
//! The engine is seeded from an initial collection of (state, cost) pairs,
//! grows one frontier layer per expansion round until a layer comes up
//! empty, and then reconstructs the cheapest surviving path by walking
//! backpointers from the cheapest state of the final layer.

use vstd::prelude::*;

verus! {

/// Cost arithmetic: costs are summed with saturation, so an accumulation
/// can never wrap around and compare as artificially cheap.
pub open spec fn spec_sat_add(a: u64, b: u64) -> u64 {
    if a + b > u64::MAX {
        u64::MAX
    } else {
        (a + b) as u64
    }
}

/// Saturating cost addition, the only arithmetic the engine performs.
pub fn sat_add(a: u64, b: u64) -> (r: u64)
    ensures
        r == spec_sat_add(a, b),
{
    a.saturating_add(b)
}

/// The capability contract any domain model must provide.
///
/// A state is an opaque value; the engine only asks it for its local
/// lattice expansion (`children`) and for what it would consume and cost
/// when anchored against an unconsumed input suffix (`emission`). Both are
/// deterministic: the specification functions pin each call's result, so
/// identical state and identical suffix give identical answers.
///
/// To guarantee termination of a decode — a required safety property —
/// every successful emission must consume at least one input symbol and at
/// most the whole suffix it was shown. This statically rules out unbounded
/// growth through zero-consumption cycles.
pub trait State: Sized {
    /// The input alphabet this model reads.
    type InputSymbol;

    /// What `children` returns: the finite local expansion of this state,
    /// as (successor, transition cost) pairs, independent of input position.
    spec fn spec_children(&self) -> Seq<(Self, u64)>;

    /// What `emission` returns on a given unconsumed suffix: either
    /// "not yet emittable", or (consumed symbol count, emission cost).
    spec fn spec_emission(&self, input: Seq<Self::InputSymbol>) -> Option<(usize, u64)>;

    /// A successful emission consumes at least one symbol and no more than
    /// the suffix it saw.
    proof fn emission_consumes(&self, input: Seq<Self::InputSymbol>)
        ensures
            self.spec_emission(input) matches Some(p) ==> 1 <= p.0 <= input.len(),
    ;

    /// The local lattice expansion, restartable by re-invocation.
    fn children(&self) -> (r: Vec<(Self, u64)>)
        ensures
            r@ == self.spec_children(),
    ;

    /// Anchor this state against the unconsumed input suffix.
    fn emission(&self, input: &[Self::InputSymbol]) -> (r: Option<(usize, u64)>)
        ensures
            r == self.spec_emission(input@),
    ;

    /// Structural equality, used to intern structurally-equal states.
    fn eq_state(&self, other: &Self) -> (r: bool)
        ensures
            r <==> self == other,
    ;

    /// A copy of this state, equal to the original.
    fn clone_state(&self) -> (r: Self)
        ensures
            r == self,
    ;
}

/// What the engine records about one interned state of a layer.
#[derive(Clone, Copy, Debug)]
pub struct StateInfo {
    /// Cumulative count of input symbols consumed along the path to here.
    pub input_idx: usize,
    /// Best cost discovered so far for this state at this layer.
    pub cost: u64,
    /// Backpointer: the id of the best predecessor in the previous layer;
    /// `None` exactly for seed-layer entries.
    pub parent_idx: Option<usize>,
}

impl StateInfo {
    /// Relax this record against a competing one for the same state:
    /// strictly cheaper replaces, ties keep the first-seen record.
    pub fn update(&mut self, other: StateInfo)
        ensures
            *final(self) == (if other.cost < old(self).cost {
                other
            } else {
                *old(self)
            }),
    {
        if other.cost < self.cost {
            *self = other;
        }
    }
}

/// The decoder's error taxonomy.
#[derive(Clone, Copy, Debug, PartialEq, Eq)]
pub enum ViterbiError {
    /// Two initial states interned identically during seeding.
    DuplicateInitialState,
    /// `best_path` was asked of an engine with no surviving layers.
    EmptyDecoder,
    /// An invariant breach: an interned id without its record, or an
    /// invalid reference. The verified engine never produces it; the
    /// variant is retained as part of the taxonomy callers match on.
    InternalConsistency,
}

/// One frontier layer: a bijective interning of structurally-equal states
/// into dense ids (the id of a state is its index in `states`), with one
/// `StateInfo` per id.
#[derive(Debug)]
pub struct ViterbiStep<S> {
    states: Vec<S>,
    infos: Vec<StateInfo>,
}

/// Does the layer hold an entry for state `s`?
pub open spec fn layer_has<S>(layer: Seq<(S, StateInfo)>, s: S) -> bool {
    exists|i: int| 0 <= i < layer.len() && layer[i].0 == s
}

/// The id under which the layer interns `s` (meaningful when `layer_has`).
pub open spec fn layer_id_of<S>(layer: Seq<(S, StateInfo)>, s: S) -> int {
    choose|i: int| 0 <= i < layer.len() && layer[i].0 == s
}

/// States interned at pairwise distinct ids are pairwise distinct values.
pub open spec fn layer_distinct<S>(layer: Seq<(S, StateInfo)>) -> bool {
    forall|i: int, j: int|
        0 <= i < j < layer.len() ==> layer[i].0 != layer[j].0
}

/// Relaxation of one candidate `(s, info)` into a layer: a new state is
/// appended; for an interned state the stored record survives unless the
/// candidate is strictly cheaper (ties keep the first-seen record).
pub open spec fn relaxed<S>(layer: Seq<(S, StateInfo)>, s: S, info: StateInfo) -> Seq<
    (S, StateInfo),
> {
    if layer_has(layer, s) {
        let i = layer_id_of(layer, s);
        if info.cost < layer[i].1.cost {
            layer.update(i, (s, info))
        } else {
            layer
        }
    } else {
        layer.push((s, info))
    }
}

impl<S: State> ViterbiStep<S> {
    /// The layer's contents: the interned (state, record) pairs in id order.
    pub closed spec fn entries(&self) -> Seq<(S, StateInfo)> {
        Seq::new(self.states@.len(), |i: int| (self.states@[i], self.infos@[i]))
    }

    /// Interning is bijective: ids and records line up, states are distinct.
    pub closed spec fn wf(&self) -> bool {
        &&& self.states@.len() == self.infos@.len()
        &&& layer_distinct(self.entries())
    }

    /// An empty layer.
    pub fn new() -> (r: ViterbiStep<S>)
        ensures
            r.wf(),
            r.entries() == Seq::<(S, StateInfo)>::empty(),
    {
        let r = ViterbiStep { states: Vec::new(), infos: Vec::new() };
        proof {
            assert(r.entries() =~= Seq::<(S, StateInfo)>::empty());
        }
        r
    }

    /// The number of interned states.
    pub fn len(&self) -> (r: usize)
        requires
            self.wf(),
        ensures
            r == self.entries().len(),
    {
        self.states.len()
    }

    /// The id under which `s` is interned, if it is.
    fn find(&self, s: &S) -> (r: Option<usize>)
        requires
            self.wf(),
        ensures
            match r {
                Some(i) => i < self.entries().len() && self.entries()[i as int].0 == *s,
                None => !layer_has(self.entries(), *s),
            },
    {
        let n = self.states.len();
        let mut i: usize = 0;
        while i < n
            invariant
                self.wf(),
                n == self.entries().len(),
                0 <= i <= n,
                forall|j: int| 0 <= j < i ==> self.entries()[j].0 != *s,
            decreases n - i,
        {
            if self.states[i].eq_state(s) {
                return Some(i);
            }
            i = i + 1;
        }
        None
    }

    /// Relax a candidate into this layer (see `relaxed`).
    pub fn update(&mut self, state: S, info: StateInfo)
        requires
            old(self).wf(),
        ensures
            final(self).wf(),
            final(self).entries() == relaxed(old(self).entries(), state, info),
    {
        let found = self.find(&state);
        match found {
            Some(i) => {
                proof {
                    let e = self.entries();
                    assert(layer_has(e, state));
                    let w = layer_id_of(e, state);
                    // interned states are distinct, so the witness is i itself
                    assert(e[w].0 == state);
                    assert(w == i) by {
                        if w != i {
                            assert(e[w].0 != e[i as int].0);
                        }
                    }
                }
                if info.cost < self.infos[i].cost {
                    self.infos.set(i, info);
                    proof {
                        assert(final(self).entries() =~= relaxed(
                            old(self).entries(),
                            state,
                            info,
                        ));
                    }
                }
            },
            None => {
                self.states.push(state);
                self.infos.push(info);
                proof {
                    assert(final(self).entries() =~= old(self).entries().push((state, info)));
                    let e2 = final(self).entries();
                    let e1 = old(self).entries();
                    assert forall|i: int, j: int| 0 <= i < j < e2.len() implies e2[i].0 != e2[j].0 by {
                        if j < e1.len() {
                        } else {
                            assert(e2[j].0 == state);
                            assert(!layer_has(e1, state));
                            assert(e1[i].0 != state);
                        }
                    }
                }
            },
        }
    }
}

/// What `emit` returns: the state anchored against `input`, its record
/// advanced by what the emission consumed and cost; `None` if the state is
/// not yet emittable there.
pub open spec fn spec_emit<S: State>(state: S, info: StateInfo, input: Seq<S::InputSymbol>) -> Option<(S, StateInfo)> {
    match state.spec_emission(input) {
        Some(de) => Some(
            (
                state,
                StateInfo {
                    input_idx: (info.input_idx + de.0) as usize,
                    cost: spec_sat_add(info.cost, de.1),
                    parent_idx: info.parent_idx,
                },
            ),
        ),
        None => None,
    }
}

/// Anchor `state` against `input`, advancing its record by the emission's
/// consumed count and cost; `None` drops the candidate.
pub fn emit<S: State>(state: S, stateinfo: StateInfo, input: &[S::InputSymbol]) -> (r: Option<
    (S, StateInfo),
>)
    requires
        stateinfo.input_idx + input@.len() <= usize::MAX,
    ensures
        r == spec_emit(state, stateinfo, input@),
{
    proof {
        state.emission_consumes(input@);
    }
    match state.emission(input) {
        Some((d, c)) => Some(
            (
                state,
                StateInfo {
                    input_idx: stateinfo.input_idx + d,
                    cost: sat_add(stateinfo.cost, c),
                    parent_idx: stateinfo.parent_idx,
                },
            ),
        ),
        None => None,
    }
}

/// The admissible successors offered by a children list against an input
/// suffix: children whose emission succeeds, as (successor, transition
/// cost + emission cost, consumed count) triples, in children order.
pub open spec fn admissible_from<S: State>(
    children: Seq<(S, u64)>,
    sfx: Seq<S::InputSymbol>,
) -> Seq<(S, u64, usize)>
    decreases children.len(),
{
    if children.len() == 0 {
        Seq::empty()
    } else {
        let rest = admissible_from(children.drop_first(), sfx);
        match children[0].0.spec_emission(sfx) {
            Some(de) => seq![(children[0].0, spec_sat_add(children[0].1, de.1), de.0)] + rest,
            None => rest,
        }
    }
}

/// Enumerate `s`'s children and admit each against the unconsumed suffix:
/// a child is admitted only if its emission succeeds, carrying combined
/// transition + emission cost and its consumed count. Children with failed
/// emission are pruned permanently.
pub fn children_with_emission<S: State>(s: &S, input: &[S::InputSymbol]) -> (r: Vec<
    (S, u64, usize),
>)
    ensures
        r@ == admissible_from(s.spec_children(), input@),
{
    let children = s.children();
    let mut r: Vec<(S, u64, usize)> = Vec::new();
    let n = children.len();
    let mut j: usize = 0;
    proof {
        assert(r@ + admissible_from(children@.skip(0), input@) =~= admissible_from(
            children@,
            input@,
        )) by {
            assert(children@.skip(0) =~= children@);
        }
    }
    while j < n
        invariant
            children@ == s.spec_children(),
            n == children@.len(),
            0 <= j <= n,
            r@ + admissible_from(children@.skip(j as int), input@) == admissible_from(
                children@,
                input@,
            ),
        decreases n - j,
    {
        let c = children[j].0.clone_state();
        let t = children[j].1;
        let ghost mid = children@.skip(j as int);
        proof {
            assert(mid[0] == children@[j as int]);
            assert(mid.drop_first() =~= children@.skip(j as int + 1));
        }
        match c.emission(input) {
            Some((d, e)) => {
                r.push((c, sat_add(t, e), d));
            },
            None => {},
        }
        j = j + 1;
        proof {
            assert(r@ + admissible_from(children@.skip(j as int), input@) =~= admissible_from(
                children@,
                input@,
            ));
        }
    }
    proof {
        assert(children@.skip(n as int) =~= Seq::<(S, u64)>::empty());
        assert(r@ =~= r@ + admissible_from(children@.skip(n as int), input@));
    }
    r
}

/// Two entries of the list intern the same state.
pub open spec fn has_dup<S>(l: Seq<(S, StateInfo)>) -> bool {
    exists|i: int, j: int| 0 <= i < j < l.len() && l[i].0 == l[j].0
}

impl<S: State> ViterbiStep<S> {
    /// Build the seed layer from already-emitted (state, record) pairs.
    /// Interning two structurally-equal states here is an error.
    pub fn from_iter(initial: Vec<(S, StateInfo)>) -> (r: Result<ViterbiStep<S>, ViterbiError>)
        ensures
            match r {
                Ok(st) => st.wf() && st.entries() == initial@ && !has_dup(initial@),
                Err(e) => e == ViterbiError::DuplicateInitialState && has_dup(initial@),
            },
    {
        let mut result = Self::new();
        let n = initial.len();
        let mut i: usize = 0;
        while i < n
            invariant
                result.wf(),
                n == initial@.len(),
                0 <= i <= n,
                result.entries() == initial@.take(i as int),
            decreases n - i,
        {
            let s = initial[i].0.clone_state();
            let info = initial[i].1;
            match result.find(&s) {
                Some(w) => {
                    proof {
                        assert(initial@.take(i as int)[w as int].0 == initial@[w as int].0);
                        assert(initial@[w as int].0 == initial@[i as int].0);
                    }
                    return Err(ViterbiError::DuplicateInitialState);
                },
                None => {
                    result.update(s, info);
                    proof {
                        assert(result.entries() =~= initial@.take(i as int + 1));
                    }
                },
            }
            i = i + 1;
        }
        proof {
            assert(initial@.take(n as int) =~= initial@);
            assert(!has_dup(initial@)) by {
                if has_dup(initial@) {
                    let (a, b) = choose|a: int, b: int|
                        0 <= a < b < initial@.len() && initial@[a].0 == initial@[b].0;
                    assert(result.entries()[a].0 != result.entries()[b].0);
                }
            }
        }
        Ok(result)
    }
}

/// The record a candidate carries into the next layer: consumption
/// advanced by `d`, cost grown by `c`, backpointer to its parent's id.
pub open spec fn cand_info(prev: StateInfo, pid: int, c: u64, d: usize) -> StateInfo {
    StateInfo {
        input_idx: (prev.input_idx + d) as usize,
        cost: spec_sat_add(prev.cost, c),
        parent_idx: Some(pid as usize),
    }
}

/// Relax a whole admissible-successor list of one parent into a layer.
pub open spec fn relax_all<S>(
    layer: Seq<(S, StateInfo)>,
    cands: Seq<(S, u64, usize)>,
    prev: StateInfo,
    pid: int,
) -> Seq<(S, StateInfo)>
    decreases cands.len(),
{
    if cands.len() == 0 {
        layer
    } else {
        relax_all(
            relaxed(layer, cands[0].0, cand_info(prev, pid, cands[0].1, cands[0].2)),
            cands.drop_first(),
            prev,
            pid,
        )
    }
}

/// Expand the parents of `prev` from id `k` on into `layer`: each parent's
/// admissible successors, judged against the input suffix that parent has
/// not yet consumed, are relaxed in id order.
pub open spec fn expand_from<S: State>(
    layer: Seq<(S, StateInfo)>,
    prev: Seq<(S, StateInfo)>,
    k: int,
    input: Seq<S::InputSymbol>,
) -> Seq<(S, StateInfo)>
    decreases prev.len() - k,
{
    if k < 0 || k >= prev.len() {
        layer
    } else {
        expand_from(
            relax_all(
                layer,
                admissible_from(
                    prev[k].0.spec_children(),
                    input.skip(prev[k].1.input_idx as int),
                ),
                prev[k].1,
                k,
            ),
            prev,
            k + 1,
            input,
        )
    }
}

/// The next frontier, before pruning: all of `prev`'s admissible
/// successors relaxed into a fresh layer.
pub open spec fn step_spec<S: State>(
    prev: Seq<(S, StateInfo)>,
    input: Seq<S::InputSymbol>,
) -> Seq<(S, StateInfo)> {
    expand_from(Seq::empty(), prev, 0, input)
}

/// The deterministic beam order: `j` beats `i` if it is strictly cheaper,
/// or equally cheap with the smaller (earlier-interned) id.
pub open spec fn cheaper<S>(layer: Seq<(S, StateInfo)>, j: int, i: int) -> bool {
    layer[j].1.cost < layer[i].1.cost || (layer[j].1.cost == layer[i].1.cost && j < i)
}

/// How many of the first `n` entries beat entry `i` in the beam order.
pub open spec fn rank_upto<S>(layer: Seq<(S, StateInfo)>, i: int, n: int) -> int
    decreases n,
{
    if n <= 0 {
        0
    } else {
        rank_upto(layer, i, n - 1) + (if cheaper(layer, n - 1, i) {
            1int
        } else {
            0int
        })
    }
}

/// Entry `i`'s position in the beam order: the number of entries that beat it.
pub open spec fn rank<S>(layer: Seq<(S, StateInfo)>, i: int) -> int {
    rank_upto(layer, i, layer.len() as int)
}

/// The first `n` entries that place among the `max` best of the beam
/// order, in id order.
pub open spec fn cull_upto<S>(layer: Seq<(S, StateInfo)>, max: int, n: int) -> Seq<(S, StateInfo)>
    decreases n,
{
    if n <= 0 {
        Seq::empty()
    } else {
        cull_upto(layer, max, n - 1) + (if rank(layer, n - 1) < max {
            seq![layer[n - 1]]
        } else {
            Seq::empty()
        })
    }
}

/// Beam pruning: retain exactly the entries placing among the `max` best.
pub open spec fn cull_spec<S>(layer: Seq<(S, StateInfo)>, max: int) -> Seq<(S, StateInfo)> {
    cull_upto(layer, max, layer.len() as int)
}

/// The first `n` entries whose cost does not exceed `maxc`, in id order.
pub open spec fn bound_upto<S>(layer: Seq<(S, StateInfo)>, maxc: u64, n: int) -> Seq<
    (S, StateInfo),
>
    decreases n,
{
    if n <= 0 {
        Seq::empty()
    } else {
        bound_upto(layer, maxc, n - 1) + (if layer[n - 1].1.cost <= maxc {
            seq![layer[n - 1]]
        } else {
            Seq::empty()
        })
    }
}

/// Cost-bound pruning: discard every entry whose cost exceeds `maxc`.
pub open spec fn bound_spec<S>(layer: Seq<(S, StateInfo)>, maxc: u64) -> Seq<(S, StateInfo)> {
    bound_upto(layer, maxc, layer.len() as int)
}

impl<S: State> ViterbiStep<S> {
    /// Beam-prune this layer: keep exactly the entries placing among the
    /// `max` best in the beam order (cost ascending, earlier id on ties).
    pub fn cull(&mut self, max: usize)
        requires
            old(self).wf(),
        ensures
            final(self).wf(),
            final(self).entries() == cull_spec(old(self).entries(), max as int),
    {
        let ghost e = old(self).entries();
        let n = self.states.len();
        let mut new_states: Vec<S> = Vec::new();
        let mut new_infos: Vec<StateInfo> = Vec::new();
        let ghost mut kept: Seq<int> = Seq::empty();
        let mut i: usize = 0;
        proof {
            assert(Seq::new(new_states@.len(), |a: int| (new_states@[a], new_infos@[a]))
                =~= cull_upto(e, max as int, 0));
        }
        while i < n
            invariant
                self.wf(),
                self.entries() == e,
                n == e.len(),
                0 <= i <= n,
                new_states@.len() == new_infos@.len(),
                new_states@.len() == kept.len(),
                forall|a: int| 0 <= a < kept.len() ==> 0 <= #[trigger] kept[a] < i,
                forall|a: int, b: int| 0 <= a < b < kept.len() ==> kept[a] < kept[b],
                forall|a: int|
                    0 <= a < kept.len() ==> (new_states@[a], new_infos@[a]) == e[kept[a]],
                Seq::new(new_states@.len(), |a: int| (new_states@[a], new_infos@[a]))
                    == cull_upto(e, max as int, i as int),
            decreases n - i,
        {
            let mut cnt: usize = 0;
            let mut j: usize = 0;
            while j < n
                invariant
                    self.wf(),
                    self.entries() == e,
                    n == e.len(),
                    0 <= j <= n,
                    i < n,
                    cnt <= j,
                    cnt == rank_upto(e, i as int, j as int),
                decreases n - j,
            {
                let cj = self.infos[j].cost;
                let ci = self.infos[i].cost;
                if cj < ci || (cj == ci && j < i) {
                    cnt = cnt + 1;
                }
                j = j + 1;
            }
            if cnt < max {
                new_states.push(self.states[i].clone_state());
                new_infos.push(self.infos[i]);
                proof {
                    kept = kept.push(i as int);
                }
            }
            i = i + 1;
            proof {
                assert(Seq::new(new_states@.len(), |a: int| (new_states@[a], new_infos@[a]))
                    =~= cull_upto(e, max as int, i as int));
            }
        }
        self.states = new_states;
        self.infos = new_infos;
        proof {
            assert(final(self).entries() =~= cull_upto(e, max as int, n as int));
            assert forall|a: int, b: int|
                0 <= a < b < final(self).entries().len() implies final(self).entries()[a].0
                != final(self).entries()[b].0 by {
                assert(e[kept[a]].0 != e[kept[b]].0);
            }
        }
    }

    /// Cost-bound prune this layer: discard entries costing more than `maxc`.
    pub fn bound_cost(&mut self, maxc: u64)
        requires
            old(self).wf(),
        ensures
            final(self).wf(),
            final(self).entries() == bound_spec(old(self).entries(), maxc),
    {
        let ghost e = old(self).entries();
        let n = self.states.len();
        let mut new_states: Vec<S> = Vec::new();
        let mut new_infos: Vec<StateInfo> = Vec::new();
        let ghost mut kept: Seq<int> = Seq::empty();
        let mut i: usize = 0;
        proof {
            assert(Seq::new(new_states@.len(), |a: int| (new_states@[a], new_infos@[a]))
                =~= bound_upto(e, maxc, 0));
        }
        while i < n
            invariant
                self.wf(),
                self.entries() == e,
                n == e.len(),
                0 <= i <= n,
                new_states@.len() == new_infos@.len(),
                new_states@.len() == kept.len(),
                forall|a: int| 0 <= a < kept.len() ==> 0 <= #[trigger] kept[a] < i,
                forall|a: int, b: int| 0 <= a < b < kept.len() ==> kept[a] < kept[b],
                forall|a: int|
                    0 <= a < kept.len() ==> (new_states@[a], new_infos@[a]) == e[kept[a]],
                Seq::new(new_states@.len(), |a: int| (new_states@[a], new_infos@[a]))
                    == bound_upto(e, maxc, i as int),
            decreases n - i,
        {
            if self.infos[i].cost <= maxc {
                new_states.push(self.states[i].clone_state());
                new_infos.push(self.infos[i]);
                proof {
                    kept = kept.push(i as int);
                }
            }
            i = i + 1;
            proof {
                assert(Seq::new(new_states@.len(), |a: int| (new_states@[a], new_infos@[a]))
                    =~= bound_upto(e, maxc, i as int));
            }
        }
        self.states = new_states;
        self.infos = new_infos;
        proof {
            assert(final(self).entries() =~= bound_upto(e, maxc, n as int));
            assert forall|a: int, b: int|
                0 <= a < b < final(self).entries().len() implies final(self).entries()[a].0
                != final(self).entries()[b].0 by {
                assert(e[kept[a]].0 != e[kept[b]].0);
            }
        }
    }
}

/// Both configured pruning passes, beam bound first, then cost bound.
pub open spec fn pruned<S>(
    layer: Seq<(S, StateInfo)>,
    maxs: Option<usize>,
    maxc: Option<u64>,
) -> Seq<(S, StateInfo)> {
    let l1 = match maxs {
        Some(m) => cull_spec(layer, m as int),
        None => layer,
    };
    match maxc {
        Some(c) => bound_spec(l1, c),
        None => l1,
    }
}

/// Every record of the layer has its consumption index within `[lo, hi]`.
pub open spec fn entries_idx_bounded<S>(layer: Seq<(S, StateInfo)>, lo: int, hi: int) -> bool {
    forall|a: int| 0 <= a < layer.len() ==> lo <= (#[trigger] layer[a]).1.input_idx <= hi
}

/// Every record of the layer points at a valid id of the previous layer.
pub open spec fn entries_parents_into<S>(layer: Seq<(S, StateInfo)>, plen: int) -> bool {
    forall|a: int|
        0 <= a < layer.len() ==> ((#[trigger] layer[a]).1.parent_idx matches Some(p) && 0 <= p
            < plen)
}

/// Every record of the layer is a seed record, without a backpointer.
pub open spec fn entries_parents_none<S>(layer: Seq<(S, StateInfo)>) -> bool {
    forall|a: int| 0 <= a < layer.len() ==> (#[trigger] layer[a]).1.parent_idx is None
}

/// Admitted successors consume at least one symbol and at most the suffix.
pub proof fn lemma_admissible_bounds<S: State>(children: Seq<(S, u64)>, sfx: Seq<S::InputSymbol>)
    ensures
        forall|m: int|
            0 <= m < admissible_from(children, sfx).len() ==> 1 <= (#[trigger] admissible_from(
                children,
                sfx,
            )[m]).2 <= sfx.len(),
    decreases children.len(),
{
    if children.len() > 0 {
        lemma_admissible_bounds(children.drop_first(), sfx);
        children[0].0.emission_consumes(sfx);
        let all = admissible_from(children, sfx);
        let rest = admissible_from(children.drop_first(), sfx);
        match children[0].0.spec_emission(sfx) {
            Some(de) => {
                assert forall|m: int| 0 <= m < all.len() implies 1 <= (#[trigger] all[m]).2
                    <= sfx.len() by {
                    if m > 0 {
                        assert(all[m] == rest[m - 1]);
                    }
                }
            },
            None => {
                assert(all == rest);
            },
        }
    }
}

/// Relaxation only ever stores the candidate record or records already
/// present, so pointwise record bounds survive it.
pub proof fn lemma_relaxed_bounds<S>(
    layer: Seq<(S, StateInfo)>,
    s: S,
    info: StateInfo,
    lo: int,
    hi: int,
    plen: int,
)
    requires
        entries_idx_bounded(layer, lo, hi),
        entries_parents_into(layer, plen),
        lo <= info.input_idx <= hi,
        info.parent_idx matches Some(p) && 0 <= p < plen,
    ensures
        entries_idx_bounded(relaxed(layer, s, info), lo, hi),
        entries_parents_into(relaxed(layer, s, info), plen),
{
    let r = relaxed(layer, s, info);
    assert forall|a: int| 0 <= a < r.len() implies lo <= (#[trigger] r[a]).1.input_idx <= hi && (
    r[a].1.parent_idx matches Some(p) && 0 <= p < plen) by {
        if layer_has(layer, s) {
            let i = layer_id_of(layer, s);
            if info.cost < layer[i].1.cost {
                if a != i {
                    assert(r[a] == layer[a]);
                }
            }
        } else {
            if a < layer.len() {
                assert(r[a] == layer[a]);
            }
        }
    }
}

/// `lemma_relaxed_bounds`, folded over a whole candidate list.
pub proof fn lemma_relax_all_bounds<S>(
    layer: Seq<(S, StateInfo)>,
    cands: Seq<(S, u64, usize)>,
    prev: StateInfo,
    pid: int,
    lo: int,
    hi: int,
    plen: int,
)
    requires
        entries_idx_bounded(layer, lo, hi),
        entries_parents_into(layer, plen),
        forall|m: int| 0 <= m < cands.len() ==> 1 <= (#[trigger] cands[m]).2,
        forall|m: int| 0 <= m < cands.len() ==> prev.input_idx + (#[trigger] cands[m]).2 <= hi,
        lo <= prev.input_idx + 1,
        0 <= pid < plen,
        pid <= usize::MAX,
        hi <= usize::MAX,
    ensures
        entries_idx_bounded(relax_all(layer, cands, prev, pid), lo, hi),
        entries_parents_into(relax_all(layer, cands, prev, pid), plen),
    decreases cands.len(),
{
    if cands.len() > 0 {
        let info = cand_info(prev, pid, cands[0].1, cands[0].2);
        assert(prev.input_idx + cands[0].2 <= hi);
        lemma_relaxed_bounds(layer, cands[0].0, info, lo, hi, plen);
        let layer1 = relaxed(layer, cands[0].0, info);
        assert(forall|m: int|
            0 <= m < cands.drop_first().len() ==> (#[trigger] cands.drop_first()[m])
                == cands[m + 1]);
        lemma_relax_all_bounds(layer1, cands.drop_first(), prev, pid, lo, hi, plen);
    }
}

/// Expanding a frontier whose records consumed within `[lo, hi]` yields
/// records that consumed within `[lo + 1, hi]`, with backpointers into the
/// frontier. `hi` is the input length: consumption never passes the input.
pub proof fn lemma_expand_bounds<S: State>(
    layer: Seq<(S, StateInfo)>,
    prev: Seq<(S, StateInfo)>,
    k: int,
    input: Seq<S::InputSymbol>,
    lo: int,
)
    requires
        entries_idx_bounded(prev, lo, input.len() as int),
        entries_idx_bounded(layer, lo + 1, input.len() as int),
        entries_parents_into(layer, prev.len() as int),
        0 <= lo,
        input.len() <= usize::MAX,
        prev.len() <= usize::MAX,
    ensures
        entries_idx_bounded(expand_from(layer, prev, k, input), lo + 1, input.len() as int),
        entries_parents_into(expand_from(layer, prev, k, input), prev.len() as int),
    decreases prev.len() - k,
{
    if 0 <= k < prev.len() {
        let sfx = input.skip(prev[k].1.input_idx as int);
        let cands = admissible_from(prev[k].0.spec_children(), sfx);
        lemma_admissible_bounds(prev[k].0.spec_children(), sfx);
        assert(sfx.len() == input.len() - prev[k].1.input_idx);
        lemma_relax_all_bounds(
            layer,
            cands,
            prev[k].1,
            k,
            lo + 1,
            input.len() as int,
            prev.len() as int,
        );
        lemma_expand_bounds(relax_all(layer, cands, prev[k].1, k), prev, k + 1, input, lo);
    }
}

/// Beam pruning keeps a selection of the layer's own entries, so pointwise
/// record bounds survive it.
pub proof fn lemma_cull_bounds<S>(
    layer: Seq<(S, StateInfo)>,
    max: int,
    n: int,
    lo: int,
    hi: int,
    plen: int,
)
    requires
        entries_idx_bounded(layer, lo, hi),
        entries_parents_into(layer, plen),
        n <= layer.len(),
    ensures
        entries_idx_bounded(cull_upto(layer, max, n), lo, hi),
        entries_parents_into(cull_upto(layer, max, n), plen),
    decreases n,
{
    if n > 0 {
        lemma_cull_bounds(layer, max, n - 1, lo, hi, plen);
    }
}

/// Cost-bound pruning keeps a selection of the layer's own entries, so
/// pointwise record bounds survive it.
pub proof fn lemma_bound_bounds<S>(
    layer: Seq<(S, StateInfo)>,
    maxc: u64,
    n: int,
    lo: int,
    hi: int,
    plen: int,
)
    requires
        entries_idx_bounded(layer, lo, hi),
        entries_parents_into(layer, plen),
        n <= layer.len(),
    ensures
        entries_idx_bounded(bound_upto(layer, maxc, n), lo, hi),
        entries_parents_into(bound_upto(layer, maxc, n), plen),
    decreases n,
{
    if n > 0 {
        lemma_bound_bounds(layer, maxc, n - 1, lo, hi, plen);
    }
}

/// Bounds for a finished, pruned successor frontier.
pub proof fn lemma_next_layer_bounds<S: State>(
    prev: Seq<(S, StateInfo)>,
    input: Seq<S::InputSymbol>,
    maxs: Option<usize>,
    maxc: Option<u64>,
    lo: int,
)
    requires
        entries_idx_bounded(prev, lo, input.len() as int),
        0 <= lo,
        input.len() <= usize::MAX,
        prev.len() <= usize::MAX,
    ensures
        entries_idx_bounded(pruned(step_spec(prev, input), maxs, maxc), lo + 1, input.len() as int),
        entries_parents_into(pruned(step_spec(prev, input), maxs, maxc), prev.len() as int),
{
    lemma_expand_bounds(Seq::empty(), prev, 0, input, lo);
    let raw = step_spec(prev, input);
    let l1 = match maxs {
        Some(m) => cull_spec(raw, m as int),
        None => raw,
    };
    match maxs {
        Some(m) => lemma_cull_bounds(
            raw,
            m as int,
            raw.len() as int,
            lo + 1,
            input.len() as int,
            prev.len() as int,
        ),
        None => (),
    }
    match maxc {
        Some(c) => lemma_bound_bounds(
            l1,
            c,
            l1.len() as int,
            lo + 1,
            input.len() as int,
            prev.len() as int,
        ),
        None => (),
    }
}

/// The seed layer: each initial (state, cost) pair emitted once against
/// the full input; pairs whose emission fails are dropped.
pub open spec fn seeded<S: State>(
    initial: Seq<(S, u64)>,
    input: Seq<S::InputSymbol>,
) -> Seq<(S, StateInfo)>
    decreases initial.len(),
{
    if initial.len() == 0 {
        Seq::empty()
    } else {
        let rest = seeded(initial.drop_first(), input);
        match spec_emit(
            initial[0].0,
            StateInfo { input_idx: 0, cost: initial[0].1, parent_idx: None },
            input,
        ) {
            Some(e) => seq![e] + rest,
            None => rest,
        }
    }
}

/// What a completed decode leaves behind: the seed layer, then each layer
/// the pruned expansion of the one before, every retained layer nonempty,
/// and the expansion of the last layer empty — the engine stops at the
/// first empty layer and discards it. An empty seed layer is discarded
/// too, leaving no layers at all. Every clause pins its layer uniquely, so
/// a decode's outcome is a function of its inputs alone.
pub open spec fn is_run<S: State>(
    layers: Seq<Seq<(S, StateInfo)>>,
    seed: Seq<(S, StateInfo)>,
    input: Seq<S::InputSymbol>,
    maxs: Option<usize>,
    maxc: Option<u64>,
) -> bool {
    if seed.len() == 0 {
        layers.len() == 0
    } else {
        &&& layers.len() >= 1
        &&& layers[0] == seed
        &&& forall|k: int|
            1 <= k < layers.len() ==> #[trigger] layers[k] == pruned(
                step_spec(layers[k - 1], input),
                maxs,
                maxc,
            )
        &&& forall|k: int| 0 <= k < layers.len() ==> (#[trigger] layers[k]).len() > 0
        &&& pruned(step_spec(layers[layers.len() - 1], input), maxs, maxc).len() == 0
    }
}

/// Layers agree on every index shared by two decodes of the same inputs.
proof fn lemma_run_prefix<S: State>(
    a: Seq<Seq<(S, StateInfo)>>,
    b: Seq<Seq<(S, StateInfo)>>,
    seed: Seq<(S, StateInfo)>,
    input: Seq<S::InputSymbol>,
    maxs: Option<usize>,
    maxc: Option<u64>,
    k: int,
)
    requires
        is_run(a, seed, input, maxs, maxc),
        is_run(b, seed, input, maxs, maxc),
        seed.len() > 0,
        0 <= k < a.len(),
        k < b.len(),
    ensures
        a[k] == b[k],
    decreases k,
{
    if k > 0 {
        lemma_run_prefix(a, b, seed, input, maxs, maxc, k - 1);
    }
}

/// Determinism: a decode's layers are a function of the seed layer, the
/// input and the pruning bounds alone — two runs over identical inputs
/// retain identical layers, and therefore identical reconstructed paths,
/// since `best_path`'s result is pinned to the layers by `path_states`.
pub proof fn lemma_run_deterministic<S: State>(
    a: Seq<Seq<(S, StateInfo)>>,
    b: Seq<Seq<(S, StateInfo)>>,
    seed: Seq<(S, StateInfo)>,
    input: Seq<S::InputSymbol>,
    maxs: Option<usize>,
    maxc: Option<u64>,
)
    requires
        is_run(a, seed, input, maxs, maxc),
        is_run(b, seed, input, maxs, maxc),
    ensures
        a == b,
{
    if seed.len() == 0 {
        assert(a =~= b);
    } else {
        if a.len() < b.len() {
            lemma_run_prefix(a, b, seed, input, maxs, maxc, a.len() - 1);
            assert(b[a.len() as int] == pruned(step_spec(b[a.len() - 1], input), maxs, maxc));
            assert(b[a.len() as int].len() > 0);
            assert(false);
        }
        if b.len() < a.len() {
            lemma_run_prefix(a, b, seed, input, maxs, maxc, b.len() - 1);
            assert(a[b.len() as int] == pruned(step_spec(a[b.len() - 1], input), maxs, maxc));
            assert(a[b.len() as int].len() > 0);
            assert(false);
        }
        assert forall|k: int| 0 <= k < a.len() implies a[k] == b[k] by {
            lemma_run_prefix(a, b, seed, input, maxs, maxc, k);
        }
        assert(a =~= b);
    }
}

/// Every record the layer stores for `s` costs at most `c`.
pub open spec fn costs_at_most<S>(layer: Seq<(S, StateInfo)>, s: S, c: u64) -> bool {
    forall|i: int|
        0 <= i < layer.len() && (#[trigger] layer[i]).0 == s ==> layer[i].1.cost <= c
}

/// Relaxation keeps interned states pairwise distinct.
pub proof fn lemma_relaxed_distinct<S>(layer: Seq<(S, StateInfo)>, s: S, info: StateInfo)
    requires
        layer_distinct(layer),
    ensures
        layer_distinct(relaxed(layer, s, info)),
{
    let r = relaxed(layer, s, info);
    if layer_has(layer, s) {
        let id = layer_id_of(layer, s);
        if info.cost < layer[id].1.cost {
            assert forall|i: int, j: int| 0 <= i < j < r.len() implies r[i].0 != r[j].0 by {
                assert(r[i].0 == layer[i].0);
                assert(r[j].0 == layer[j].0);
            }
        }
    } else {
        assert forall|i: int, j: int| 0 <= i < j < r.len() implies r[i].0 != r[j].0 by {
            if j == layer.len() {
                assert(r[j].0 == s);
                assert(r[i].0 == layer[i].0);
            }
        }
    }
}

/// After relaxing `(s, info)`, the layer holds `s` at a cost no higher
/// than `info.cost`.
pub proof fn lemma_relaxed_inserted<S>(layer: Seq<(S, StateInfo)>, s: S, info: StateInfo)
    requires
        layer_distinct(layer),
    ensures
        layer_has(relaxed(layer, s, info), s),
        costs_at_most(relaxed(layer, s, info), s, info.cost),
{
    let r = relaxed(layer, s, info);
    if layer_has(layer, s) {
        let id = layer_id_of(layer, s);
        assert(0 <= id < layer.len() && layer[id].0 == s);
        assert forall|p: int| 0 <= p < layer.len() && (#[trigger] layer[p]).0 == s implies p
            == id by {
            if p != id {
                assert(layer[p].0 != layer[id].0);
            }
        }
        if info.cost < layer[id].1.cost {
            assert(r[id] == (s, info));
            assert(layer_has(r, s));
            assert forall|p: int|
                0 <= p < r.len() && (#[trigger] r[p]).0 == s implies r[p].1.cost
                <= info.cost by {
                if p != id {
                    assert(r[p] == layer[p]);
                }
            }
        } else {
            assert forall|p: int|
                0 <= p < r.len() && (#[trigger] r[p]).0 == s implies r[p].1.cost
                <= info.cost by {
                assert(p == id);
            }
        }
    } else {
        assert(r[layer.len() as int] == (s, info));
        assert forall|p: int|
            0 <= p < r.len() && (#[trigger] r[p]).0 == s implies r[p].1.cost <= info.cost by {
            if p < layer.len() {
                assert(layer[p].0 != s);
            }
        }
    }
}

/// Relaxing other candidates never raises, nor evicts, a stored state.
pub proof fn lemma_relaxed_monotone<S>(
    layer: Seq<(S, StateInfo)>,
    s: S,
    info: StateInfo,
    x: S,
    c: u64,
)
    requires
        layer_has(layer, x),
        costs_at_most(layer, x, c),
    ensures
        layer_has(relaxed(layer, s, info), x),
        costs_at_most(relaxed(layer, s, info), x, c),
{
    let r = relaxed(layer, s, info);
    let w = choose|w: int| 0 <= w < layer.len() && layer[w].0 == x;
    if layer_has(layer, s) {
        let id = layer_id_of(layer, s);
        if info.cost < layer[id].1.cost {
            assert(r[id] == (s, info));
            assert(r[w].0 == x);
            assert(layer_has(r, x));
            assert forall|p: int|
                0 <= p < r.len() && (#[trigger] r[p]).0 == x implies r[p].1.cost <= c by {
                if p == id {
                    assert(layer[id].0 == s);
                    assert(x == s);
                    assert(layer[p].1.cost <= c);
                } else {
                    assert(r[p] == layer[p]);
                }
            }
        }
    } else {
        assert(r[w] == layer[w]);
        assert(layer_has(r, x));
        assert forall|p: int|
            0 <= p < r.len() && (#[trigger] r[p]).0 == x implies r[p].1.cost <= c by {
            if p < layer.len() {
            } else {
                assert(r[p].0 == s);
                assert(!layer_has(layer, s));
                assert(layer[w].0 == x);
            }
        }
    }
}

/// `lemma_relaxed_distinct`, folded over a candidate list.
pub proof fn lemma_relax_all_distinct<S>(
    layer: Seq<(S, StateInfo)>,
    cands: Seq<(S, u64, usize)>,
    prev: StateInfo,
    pid: int,
)
    requires
        layer_distinct(layer),
    ensures
        layer_distinct(relax_all(layer, cands, prev, pid)),
    decreases cands.len(),
{
    if cands.len() > 0 {
        lemma_relaxed_distinct(layer, cands[0].0, cand_info(prev, pid, cands[0].1, cands[0].2));
        lemma_relax_all_distinct(
            relaxed(layer, cands[0].0, cand_info(prev, pid, cands[0].1, cands[0].2)),
            cands.drop_first(),
            prev,
            pid,
        );
    }
}

/// `lemma_relaxed_monotone`, folded over a candidate list.
pub proof fn lemma_relax_all_monotone<S>(
    layer: Seq<(S, StateInfo)>,
    cands: Seq<(S, u64, usize)>,
    prev: StateInfo,
    pid: int,
    x: S,
    c: u64,
)
    requires
        layer_has(layer, x),
        costs_at_most(layer, x, c),
    ensures
        layer_has(relax_all(layer, cands, prev, pid), x),
        costs_at_most(relax_all(layer, cands, prev, pid), x, c),
    decreases cands.len(),
{
    if cands.len() > 0 {
        let layer1 = relaxed(layer, cands[0].0, cand_info(prev, pid, cands[0].1, cands[0].2));
        lemma_relaxed_monotone(
            layer,
            cands[0].0,
            cand_info(prev, pid, cands[0].1, cands[0].2),
            x,
            c,
        );
        lemma_relax_all_monotone(layer1, cands.drop_first(), prev, pid, x, c);
    }
}

/// After a whole candidate list is relaxed, each candidate's state is
/// held at a cost no higher than that candidate offered.
pub proof fn lemma_relax_all_inserted<S>(
    layer: Seq<(S, StateInfo)>,
    cands: Seq<(S, u64, usize)>,
    prev: StateInfo,
    pid: int,
    m: int,
)
    requires
        layer_distinct(layer),
        0 <= m < cands.len(),
    ensures
        layer_has(relax_all(layer, cands, prev, pid), cands[m].0),
        costs_at_most(
            relax_all(layer, cands, prev, pid),
            cands[m].0,
            spec_sat_add(prev.cost, cands[m].1),
        ),
    decreases cands.len(),
{
    let info0 = cand_info(prev, pid, cands[0].1, cands[0].2);
    let layer1 = relaxed(layer, cands[0].0, info0);
    lemma_relaxed_distinct(layer, cands[0].0, info0);
    if m == 0 {
        lemma_relaxed_inserted(layer, cands[0].0, info0);
        lemma_relax_all_monotone(
            layer1,
            cands.drop_first(),
            prev,
            pid,
            cands[0].0,
            info0.cost,
        );
    } else {
        assert(cands.drop_first()[m - 1] == cands[m]);
        lemma_relax_all_inserted(layer1, cands.drop_first(), prev, pid, m - 1);
    }
}

/// `lemma_relax_all_distinct`, folded over the whole frontier.
pub proof fn lemma_expand_distinct<S: State>(
    layer: Seq<(S, StateInfo)>,
    prev: Seq<(S, StateInfo)>,
    k: int,
    input: Seq<S::InputSymbol>,
)
    requires
        layer_distinct(layer),
    ensures
        layer_distinct(expand_from(layer, prev, k, input)),
    decreases prev.len() - k,
{
    if 0 <= k < prev.len() {
        let cands = admissible_from(prev[k].0.spec_children(), input.skip(prev[k].1.input_idx as int));
        lemma_relax_all_distinct(layer, cands, prev[k].1, k);
        lemma_expand_distinct(relax_all(layer, cands, prev[k].1, k), prev, k + 1, input);
    }
}

/// `lemma_relax_all_monotone`, folded over the whole frontier.
pub proof fn lemma_expand_monotone<S: State>(
    layer: Seq<(S, StateInfo)>,
    prev: Seq<(S, StateInfo)>,
    k: int,
    input: Seq<S::InputSymbol>,
    x: S,
    c: u64,
)
    requires
        layer_has(layer, x),
        costs_at_most(layer, x, c),
    ensures
        layer_has(expand_from(layer, prev, k, input), x),
        costs_at_most(expand_from(layer, prev, k, input), x, c),
    decreases prev.len() - k,
{
    if 0 <= k < prev.len() {
        let cands = admissible_from(prev[k].0.spec_children(), input.skip(prev[k].1.input_idx as int));
        lemma_relax_all_monotone(layer, cands, prev[k].1, k, x, c);
        lemma_expand_monotone(relax_all(layer, cands, prev[k].1, k), prev, k + 1, input, x, c);
    }
}

/// Candidate admission reaches the finished frontier: the admitted
/// state is held at a cost no higher than the candidate offered.
proof fn lemma_expand_inserted<S: State>(
    layer: Seq<(S, StateInfo)>,
    prev: Seq<(S, StateInfo)>,
    k: int,
    input: Seq<S::InputSymbol>,
    k2: int,
    m: int,
)
    requires
        layer_distinct(layer),
        0 <= k <= k2 < prev.len(),
        0 <= m < admissible_from(
            prev[k2].0.spec_children(),
            input.skip(prev[k2].1.input_idx as int),
        ).len(),
    ensures
        ({
            let cands = admissible_from(
                prev[k2].0.spec_children(),
                input.skip(prev[k2].1.input_idx as int),
            );
            let r = expand_from(layer, prev, k, input);
            layer_has(r, cands[m].0) && costs_at_most(
                r,
                cands[m].0,
                spec_sat_add(prev[k2].1.cost, cands[m].1),
            )
        }),
    decreases prev.len() - k,
{
    let cands_k = admissible_from(prev[k].0.spec_children(), input.skip(prev[k].1.input_idx as int));
    let layer1 = relax_all(layer, cands_k, prev[k].1, k);
    lemma_relax_all_distinct(layer, cands_k, prev[k].1, k);
    if k2 == k {
        lemma_relax_all_inserted(layer, cands_k, prev[k].1, k, m);
        lemma_expand_monotone(
            layer1,
            prev,
            k + 1,
            input,
            cands_k[m].0,
            spec_sat_add(prev[k].1.cost, cands_k[m].1),
        );
    } else {
        lemma_expand_inserted(layer1, prev, k + 1, input, k2, m);
    }
}

/// Local relaxation optimality: after a frontier is fully expanded, every
/// admitted candidate's state is stored, and no stored state's cost can
/// be lowered by reconsidering any candidate parent admitted into the
/// same layer in the same pass — the stored cost already sits at or below
/// every admitted candidate's cost for that state.
pub proof fn lemma_layer_locally_optimal<S: State>(
    prev: Seq<(S, StateInfo)>,
    input: Seq<S::InputSymbol>,
    k: int,
    m: int,
)
    requires
        0 <= k < prev.len(),
        0 <= m < admissible_from(
            prev[k].0.spec_children(),
            input.skip(prev[k].1.input_idx as int),
        ).len(),
    ensures
        ({
            let cands = admissible_from(
                prev[k].0.spec_children(),
                input.skip(prev[k].1.input_idx as int),
            );
            layer_has(step_spec(prev, input), cands[m].0) && costs_at_most(
                step_spec(prev, input),
                cands[m].0,
                spec_sat_add(prev[k].1.cost, cands[m].1),
            )
        }),
{
    lemma_expand_inserted(Seq::empty(), prev, 0, input, k, m);
}

/// Saturating addition is monotone in its first argument.
pub proof fn lemma_sat_add_monotone(a1: u64, a2: u64, b: u64)
    requires
        a1 <= a2,
    ensures
        spec_sat_add(a1, b) <= spec_sat_add(a2, b),
{
}

/// A uniform model: every successful emission consumes exactly one
/// symbol, the classical one-observation-per-step shape. Under it, all
/// states of one layer sit at the same consumption offset, so merging
/// structurally-equal states loses no lattice node.
pub open spec fn uniform_model<S: State>() -> bool {
    forall|s: S, sfx: Seq<S::InputSymbol>|
        #[trigger] s.spec_emission(sfx) matches Some(p) ==> p.0 == 1
}

/// Under a uniform model every admitted candidate consumes one symbol.
proof fn lemma_admissible_uniform<S: State>(children: Seq<(S, u64)>, sfx: Seq<S::InputSymbol>)
    requires
        uniform_model::<S>(),
    ensures
        forall|m: int|
            0 <= m < admissible_from(children, sfx).len() ==> (#[trigger] admissible_from(
                children,
                sfx,
            )[m]).2 == 1,
    decreases children.len(),
{
    if children.len() > 0 {
        lemma_admissible_uniform(children.drop_first(), sfx);
        let all = admissible_from(children, sfx);
        let rest = admissible_from(children.drop_first(), sfx);
        match children[0].0.spec_emission(sfx) {
            Some(de) => {
                assert forall|m: int| 0 <= m < all.len() implies (#[trigger] all[m]).2 == 1 by {
                    if m > 0 {
                        assert(all[m] == rest[m - 1]);
                    }
                }
            },
            None => {
                assert(all == rest);
            },
        }
    }
}

/// Every emittable child edge is represented in the admissible list.
proof fn lemma_admissible_complete<S: State>(
    children: Seq<(S, u64)>,
    sfx: Seq<S::InputSymbol>,
    m0: int,
    d: usize,
    e: u64,
)
    requires
        0 <= m0 < children.len(),
        children[m0].0.spec_emission(sfx) == Some((d, e)),
    ensures
        exists|m: int|
            0 <= m < admissible_from(children, sfx).len() && #[trigger] admissible_from(
                children,
                sfx,
            )[m] == (children[m0].0, spec_sat_add(children[m0].1, e), d),
    decreases children.len(),
{
    let all = admissible_from(children, sfx);
    let rest = admissible_from(children.drop_first(), sfx);
    if m0 == 0 {
        assert(all[0] == (children[0].0, spec_sat_add(children[0].1, e), d));
    } else {
        assert(children.drop_first()[m0 - 1] == children[m0]);
        lemma_admissible_complete(children.drop_first(), sfx, m0 - 1, d, e);
        let m = choose|m: int|
            0 <= m < rest.len() && #[trigger] rest[m] == (
                children[m0].0,
                spec_sat_add(children[m0].1, e),
                d,
            );
        match children[0].0.spec_emission(sfx) {
            Some(de0) => {
                assert(all[m + 1] == rest[m]);
            },
            None => {
                assert(all[m] == rest[m]);
            },
        }
    }
}

/// Every admissible candidate arises from an emittable child edge.
proof fn lemma_admissible_origins<S: State>(
    children: Seq<(S, u64)>,
    sfx: Seq<S::InputSymbol>,
    m: int,
)
    requires
        0 <= m < admissible_from(children, sfx).len(),
    ensures
        exists|m0: int, e: u64|
            0 <= m0 < children.len() && children[m0].0 == admissible_from(children, sfx)[m].0
                && children[m0].0.spec_emission(sfx) == Some(
                (admissible_from(children, sfx)[m].2, e),
            ) && admissible_from(children, sfx)[m].1 == #[trigger] spec_sat_add(
                children[m0].1,
                e,
            ),
    decreases children.len(),
{
    let all = admissible_from(children, sfx);
    let rest = admissible_from(children.drop_first(), sfx);
    match children[0].0.spec_emission(sfx) {
        Some(de) => {
            if m == 0 {
                assert(children[0].0 == all[0].0 && children[0].0.spec_emission(sfx) == Some(
                    (all[0].2, de.1),
                ) && all[0].1 == spec_sat_add(children[0].1, de.1));
            } else {
                assert(all[m] == rest[m - 1]);
                lemma_admissible_origins(children.drop_first(), sfx, m - 1);
                let (m0, e) = choose|m0: int, e: u64|
                    0 <= m0 < children.drop_first().len() && children.drop_first()[m0].0
                        == rest[m - 1].0 && children.drop_first()[m0].0.spec_emission(sfx) == Some(
                        (rest[m - 1].2, e),
                    ) && rest[m - 1].1 == #[trigger] spec_sat_add(children.drop_first()[m0].1, e);
                assert(children[m0 + 1] == children.drop_first()[m0]);
                assert(admissible_from(children, sfx)[m].1 == spec_sat_add(children[m0 + 1].1, e));
            }
        },
        None => {
            assert(all == rest);
            lemma_admissible_origins(children.drop_first(), sfx, m);
            let (m0, e) = choose|m0: int, e: u64|
                0 <= m0 < children.drop_first().len() && children.drop_first()[m0].0 == rest[m].0
                    && children.drop_first()[m0].0.spec_emission(sfx) == Some(
                    (rest[m].2, e),
                ) && rest[m].1 == #[trigger] spec_sat_add(children.drop_first()[m0].1, e);
            assert(children[m0 + 1] == children.drop_first()[m0]);
            assert(admissible_from(children, sfx)[m].1 == spec_sat_add(children[m0 + 1].1, e));
        },
    }
}

/// The admissible list of `prev`'s parent `k` against the suffix that
/// parent has not yet consumed.
pub open spec fn cands_of<S: State>(
    prev: Seq<(S, StateInfo)>,
    input: Seq<S::InputSymbol>,
    k: int,
) -> Seq<(S, u64, usize)> {
    admissible_from(prev[k].0.spec_children(), input.skip(prev[k].1.input_idx as int))
}

/// The entry is one of the candidates that parents `k0` and later admit.
pub open spec fn entry_from<S: State>(
    prev: Seq<(S, StateInfo)>,
    input: Seq<S::InputSymbol>,
    k0: int,
    en: (S, StateInfo),
) -> bool {
    exists|k: int, m: int|
        k0 <= k < prev.len() && 0 <= m < cands_of(prev, input, k).len() && en == (
            #[trigger] cands_of(prev, input, k)[m].0,
            cand_info(prev[k].1, k, cands_of(prev, input, k)[m].1, cands_of(prev, input, k)[m].2),
        )
}

/// Relaxation only ever writes candidate records.
proof fn lemma_relaxed_origins<S>(layer: Seq<(S, StateInfo)>, s: S, info: StateInfo)
    ensures
        forall|a: int|
            0 <= a < relaxed(layer, s, info).len() ==> #[trigger] relaxed(layer, s, info)[a] == (
                s,
                info,
            ) || layer.contains(relaxed(layer, s, info)[a]),
{
    let r = relaxed(layer, s, info);
    assert forall|a: int| 0 <= a < r.len() implies #[trigger] r[a] == (s, info) || layer.contains(
        r[a],
    ) by {
        if layer_has(layer, s) {
            let i = layer_id_of(layer, s);
            if info.cost < layer[i].1.cost {
                if a != i {
                    assert(r[a] == layer[a]);
                }
            } else {
                assert(r[a] == layer[a]);
            }
        } else {
            if a < layer.len() {
                assert(r[a] == layer[a]);
            }
        }
    }
}

/// A relaxed layer's entries are the accumulator's or this parent's
/// candidate records.
proof fn lemma_relax_all_origins<S>(
    layer: Seq<(S, StateInfo)>,
    cands: Seq<(S, u64, usize)>,
    prev: StateInfo,
    pid: int,
)
    ensures
        forall|a: int|
            0 <= a < relax_all(layer, cands, prev, pid).len() ==> layer.contains(
                #[trigger] relax_all(layer, cands, prev, pid)[a],
            ) || exists|m: int|
                0 <= m < cands.len() && relax_all(layer, cands, prev, pid)[a] == (
                    #[trigger] cands[m].0,
                    cand_info(prev, pid, cands[m].1, cands[m].2),
                ),
    decreases cands.len(),
{
    if cands.len() > 0 {
        let info0 = cand_info(prev, pid, cands[0].1, cands[0].2);
        let layer1 = relaxed(layer, cands[0].0, info0);
        lemma_relaxed_origins(layer, cands[0].0, info0);
        lemma_relax_all_origins(layer1, cands.drop_first(), prev, pid);
        let r = relax_all(layer, cands, prev, pid);
        assert(r == relax_all(layer1, cands.drop_first(), prev, pid));
        assert forall|a: int| 0 <= a < r.len() implies layer.contains(#[trigger] r[a]) || exists|
            m: int,
        |
            0 <= m < cands.len() && r[a] == (
                #[trigger] cands[m].0,
                cand_info(prev, pid, cands[m].1, cands[m].2),
            ) by {
            assert(relax_all(layer1, cands.drop_first(), prev, pid)[a] == r[a]);
            if layer1.contains(r[a]) {
                let b = choose|b: int| 0 <= b < layer1.len() && layer1[b] == r[a];
                if layer1[b] == (cands[0].0, info0) {
                    assert(r[a] == (cands[0].0, cand_info(prev, pid, cands[0].1, cands[0].2)));
                }
            } else {
                let m = choose|m: int|
                    0 <= m < cands.drop_first().len() && r[a] == (
                        #[trigger] cands.drop_first()[m].0,
                        cand_info(
                            prev,
                            pid,
                            cands.drop_first()[m].1,
                            cands.drop_first()[m].2,
                        ),
                    );
                assert(cands.drop_first()[m] == cands[m + 1]);
                assert(r[a] == (
                    cands[m + 1].0,
                    cand_info(prev, pid, cands[m + 1].1, cands[m + 1].2),
                ));
            }
        }
    }
}

/// Every entry of an expanded frontier is an accumulator entry or a
/// candidate record of one of the expanded parents.
proof fn lemma_expand_origins<S: State>(
    layer: Seq<(S, StateInfo)>,
    prev: Seq<(S, StateInfo)>,
    k: int,
    input: Seq<S::InputSymbol>,
)
    ensures
        forall|a: int|
            0 <= a < expand_from(layer, prev, k, input).len() ==> layer.contains(
                #[trigger] expand_from(layer, prev, k, input)[a],
            ) || entry_from(prev, input, k, expand_from(layer, prev, k, input)[a]),
    decreases prev.len() - k,
{
    if 0 <= k < prev.len() {
        let cands = cands_of(prev, input, k);
        let layer1 = relax_all(layer, cands, prev[k].1, k);
        lemma_relax_all_origins(layer, cands, prev[k].1, k);
        lemma_expand_origins(layer1, prev, k + 1, input);
        let r = expand_from(layer, prev, k, input);
        assert(r == expand_from(layer1, prev, k + 1, input));
        assert forall|a: int| 0 <= a < r.len() implies layer.contains(#[trigger] r[a])
            || entry_from(prev, input, k, r[a]) by {
            assert(expand_from(layer1, prev, k + 1, input)[a] == r[a]);
            if layer1.contains(r[a]) {
                let b = choose|b: int| 0 <= b < layer1.len() && layer1[b] == r[a];
                if !layer.contains(layer1[b]) {
                    let m = choose|m: int|
                        0 <= m < cands.len() && layer1[b] == (
                            #[trigger] cands[m].0,
                            cand_info(prev[k].1, k, cands[m].1, cands[m].2),
                        );
                    assert(entry_from(prev, input, k, r[a]));
                }
            } else {
                assert(entry_from(prev, input, k + 1, r[a]));
                let (k2, m) = choose|k2: int, m: int|
                    k + 1 <= k2 < prev.len() && 0 <= m < cands_of(prev, input, k2).len() && r[a]
                        == (
                        #[trigger] cands_of(prev, input, k2)[m].0,
                        cand_info(
                            prev[k2].1,
                            k2,
                            cands_of(prev, input, k2)[m].1,
                            cands_of(prev, input, k2)[m].2,
                        ),
                    );
                assert(entry_from(prev, input, k, r[a]));
            }
        }
    }
}

/// Under a uniform model, expanding a frontier whose records all sit at
/// offset `off` yields records all at offset `off + 1`.
proof fn lemma_expand_uniform<S: State>(
    layer: Seq<(S, StateInfo)>,
    prev: Seq<(S, StateInfo)>,
    k: int,
    input: Seq<S::InputSymbol>,
    off: int,
)
    requires
        uniform_model::<S>(),
        entries_idx_bounded(prev, off, off),
        entries_idx_bounded(layer, off + 1, off + 1),
        entries_parents_into(layer, prev.len() as int),
        0 <= off <= input.len(),
        input.len() <= usize::MAX,
        prev.len() <= usize::MAX,
    ensures
        entries_idx_bounded(expand_from(layer, prev, k, input), off + 1, off + 1),
    decreases prev.len() - k,
{
    if 0 <= k < prev.len() {
        let sfx = input.skip(prev[k].1.input_idx as int);
        let cands = cands_of(prev, input, k);
        lemma_admissible_uniform(prev[k].0.spec_children(), sfx);
        if off == input.len() {
            // the parent has consumed the whole input: nothing is emittable
            lemma_admissible_bounds(prev[k].0.spec_children(), sfx);
            assert(cands.len() == 0) by {
                if cands.len() > 0 {
                    assert(1 <= cands[0].2 <= sfx.len());
                }
            }
            assert(relax_all(layer, cands, prev[k].1, k) == layer);
        } else {
            lemma_relax_all_bounds(
                layer,
                cands,
                prev[k].1,
                k,
                off + 1,
                off + 1,
                prev.len() as int,
            );
        }
        lemma_expand_uniform(relax_all(layer, cands, prev[k].1, k), prev, k + 1, input, off);
    }
}

/// Under a uniform model every seed record has consumed exactly one symbol.
pub proof fn lemma_seeded_uniform<S: State>(initial: Seq<(S, u64)>, input: Seq<S::InputSymbol>)
    requires
        uniform_model::<S>(),
    ensures
        entries_idx_bounded(seeded(initial, input), 1, 1),
        seeded(initial, input).len() > 0 ==> input.len() >= 1,
    decreases initial.len(),
{
    if initial.len() > 0 {
        lemma_seeded_uniform(initial.drop_first(), input);
        let all = seeded(initial, input);
        let rest = seeded(initial.drop_first(), input);
        initial[0].0.emission_consumes(input);
        match spec_emit(
            initial[0].0,
            StateInfo { input_idx: 0, cost: initial[0].1, parent_idx: None },
            input,
        ) {
            Some(e) => {
                assert forall|a: int|
                    0 <= a < all.len() implies 1 <= (#[trigger] all[a]).1.input_idx <= 1 by {
                    if a > 0 {
                        assert(all[a] == rest[a - 1]);
                    }
                }
            },
            None => {
                assert(all == rest);
            },
        }
    }
}

/// A path the model can realize at cost `c` against `input`, starting
/// from a record of the seed layer: each later position follows a child
/// edge of its predecessor whose emission succeeds against the input not
/// yet consumed, and the costs accumulate with saturation. Consumption
/// offsets are those of a uniform model: the entry at position `j` has
/// consumed `j + 1` symbols.
pub open spec fn realizable<S: State>(
    seed: Seq<(S, StateInfo)>,
    input: Seq<S::InputSymbol>,
    p: Seq<S>,
    c: u64,
) -> bool
    decreases p.len(),
{
    if p.len() == 0 {
        false
    } else if p.len() == 1 {
        exists|i: int| 0 <= i < seed.len() && (#[trigger] seed[i]).0 == p[0] && seed[i].1.cost == c
    } else {
        let j = p.len() - 2;
        exists|c0: u64, t: u64, e: u64, m: int|
            #![trigger p[j].spec_children()[m], spec_sat_add(c0, spec_sat_add(t, e))]
            {
                &&& realizable(seed, input, p.drop_last(), c0)
                &&& 0 <= m < p[j].spec_children().len()
                &&& p[j].spec_children()[m] == (p[j + 1], t)
                &&& p[j + 1].spec_emission(input.skip(j + 1)) == Some((1usize, e))
                &&& c == spec_sat_add(c0, spec_sat_add(t, e))
            }
    }
}

/// Layer exactness for unpruned decodes of a uniform model: every layer
/// record is realized by a path of the layer's length, and every
/// realizable path of that length ends in a stored record that costs no
/// more than the path does.
#[verifier::rlimit(60)]
pub proof fn lemma_layer_exact<S: State>(
    layers: Seq<Seq<(S, StateInfo)>>,
    seed: Seq<(S, StateInfo)>,
    input: Seq<S::InputSymbol>,
    k: int,
)
    requires
        uniform_model::<S>(),
        is_run(layers, seed, input, None, None),
        layer_distinct(seed),
        entries_idx_bounded(seed, 1, 1),
        0 <= k < layers.len(),
        1 <= input.len() <= usize::MAX,
        forall|k2: int| 0 <= k2 < layers.len() ==> (#[trigger] layers[k2]).len() <= usize::MAX,
    ensures
        layer_distinct(layers[k]),
        entries_idx_bounded(layers[k], k + 1, k + 1),
        entries_idx_bounded(layers[k], 0, input.len() as int),
        forall|a: int|
            0 <= a < layers[k].len() ==> exists|p: Seq<S>|
                p.len() == k + 1 && p[k] == (#[trigger] layers[k][a]).0 && realizable(
                    seed,
                    input,
                    p,
                    layers[k][a].1.cost,
                ),
        forall|p: Seq<S>, c: u64|
            p.len() == k + 1 && #[trigger] realizable(seed, input, p, c) ==> layer_has(
                layers[k],
                p[k],
            ) && costs_at_most(layers[k], p[k], c),
    decreases k,
{
    let lay = layers[k];
    if k == 0 {
        assert(lay == seed);
        assert forall|a: int| 0 <= a < lay.len() implies exists|p: Seq<S>|
            p.len() == 1 && p[0] == (#[trigger] lay[a]).0 && realizable(
                seed,
                input,
                p,
                lay[a].1.cost,
            ) by {
            let p = seq![lay[a].0];
            assert(seed[a].0 == p[0] && seed[a].1.cost == lay[a].1.cost);
            assert(realizable(seed, input, p, lay[a].1.cost));
        }
        assert forall|p: Seq<S>, c: u64|
            p.len() == 1 && #[trigger] realizable(seed, input, p, c) implies layer_has(lay, p[0])
            && costs_at_most(lay, p[0], c) by {
            let i = choose|i: int|
                0 <= i < seed.len() && (#[trigger] seed[i]).0 == p[0] && seed[i].1.cost == c;
            assert(layer_has(lay, p[0]));
            assert forall|a: int|
                0 <= a < lay.len() && (#[trigger] lay[a]).0 == p[0] implies lay[a].1.cost <= c by {
                if a != i {
                    assert(lay[a].0 != lay[i].0);
                }
            }
        }
        assert forall|a: int|
            0 <= a < lay.len() implies 0 <= (#[trigger] lay[a]).1.input_idx <= input.len() by {
            assert(lay[a].1.input_idx == 1);
            // a seed record exists only where its emission consumed one
            // symbol of the input, so the input is nonempty
        }
    } else {
        lemma_layer_exact(layers, seed, input, k - 1);
        let prev = layers[k - 1];
        assert(lay == pruned(step_spec(prev, input), None::<usize>, None::<u64>));
        assert(lay == step_spec(prev, input));
        lemma_expand_distinct(Seq::empty(), prev, 0, input);
        lemma_expand_bounds(Seq::empty(), prev, 0, input, 0);
        assert(prev.len() > 0);
        assert(prev[0].1.input_idx == k);
        assert(k <= input.len());
        lemma_expand_uniform(Seq::empty(), prev, 0, input, k);
        lemma_expand_origins(Seq::empty(), prev, 0, input);
        // soundness: walk each stored record back to the candidate that
        // wrote it, and extend the parent's realizing path by that edge
        assert forall|a: int| 0 <= a < lay.len() implies exists|p: Seq<S>|
            p.len() == k + 1 && p[k] == (#[trigger] lay[a]).0 && realizable(
                seed,
                input,
                p,
                lay[a].1.cost,
            ) by {
            assert(!Seq::<(S, StateInfo)>::empty().contains(lay[a]));
            assert(entry_from(prev, input, 0, lay[a]));
            let (k2, m) = choose|k2: int, m: int|
                0 <= k2 < prev.len() && 0 <= m < cands_of(prev, input, k2).len() && lay[a] == (
                    #[trigger] cands_of(prev, input, k2)[m].0,
                    cand_info(
                        prev[k2].1,
                        k2,
                        cands_of(prev, input, k2)[m].1,
                        cands_of(prev, input, k2)[m].2,
                    ),
                );
            let children = prev[k2].0.spec_children();
            let sfx = input.skip(prev[k2].1.input_idx as int);
            lemma_admissible_origins(children, sfx, m);
            let (m0, e) = choose|m0: int, e: u64|
                0 <= m0 < children.len() && children[m0].0 == admissible_from(children, sfx)[m].0
                    && children[m0].0.spec_emission(sfx) == Some(
                    (admissible_from(children, sfx)[m].2, e),
                ) && admissible_from(children, sfx)[m].1 == #[trigger] spec_sat_add(
                    children[m0].1,
                    e,
                );
            assert(cands_of(prev, input, k2)[m].2 == 1) by {
                lemma_admissible_uniform(children, sfx);
            }
            assert(prev[k2] == layers[k - 1][k2]);
            assert(exists|p0: Seq<S>|
                p0.len() == k && p0[k - 1] == (#[trigger] layers[k - 1][k2]).0 && realizable(
                    seed,
                    input,
                    p0,
                    layers[k - 1][k2].1.cost,
                ));
            let p0 = choose|p0: Seq<S>|
                p0.len() == k && p0[k - 1] == (#[trigger] prev[k2]).0 && realizable(
                    seed,
                    input,
                    p0,
                    prev[k2].1.cost,
                );
            let p = p0.push(lay[a].0);
            assert(p.drop_last() =~= p0);
            assert(prev[k2].1.input_idx == k);
            let t = children[m0].1;
            assert(p[k - 1].spec_children()[m0] == (p[k], t));
            assert(p[k].spec_emission(input.skip(k)) == Some((1usize, e)));
            assert(lay[a].1.cost == spec_sat_add(prev[k2].1.cost, spec_sat_add(t, e)));
            assert(realizable(seed, input, p, lay[a].1.cost));
        }
        // completeness and minimality: a realizable path's last edge is an
        // admitted candidate of the stored parent, which costs no more
        // than the path's own prefix
        assert forall|p: Seq<S>, c: u64|
            p.len() == k + 1 && #[trigger] realizable(seed, input, p, c) implies layer_has(
                lay,
                p[k],
            ) && costs_at_most(lay, p[k], c) by {
            let j = p.len() - 2;
            let (c0, t, e, m0) = choose|c0: u64, t: u64, e: u64, m0: int|
                #![trigger p[j].spec_children()[m0], spec_sat_add(c0, spec_sat_add(t, e))]
                {
                    &&& realizable(seed, input, p.drop_last(), c0)
                    &&& 0 <= m0 < p[j].spec_children().len()
                    &&& p[j].spec_children()[m0] == (p[j + 1], t)
                    &&& p[j + 1].spec_emission(input.skip(j + 1)) == Some((1usize, e))
                    &&& c == spec_sat_add(c0, spec_sat_add(t, e))
                };
            assert(p.drop_last().len() == k && p.drop_last()[k - 1] == p[j]);
            assert(layer_has(prev, p[j]) && costs_at_most(prev, p[j], c0));
            let b = choose|b: int| 0 <= b < prev.len() && (#[trigger] prev[b]).0 == p[j];
            assert(prev[b].1.cost <= c0);
            assert(prev[b].1.input_idx == k);
            lemma_admissible_complete(p[j].spec_children(), input.skip(k), m0, 1, e);
            let cands = cands_of(prev, input, b);
            let m = choose|m: int|
                0 <= m < cands.len() && #[trigger] cands[m] == (p[j + 1], spec_sat_add(t, e), 1usize);
            lemma_layer_locally_optimal(prev, input, b, m);
            assert(layer_has(lay, p[k]));
            lemma_sat_add_monotone(prev[b].1.cost, c0, spec_sat_add(t, e));
            assert forall|a: int|
                0 <= a < lay.len() && (#[trigger] lay[a]).0 == p[k] implies lay[a].1.cost <= c by {
                assert(lay[a].1.cost <= spec_sat_add(prev[b].1.cost, spec_sat_add(t, e)));
            }
        }
    }
}

/// Optimality of an unpruned decode of a uniform model: the cost of the
/// final layer's selected record is exactly the minimum cost over every
/// path of the decode's length that the model can realize. Beam and cost
/// pruning deliberately discard hypotheses, so the claim is stated for an
/// engine configured without bounds.
pub proof fn lemma_decode_optimal<S: State>(
    layers: Seq<Seq<(S, StateInfo)>>,
    seed: Seq<(S, StateInfo)>,
    input: Seq<S::InputSymbol>,
) -> (best: u64)
    requires
        uniform_model::<S>(),
        is_run(layers, seed, input, None, None),
        layer_distinct(seed),
        entries_idx_bounded(seed, 1, 1),
        layers.len() > 0,
        1 <= input.len() <= usize::MAX,
        forall|k2: int| 0 <= k2 < layers.len() ==> (#[trigger] layers[k2]).len() <= usize::MAX,
    ensures
        best == layers.last()[argmin(layers.last())].1.cost,
        exists|p: Seq<S>|
            p.len() == layers.len() && #[trigger] realizable(seed, input, p, best),
        forall|p: Seq<S>, c: u64|
            p.len() == layers.len() && #[trigger] realizable(seed, input, p, c) ==> best <= c,
{
    let last = layers.last();
    let big = layers.len() - 1;
    assert(last == layers[big]);
    lemma_layer_exact(layers, seed, input, big);
    lemma_argmin(last, last.len() as int);
    let sel = argmin(last);
    let best = last[sel].1.cost;
    assert(exists|p: Seq<S>|
        p.len() == big + 1 && p[big] == (#[trigger] last[sel]).0 && realizable(
            seed,
            input,
            p,
            last[sel].1.cost,
        ));
    let pw = choose|p: Seq<S>|
        p.len() == big + 1 && p[big] == (#[trigger] last[sel]).0 && realizable(
            seed,
            input,
            p,
            last[sel].1.cost,
        );
    assert(realizable(seed, input, pw, best));
    assert forall|p: Seq<S>, c: u64|
        p.len() == layers.len() && #[trigger] realizable(seed, input, p, c) implies best <= c by {
        assert(layer_has(last, p[big]) && costs_at_most(last, p[big], c));
        let a = choose|a: int| 0 <= a < last.len() && (#[trigger] last[a]).0 == p[big];
        assert(last[a].1.cost <= c);
        assert(best <= last[a].1.cost);
    }
    best
}

/// The beam order is transitive.
proof fn lemma_cheaper_transitive<S>(layer: Seq<(S, StateInfo)>, h: int, i: int, j: int)
    requires
        cheaper(layer, h, i),
        cheaper(layer, i, j),
    ensures
        cheaper(layer, h, j),
{
}

/// The beam rank respects the beam order: a strictly better entry places
/// strictly earlier.
pub proof fn lemma_rank_monotone<S>(layer: Seq<(S, StateInfo)>, i: int, j: int, n: int)
    requires
        0 <= i,
        0 <= j,
        cheaper(layer, i, j),
    ensures
        rank_upto(layer, j, n) >= rank_upto(layer, i, n) + (if i < n {
            1int
        } else {
            0int
        }),
    decreases n,
{
    if n > 0 {
        lemma_rank_monotone(layer, i, j, n - 1);
        if cheaper(layer, n - 1, i) {
            lemma_cheaper_transitive(layer, n - 1, i, j);
        }
    }
}

/// Beam-prune characterization: the pruned layer consists, in id order,
/// of exactly those pre-prune entries placing among the `max` best of the
/// beam order; every retained entry beats every discarded one.
pub proof fn lemma_cull_exact<S>(layer: Seq<(S, StateInfo)>, max: int, n: int)
    requires
        0 <= n <= layer.len(),
    ensures
        forall|i: int|
            0 <= i < n && rank(layer, i) < max ==> cull_upto(layer, max, n).contains(
                #[trigger] layer[i],
            ),
        forall|a: int|
            0 <= a < cull_upto(layer, max, n).len() ==> exists|i: int|
                0 <= i < n && rank(layer, i) < max && #[trigger] cull_upto(layer, max, n)[a]
                    == layer[i],
    decreases n,
{
    if n > 0 {
        lemma_cull_exact(layer, max, n - 1);
        let c1 = cull_upto(layer, max, n - 1);
        let c2 = cull_upto(layer, max, n);
        assert forall|i: int|
            0 <= i < n && rank(layer, i) < max implies c2.contains(#[trigger] layer[i]) by {
            if i < n - 1 {
                let a = choose|a: int| 0 <= a < c1.len() && c1[a] == layer[i];
                assert(c2[a] == layer[i]);
            } else {
                assert(c2[c2.len() - 1] == layer[i]);
            }
        }
        assert forall|a: int|
            0 <= a < c2.len() implies exists|i: int|
            0 <= i < n && rank(layer, i) < max && #[trigger] c2[a] == layer[i] by {
            if a < c1.len() {
                assert(c2[a] == c1[a]);
                let i = choose|i: int|
                    0 <= i < n - 1 && rank(layer, i) < max && c1[a] == layer[i];
                assert(0 <= i < n && rank(layer, i) < max && c2[a] == layer[i]);
            } else {
                assert(rank(layer, n - 1) < max && c2[a] == layer[n - 1]);
            }
        }
    }
}

/// Beam-prune ordering: a retained entry always beats a discarded one in
/// the beam order (cheaper, or equally cheap and interned earlier).
pub proof fn lemma_cull_retains_best<S>(layer: Seq<(S, StateInfo)>, max: int, i: int, j: int)
    requires
        0 <= i < layer.len(),
        0 <= j < layer.len(),
        rank(layer, i) < max,
        rank(layer, j) >= max,
    ensures
        cheaper(layer, i, j),
{
    if !cheaper(layer, i, j) {
        assert(i != j);
        assert(cheaper(layer, j, i));
        lemma_rank_monotone(layer, j, i, layer.len() as int);
    }
}

/// How many of the first `n` entries place below `m` in the beam order.
pub open spec fn count_rank_lt<S>(layer: Seq<(S, StateInfo)>, m: int, n: int) -> int
    decreases n,
{
    if n <= 0 {
        0
    } else {
        count_rank_lt(layer, m, n - 1) + (if rank(layer, n - 1) < m {
            1int
        } else {
            0int
        })
    }
}

/// How many of the first `n` entries place exactly at `m`.
pub open spec fn count_rank_eq<S>(layer: Seq<(S, StateInfo)>, m: int, n: int) -> int
    decreases n,
{
    if n <= 0 {
        0
    } else {
        count_rank_eq(layer, m, n - 1) + (if rank(layer, n - 1) == m {
            1int
        } else {
            0int
        })
    }
}

/// The pruned layer's size is the number of entries placing below `max`.
proof fn lemma_cull_len_is_count<S>(layer: Seq<(S, StateInfo)>, max: int, n: int)
    requires
        0 <= n,
    ensures
        cull_upto(layer, max, n).len() == count_rank_lt(layer, max, n),
    decreases n,
{
    if n > 0 {
        lemma_cull_len_is_count(layer, max, n - 1);
    }
}

/// A rank is a count over the other entries: at least zero, and at most
/// one less than the layer's size, since nothing beats itself.
proof fn lemma_rank_range<S>(layer: Seq<(S, StateInfo)>, i: int, n: int)
    requires
        0 <= i,
        0 <= n,
    ensures
        0 <= rank_upto(layer, i, n) <= n - (if i < n {
            1int
        } else {
            0int
        }),
    decreases n,
{
    if n > 0 {
        lemma_rank_range(layer, i, n - 1);
    }
}

/// Counting below `m + 1` splits into counting below `m` and counting at `m`.
proof fn lemma_count_split<S>(layer: Seq<(S, StateInfo)>, m: int, n: int)
    requires
        0 <= n,
    ensures
        count_rank_lt(layer, m + 1, n) == count_rank_lt(layer, m, n) + count_rank_eq(layer, m, n),
    decreases n,
{
    if n > 0 {
        lemma_count_split(layer, m, n - 1);
    }
}

/// A placement no entry occupies counts zero.
proof fn lemma_count_eq_none<S>(layer: Seq<(S, StateInfo)>, m: int, n: int)
    requires
        0 <= n,
        forall|j: int| 0 <= j < n ==> rank(layer, j) != m,
    ensures
        count_rank_eq(layer, m, n) == 0,
    decreases n,
{
    if n > 0 {
        lemma_count_eq_none(layer, m, n - 1);
    }
}

/// A placement exactly one entry occupies counts one.
proof fn lemma_count_eq_one<S>(layer: Seq<(S, StateInfo)>, m: int, n: int, w: int)
    requires
        0 <= n,
        0 <= w,
        rank(layer, w) == m,
        forall|j: int| 0 <= j < n && j != w ==> rank(layer, j) != m,
    ensures
        count_rank_eq(layer, m, n) == (if w < n {
            1int
        } else {
            0int
        }),
    decreases n,
{
    if n > 0 {
        lemma_count_eq_one(layer, m, n - 1, w);
    }
}

/// Counts of coextensive conditions agree.
proof fn lemma_counts_equal<S>(layer: Seq<(S, StateInfo)>, i: int, m: int, n: int)
    requires
        0 <= n,
        forall|j: int| 0 <= j < n ==> (cheaper(layer, j, i) <==> rank(layer, j) < m),
    ensures
        rank_upto(layer, i, n) == count_rank_lt(layer, m, n),
    decreases n,
{
    if n > 0 {
        lemma_counts_equal(layer, i, m, n - 1);
    }
}

/// Somewhere among the first `n` entries one places at `m` or later,
/// provided fewer than `n` of them place below `m`.
proof fn lemma_exists_ge<S>(layer: Seq<(S, StateInfo)>, m: int, n: int) -> (w: int)
    requires
        0 <= n,
        count_rank_lt(layer, m, n) < n,
    ensures
        0 <= w < n,
        rank(layer, w) >= m,
    decreases n,
{
    if rank(layer, n - 1) >= m {
        n - 1
    } else {
        lemma_exists_ge(layer, m, n - 1)
    }
}

/// The beam-least index among the first `n` whose placement is `m` or
/// later; `-1` where there is none.
spec fn min_ge_upto<S>(layer: Seq<(S, StateInfo)>, m: int, n: int) -> int
    decreases n,
{
    if n <= 0 {
        -1
    } else {
        let p = min_ge_upto(layer, m, n - 1);
        if rank(layer, n - 1) >= m {
            if p == -1 || cheaper(layer, n - 1, p) {
                n - 1
            } else {
                p
            }
        } else {
            p
        }
    }
}

/// Where an entry places at `m` or later, the beam-least such entry
/// exists and beats every other such entry.
proof fn lemma_min_ge<S>(layer: Seq<(S, StateInfo)>, m: int, n: int)
    requires
        0 <= n,
    ensures
        ({
            let p = min_ge_upto(layer, m, n);
            &&& (p == -1 ==> forall|j: int| 0 <= j < n ==> rank(layer, j) < m)
            &&& (p != -1 ==> 0 <= p < n && rank(layer, p) >= m && forall|j: int|
                0 <= j < n && rank(layer, j) >= m && j != p ==> cheaper(layer, p, j))
        }),
    decreases n,
{
    if n > 0 {
        lemma_min_ge(layer, m, n - 1);
        let p1 = min_ge_upto(layer, m, n - 1);
        let p = min_ge_upto(layer, m, n);
        if rank(layer, n - 1) >= m && p1 != -1 && cheaper(layer, n - 1, p1) {
            assert forall|j: int|
                0 <= j < n && rank(layer, j) >= m && j != p implies cheaper(layer, p, j) by {
                if j != p1 && j < n - 1 {
                    lemma_cheaper_transitive(layer, n - 1, p1, j);
                }
            }
        }
    }
}

/// Every placement below the layer's size is occupied: with `m` entries
/// placing below `m`, some entry places exactly at `m`.
proof fn lemma_rank_surjective<S>(layer: Seq<(S, StateInfo)>, m: int) -> (p: int)
    requires
        0 <= m < layer.len(),
        count_rank_lt(layer, m, layer.len() as int) == m,
    ensures
        0 <= p < layer.len(),
        rank(layer, p) == m,
{
    let n = layer.len() as int;
    let w = lemma_exists_ge(layer, m, n);
    lemma_min_ge(layer, m, n);
    let p = min_ge_upto(layer, m, n);
    assert forall|j: int| 0 <= j < n implies (cheaper(layer, j, p) <==> rank(layer, j) < m) by {
        if cheaper(layer, j, p) {
            if rank(layer, j) >= m {
                assert(j != p);
                assert(cheaper(layer, p, j));
                assert(false);
            }
        } else {
            if rank(layer, j) < m {
                if j == p {
                    assert(rank(layer, p) >= m);
                    assert(false);
                } else if !cheaper(layer, j, p) {
                    assert(cheaper(layer, p, j));
                    lemma_rank_monotone(layer, p, j, n);
                    assert(false);
                }
            }
        }
    }
    lemma_counts_equal(layer, p, m, n);
    p
}

/// The number of entries placing below `m` is `m` itself, until the
/// layer runs out of entries.
proof fn lemma_count_rank<S>(layer: Seq<(S, StateInfo)>, m: int)
    requires
        0 <= m,
    ensures
        count_rank_lt(layer, m, layer.len() as int) == (if m <= layer.len() {
            m
        } else {
            layer.len() as int
        }),
    decreases m,
{
    let n = layer.len() as int;
    if m == 0 {
        lemma_count_nonneg_zero(layer, n);
    } else {
        lemma_count_rank(layer, m - 1);
        lemma_count_split(layer, m - 1, n);
        if m - 1 < n {
            let p = lemma_rank_surjective(layer, m - 1);
            assert forall|j: int| 0 <= j < n && j != p implies rank(layer, j) != m - 1 by {
                if rank(layer, j) == m - 1 {
                    if cheaper(layer, j, p) {
                        lemma_rank_monotone(layer, j, p, n);
                    } else {
                        assert(cheaper(layer, p, j));
                        lemma_rank_monotone(layer, p, j, n);
                    }
                    assert(false);
                }
            }
            lemma_count_eq_one(layer, m - 1, n, p);
        } else {
            assert forall|j: int| 0 <= j < n implies rank(layer, j) != m - 1 by {
                lemma_rank_range(layer, j, n);
            }
            lemma_count_eq_none(layer, m - 1, n);
        }
    }
}

/// No entry places below zero, so nothing counts there.
proof fn lemma_count_nonneg_zero<S>(layer: Seq<(S, StateInfo)>, n: int)
    requires
        0 <= n <= layer.len(),
    ensures
        count_rank_lt(layer, 0, n) == 0,
    decreases n,
{
    if n > 0 {
        lemma_count_nonneg_zero(layer, n - 1);
        lemma_rank_range(layer, n - 1, layer.len() as int);
    }
}

/// Beam-prune count: with bound `max`, the pruned layer retains exactly
/// `max` entries, or all of them where fewer existed — never more.
pub proof fn lemma_cull_length<S>(layer: Seq<(S, StateInfo)>, max: int)
    requires
        0 <= max,
    ensures
        cull_spec(layer, max).len() == (if max <= layer.len() {
            max
        } else {
            layer.len() as int
        }),
{
    lemma_cull_len_is_count(layer, max, layer.len() as int);
    lemma_count_rank(layer, max);
}

/// The id of the cheapest entry among the first `n`; on ties, the
/// earliest-interned id wins.
pub open spec fn argmin_upto<S>(layer: Seq<(S, StateInfo)>, n: int) -> int
    decreases n,
{
    if n <= 1 {
        0
    } else {
        let r = argmin_upto(layer, n - 1);
        if layer[n - 1].1.cost < layer[r].1.cost {
            n - 1
        } else {
            r
        }
    }
}

/// The deterministic selection rule for `best_path`: the cheapest entry of
/// a layer, ties broken towards the earliest-interned id.
pub open spec fn argmin<S>(layer: Seq<(S, StateInfo)>) -> int {
    argmin_upto(layer, layer.len() as int)
}

/// `argmin` names a valid id, no entry is cheaper than its, and every
/// earlier id is strictly more expensive — the tie-break rule.
pub proof fn lemma_argmin<S>(layer: Seq<(S, StateInfo)>, n: int)
    requires
        0 < n <= layer.len(),
    ensures
        0 <= argmin_upto(layer, n) < n,
        forall|j: int|
            0 <= j < n ==> layer[argmin_upto(layer, n)].1.cost <= (#[trigger] layer[j]).1.cost,
        forall|j: int|
            0 <= j < argmin_upto(layer, n) ==> layer[argmin_upto(layer, n)].1.cost < (
            #[trigger] layer[j]).1.cost,
    decreases n,
{
    if n > 1 {
        lemma_argmin(layer, n - 1);
    }
}

/// The id of a record's parent; seed records answer 0, never followed.
pub open spec fn parent_of(info: StateInfo) -> int {
    match info.parent_idx {
        Some(p) => p as int,
        None => 0,
    }
}

/// The ids visited by walking backpointers from id `id` of layer `k` down
/// to the seed layer, in forward (chronological) order.
pub open spec fn back_ids<S>(layers: Seq<Seq<(S, StateInfo)>>, k: int, id: int) -> Seq<int>
    decreases k,
{
    if k <= 0 {
        seq![id]
    } else {
        back_ids(layers, k - 1, parent_of(layers[k][id].1)).push(id)
    }
}

/// The id walk `best_path` reconstructs: backwards from the cheapest
/// entry of the final layer.
pub open spec fn best_ids<S>(layers: Seq<Seq<(S, StateInfo)>>) -> Seq<int> {
    back_ids(layers, layers.len() - 1, argmin(layers.last()))
}

/// The state values along the reconstructed walk, oldest first.
pub open spec fn path_states<S>(layers: Seq<Seq<(S, StateInfo)>>) -> Seq<S> {
    Seq::new(layers.len(), |k: int| layers[k][best_ids(layers)[k]].0)
}

/// The backpointer walk visits one valid id per layer, ends at the id it
/// started from, and each visited id is the stored parent of the next.
pub proof fn lemma_back_ids<S>(layers: Seq<Seq<(S, StateInfo)>>, k: int, id: int)
    requires
        0 <= k < layers.len(),
        0 <= id < layers[k].len(),
        forall|k2: int|
            1 <= k2 < layers.len() ==> entries_parents_into(
                #[trigger] layers[k2],
                layers[k2 - 1].len() as int,
            ),
    ensures
        ({
            let b = back_ids(layers, k, id);
            &&& b.len() == k + 1
            &&& b[k] == id
            &&& forall|k2: int| 0 <= k2 <= k ==> 0 <= #[trigger] b[k2] < layers[k2].len()
            &&& forall|k2: int|
                1 <= k2 <= k ==> #[trigger] b[k2 - 1] == parent_of(layers[k2][b[k2]].1)
        }),
    decreases k,
{
    if k > 0 {
        let p = parent_of(layers[k][id].1);
        assert(layers[k][id] == layers[k][id]);
        assert(0 <= p < layers[k - 1].len());
        lemma_back_ids(layers, k - 1, p);
        let pre = back_ids(layers, k - 1, p);
        let b = back_ids(layers, k, id);
        assert(b == pre.push(id));
        assert(forall|k2: int| 0 <= k2 <= k - 1 ==> #[trigger] b[k2] == pre[k2]);
    }
}

/// The decode engine: an append-only sequence of frontier layers and the
/// optional pruning configuration.
#[derive(Debug)]
pub struct Viterbi<S: State> {
    steps: Vec<ViterbiStep<S>>,
    max_states: Option<usize>,
    max_cost: Option<u64>,
}

impl<S: State> Viterbi<S> {
    /// The layers' contents, oldest first.
    pub closed spec fn layers(&self) -> Seq<Seq<(S, StateInfo)>> {
        Seq::new(self.steps@.len(), |k: int| self.steps@[k].entries())
    }

    /// The configured beam bound.
    pub closed spec fn spec_max_states(&self) -> Option<usize> {
        self.max_states
    }

    /// The configured cost bound.
    pub closed spec fn spec_max_cost(&self) -> Option<u64> {
        self.max_cost
    }

    /// Engine invariant: every retained layer is a nonempty bijective
    /// interning; seed records carry no backpointer; every later record
    /// points at a valid id of the immediately preceding layer.
    pub closed spec fn wf(&self) -> bool {
        &&& forall|k: int| 0 <= k < self.steps@.len() ==> (#[trigger] self.steps@[k]).wf()
        &&& forall|k: int|
            0 <= k < self.steps@.len() ==> (#[trigger] self.steps@[k]).entries().len() > 0
        &&& (self.steps@.len() > 0 ==> entries_parents_none(self.steps@[0].entries()))
        &&& forall|k: int|
            1 <= k < self.steps@.len() ==> entries_parents_into(
                (#[trigger] self.steps@[k]).entries(),
                self.steps@[k - 1].entries().len() as int,
            )
    }

    /// A fresh engine with the given optional pruning limits and no layers.
    pub fn new(max_states: Option<usize>, max_cost: Option<u64>) -> (r: Viterbi<S>)
        ensures
            r.wf(),
            r.layers() == Seq::<Seq<(S, StateInfo)>>::empty(),
            r.spec_max_states() == max_states,
            r.spec_max_cost() == max_cost,
    {
        let r = Viterbi { steps: Vec::new(), max_states, max_cost };
        proof {
            assert(r.layers() =~= Seq::<Seq<(S, StateInfo)>>::empty());
        }
        r
    }

    /// Build, prune and append the next frontier from the current one;
    /// returns its size, and appends only a nonempty frontier.
    fn step(&mut self, input: &[S::InputSymbol], Ghost(lo): Ghost<int>) -> (r: usize)
        requires
            old(self).wf(),
            old(self).steps@.len() > 0,
            0 <= lo,
            entries_idx_bounded(
                old(self).steps@[old(self).steps@.len() - 1].entries(),
                lo,
                input@.len() as int,
            ),
        ensures
            final(self).wf(),
            final(self).spec_max_states() == old(self).spec_max_states(),
            final(self).spec_max_cost() == old(self).spec_max_cost(),
            ({
                let next = pruned(
                    step_spec(old(self).layers().last(), input@),
                    old(self).spec_max_states(),
                    old(self).spec_max_cost(),
                );
                &&& r == next.len()
                &&& r > 0 ==> final(self).layers() == old(self).layers().push(next)
                &&& r > 0 ==> entries_idx_bounded(next, lo + 1, input@.len() as int)
                &&& r == 0 ==> *final(self) == *old(self)
            }),
    {
        let n_steps = self.steps.len();
        let ilen = input.len();
        let ghost pe = self.steps@[n_steps - 1].entries();
        proof {
            assert(old(self).layers().last() == pe);
        }
        let mut next = ViterbiStep::<S>::new();
        let np = self.steps[n_steps - 1].len();
        let mut k: usize = 0;
        while k < np
            invariant
                *self == *old(self),
                self.wf(),
                n_steps == self.steps@.len(),
                n_steps > 0,
                pe == self.steps@[n_steps - 1].entries(),
                np == pe.len(),
                ilen == input@.len(),
                entries_idx_bounded(pe, lo, input@.len() as int),
                0 <= k <= np,
                next.wf(),
                expand_from(next.entries(), pe, k as int, input@) == step_spec(pe, input@),
            decreases np - k,
        {
            let prev = &self.steps[n_steps - 1];
            let info_k = prev.infos[k];
            proof {
                assert(pe[k as int].1 == info_k);
                assert(pe[k as int].0 == prev.states@[k as int]);
            }
            let sfx = vstd::slice::slice_subrange(input, info_k.input_idx, input.len());
            let cands = children_with_emission(&prev.states[k], sfx);
            proof {
                lemma_admissible_bounds(pe[k as int].0.spec_children(), sfx@);
            }
            let ghost inner_start = next.entries();
            proof {
                assert(cands@.skip(0) =~= cands@);
            }
            let nc = cands.len();
            let mut m: usize = 0;
            while m < nc
                invariant
                    next.wf(),
                    nc == cands@.len(),
                    0 <= m <= nc,
                    ilen == input@.len(),
                    info_k.input_idx + sfx@.len() == input@.len(),
                    forall|q: int| 0 <= q < nc ==> 1 <= (#[trigger] cands@[q]).2 <= sfx@.len(),
                    relax_all(next.entries(), cands@.skip(m as int), info_k, k as int)
                        == relax_all(inner_start, cands@, info_k, k as int),
                decreases nc - m,
            {
                let c = cands[m].0.clone_state();
                let cost = cands[m].1;
                let d = cands[m].2;
                let ghost mid = cands@.skip(m as int);
                proof {
                    assert(mid[0] == cands@[m as int]);
                    assert(mid.drop_first() =~= cands@.skip(m as int + 1));
                }
                next.update(
                    c,
                    StateInfo {
                        input_idx: info_k.input_idx + d,
                        cost: sat_add(info_k.cost, cost),
                        parent_idx: Some(k),
                    },
                );
                proof {
                    assert(StateInfo {
                        input_idx: (info_k.input_idx + d) as usize,
                        cost: spec_sat_add(info_k.cost, cost),
                        parent_idx: Some(k),
                    } == cand_info(info_k, k as int, cost, d));
                }
                m = m + 1;
            }
            proof {
                assert(cands@.skip(nc as int) =~= Seq::<(S, u64, usize)>::empty());
                assert(next.entries() == relax_all(inner_start, cands@, info_k, k as int));
                assert(sfx@ == input@.skip(info_k.input_idx as int));
            }
            k = k + 1;
        }
        proof {
            assert(next.entries() == step_spec(pe, input@));
        }
        match self.max_states {
            Some(mx) => next.cull(mx),
            None => {},
        }
        match self.max_cost {
            Some(mc) => next.bound_cost(mc),
            None => {},
        }
        proof {
            assert(next.entries() == pruned(
                step_spec(pe, input@),
                self.max_states,
                self.max_cost,
            ));
            lemma_next_layer_bounds(pe, input@, self.max_states, self.max_cost, lo);
        }
        let r = next.len();
        if r > 0 {
            let ghost pre_push = self.layers();
            self.steps.push(next);
            proof {
                assert(final(self).layers() =~= pre_push.push(
                    pruned(step_spec(pe, input@), self.max_states, self.max_cost),
                ));
            }
        }
        r
    }

    /// Decode: seed the engine from `initial_states` against the full
    /// `input`, then grow pruned frontier layers until one comes up empty.
    /// Fails if and only if two initial states that survive emission
    /// intern identically; the engine is then left as it was.
    pub fn compute(&mut self, initial_states: Vec<(S, u64)>, input: &[S::InputSymbol]) -> (r:
        Result<(), ViterbiError>)
        ensures
            final(self).spec_max_states() == old(self).spec_max_states(),
            final(self).spec_max_cost() == old(self).spec_max_cost(),
            r is Err <==> has_dup(seeded(initial_states@, input@)),
            match r {
                Ok(u) => final(self).wf() && is_run(
                    final(self).layers(),
                    seeded(initial_states@, input@),
                    input@,
                    old(self).spec_max_states(),
                    old(self).spec_max_cost(),
                ),
                Err(e) => e == ViterbiError::DuplicateInitialState && *final(self) == *old(self),
            },
    {
        let ilen = input.len();
        let ghost all_seeds = seeded(initial_states@, input@);
        let mut seeds: Vec<(S, StateInfo)> = Vec::new();
        let n0 = initial_states.len();
        let mut i: usize = 0;
        proof {
            assert(initial_states@.skip(0) =~= initial_states@);
        }
        while i < n0
            invariant
                0 <= i <= n0,
                n0 == initial_states@.len(),
                ilen == input@.len(),
                seeds@ + seeded(initial_states@.skip(i as int), input@) == all_seeds,
                all_seeds == seeded(initial_states@, input@),
                entries_idx_bounded(seeds@, 0, input@.len() as int),
                entries_parents_none(seeds@),
            decreases n0 - i,
        {
            let s = initial_states[i].0.clone_state();
            let c = initial_states[i].1;
            let ghost mid = initial_states@.skip(i as int);
            proof {
                assert(mid[0] == initial_states@[i as int]);
                assert(mid.drop_first() =~= initial_states@.skip(i as int + 1));
                s.emission_consumes(input@);
            }
            match emit(s, StateInfo { input_idx: 0, cost: c, parent_idx: None }, input) {
                Some(p) => {
                    seeds.push(p);
                },
                None => {},
            }
            i = i + 1;
        }
        proof {
            assert(initial_states@.skip(n0 as int) =~= Seq::<(S, u64)>::empty());
            assert(seeds@ + seeded(initial_states@.skip(n0 as int), input@) =~= seeds@);
            assert(seeds@ == all_seeds);
        }
        let step0 = match ViterbiStep::from_iter(seeds) {
            Ok(st) => st,
            Err(e) => {
                return Err(e);
            },
        };
        if step0.len() == 0 {
            self.steps = Vec::new();
            proof {
                assert(final(self).layers() =~= Seq::<Seq<(S, StateInfo)>>::empty());
            }
            return Ok(());
        }
        let mut v: Vec<ViterbiStep<S>> = Vec::new();
        v.push(step0);
        self.steps = v;
        proof {
            assert(self.layers() =~= seq![all_seeds]);
        }
        loop
            invariant
                self.wf(),
                self.steps@.len() > 0,
                ilen == input@.len(),
                self.spec_max_states() == old(self).spec_max_states(),
                self.spec_max_cost() == old(self).spec_max_cost(),
                self.layers()[0] == all_seeds,
                all_seeds.len() > 0,
                all_seeds == seeded(initial_states@, input@),
                forall|k: int|
                    1 <= k < self.layers().len() ==> #[trigger] self.layers()[k] == pruned(
                        step_spec(self.layers()[k - 1], input@),
                        self.spec_max_states(),
                        self.spec_max_cost(),
                    ),
                entries_idx_bounded(
                    self.layers()[self.layers().len() - 1],
                    self.layers().len() - 1,
                    input@.len() as int,
                ),
            ensures
                self.wf(),
                self.spec_max_states() == old(self).spec_max_states(),
                self.spec_max_cost() == old(self).spec_max_cost(),
                is_run(
                    self.layers(),
                    all_seeds,
                    input@,
                    self.spec_max_states(),
                    self.spec_max_cost(),
                ),
            decreases input@.len() + 1 - self.steps@.len(),
        {
            let ghost pre = self.layers();
            let cnt = self.step(input, Ghost(self.layers().len() - 1));
            if cnt == 0 {
                proof {
                    assert(self.layers() == pre);
                }
                break ;
            }
            proof {
                let n = self.layers().len();
                assert(self.layers()[n - 1] == pruned(
                    step_spec(pre[pre.len() - 1], input@),
                    self.spec_max_states(),
                    self.spec_max_cost(),
                ));
                assert forall|k: int| 1 <= k < n implies #[trigger] self.layers()[k] == pruned(
                    step_spec(self.layers()[k - 1], input@),
                    self.spec_max_states(),
                    self.spec_max_cost(),
                ) by {
                    if k < n - 1 {
                        assert(self.layers()[k] == pre[k]);
                        assert(self.layers()[k - 1] == pre[k - 1]);
                    } else {
                        assert(self.layers()[k - 1] == pre[k - 1]);
                    }
                }
                // the new last layer is nonempty and consumed at least one
                // more symbol than the previous one, so layers cannot
                // outnumber the input symbols
                assert(self.layers()[n - 1].len() > 0);
                assert(self.layers()[n - 1][0].1.input_idx >= n - 1);
                assert(self.layers()[n - 1][0].1.input_idx <= input@.len());
            }
        }
        Ok(())
    }

    /// Reconstruct the optimal path: select the cheapest state of the
    /// final layer — ties broken deterministically towards the earliest-
    /// interned id — then follow backpointers through the preceding layers
    /// to the seed layer, returning the state values in forward
    /// chronological order. Fails if and only if no layers survived.
    pub fn best_path(&self) -> (r: Result<Vec<S>, ViterbiError>)
        requires
            self.wf(),
        ensures
            match r {
                Ok(v) => self.layers().len() > 0 && v@ == path_states(self.layers()),
                Err(e) => e == ViterbiError::EmptyDecoder && self.layers().len() == 0,
            },
    {
        let n = self.steps.len();
        if n == 0 {
            return Err(ViterbiError::EmptyDecoder);
        }
        let ghost layers = self.layers();
        let last = &self.steps[n - 1];
        let ghost le = last.entries();
        let nl = last.len();
        let mut best: usize = 0;
        let mut i: usize = 1;
        while i < nl
            invariant
                last.wf(),
                le == last.entries(),
                nl == le.len(),
                0 < nl,
                1 <= i <= nl,
                best as int == argmin_upto(le, i as int),
                best < i,
            decreases nl - i,
        {
            if last.infos[i].cost < last.infos[best].cost {
                best = i;
            }
            i = i + 1;
        }
        proof {
            assert(best as int == argmin(le));
            assert(layers.last() == le);
            lemma_back_ids(layers, n as int - 1, best as int);
        }
        let ghost bids = best_ids(layers);
        let mut ids_rev: Vec<usize> = Vec::new();
        let mut cur: usize = best;
        let mut k: usize = n;
        while k > 0
            invariant
                self.wf(),
                layers == self.layers(),
                n == layers.len(),
                bids == best_ids(layers),
                bids.len() == n,
                forall|m: int| 0 <= m < n ==> 0 <= #[trigger] bids[m] < layers[m].len(),
                forall|k2: int|
                    1 <= k2 < n ==> #[trigger] bids[k2 - 1] == parent_of(
                        layers[k2][bids[k2]].1,
                    ),
                0 <= k <= n,
                ids_rev@.len() == n - k,
                forall|m: int| 0 <= m < n - k ==> #[trigger] ids_rev@[m] == bids[n - 1 - m],
                k >= 1 ==> cur as int == bids[k - 1],
            decreases k,
        {
            ids_rev.push(cur);
            if k > 1 {
                let ghost prev_cur = cur as int;
                let info = self.steps[k - 1].infos[cur];
                cur = match info.parent_idx {
                    Some(p) => p,
                    None => {
                        // non-seed records always carry a backpointer
                        proof {
                            assert(false);
                        }
                        0
                    },
                };
                proof {
                    assert(bids[k - 2] == parent_of(layers[k - 1][prev_cur].1));
                }
            }
            k = k - 1;
        }
        let mut result: Vec<S> = Vec::new();
        let mut j: usize = 0;
        while j < n
            invariant
                self.wf(),
                layers == self.layers(),
                n == layers.len(),
                bids == best_ids(layers),
                bids.len() == n,
                forall|m: int| 0 <= m < n ==> 0 <= #[trigger] bids[m] < layers[m].len(),
                ids_rev@.len() == n,
                forall|m: int| 0 <= m < n ==> #[trigger] ids_rev@[m] == bids[n - 1 - m],
                0 <= j <= n,
                result@.len() == j,
                forall|m: int| 0 <= m < j ==> #[trigger] result@[m] == layers[m][bids[m]].0,
            decreases n - j,
        {
            let id = ids_rev[n - 1 - j];
            result.push(self.steps[j].states[id].clone_state());
            j = j + 1;
        }
        proof {
            assert(result@ =~= path_states(layers));
        }
        Ok(result)
    }
}

} // verus!
