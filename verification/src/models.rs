//! Example domain models: small verified implementations of the `State`
//! capability contract, exercised by the test suite.

use vstd::prelude::*;

verus! {

use crate::viterbi::State;

/// A state with no children that consumes one symbol at no cost: the
/// smallest model a decoder can be instantiated with.
#[derive(Clone, Copy, Eq, PartialEq, Hash, Debug, Structural)]
pub struct DummyState {}

impl State for DummyState {
    type InputSymbol = u8;

    open spec fn spec_children(&self) -> Seq<(DummyState, u64)> {
        Seq::empty()
    }

    open spec fn spec_emission(&self, input: Seq<u8>) -> Option<(usize, u64)> {
        if input.len() == 0 {
            None
        } else {
            Some((1usize, 0u64))
        }
    }

    proof fn emission_consumes(&self, input: Seq<u8>) {
    }

    fn children(&self) -> (r: Vec<(DummyState, u64)>) {
        let r: Vec<(DummyState, u64)> = Vec::new();
        proof {
            assert(r@ =~= self.spec_children());
        }
        r
    }

    fn emission(&self, input: &[u8]) -> (r: Option<(usize, u64)>) {
        if input.len() == 0 {
            None
        } else {
            Some((1, 0))
        }
    }

    fn eq_state(&self, other: &DummyState) -> (r: bool) {
        self == other
    }

    fn clone_state(&self) -> (r: DummyState) {
        DummyState {  }
    }
}

/// A state that is never emittable: every decode seeded from it alone
/// leaves an empty seed layer behind.
#[derive(Clone, Copy, Eq, PartialEq, Hash, Debug, Structural)]
pub struct NeverEmits {}

impl State for NeverEmits {
    type InputSymbol = u8;

    open spec fn spec_children(&self) -> Seq<(NeverEmits, u64)> {
        Seq::empty()
    }

    open spec fn spec_emission(&self, input: Seq<u8>) -> Option<(usize, u64)> {
        None
    }

    proof fn emission_consumes(&self, input: Seq<u8>) {
    }

    fn children(&self) -> (r: Vec<(NeverEmits, u64)>) {
        let r: Vec<(NeverEmits, u64)> = Vec::new();
        proof {
            assert(r@ =~= self.spec_children());
        }
        r
    }

    fn emission(&self, input: &[u8]) -> (r: Option<(usize, u64)>) {
        None
    }

    fn eq_state(&self, other: &NeverEmits) -> (r: bool) {
        self == other
    }

    fn clone_state(&self) -> (r: NeverEmits) {
        NeverEmits {  }
    }
}

/// An observation of the two-state weather model.
#[derive(Clone, Copy, Eq, PartialEq, Hash, Debug, Structural)]
pub enum HealthObservation {
    Dizzy,
    Cold,
    Normal,
}

/// A hidden state of the two-state weather model.
#[derive(Clone, Copy, Eq, PartialEq, Hash, Debug, Structural)]
pub enum HealthState {
    Healthy,
    Fever,
}

/// Transition costs of the weather model: the negative log of the
/// transition probability, scaled by one million and rounded.
/// The probabilities are 0.7 (stay healthy), 0.3 (fall ill),
/// 0.6 (stay ill) and 0.4 (recover).
pub open spec fn spec_transition_cost(instate: HealthState, outstate: HealthState) -> u64 {
    match (instate, outstate) {
        (HealthState::Healthy, HealthState::Healthy) => 356675u64,
        (HealthState::Healthy, HealthState::Fever) => 1203973u64,
        (HealthState::Fever, HealthState::Fever) => 510826u64,
        (HealthState::Fever, HealthState::Healthy) => 916291u64,
    }
}

/// Emission costs of the weather model: the negative log of the
/// probability of the observation under the state, scaled as above.
/// Healthy emits dizzy/cold/normal with probability 0.1/0.4/0.5, fever
/// with probability 0.6/0.3/0.1.
pub open spec fn spec_emission_cost(state: HealthState, emission: HealthObservation) -> u64 {
    match (state, emission) {
        (HealthState::Healthy, HealthObservation::Dizzy) => 2302585u64,
        (HealthState::Healthy, HealthObservation::Cold) => 916291u64,
        (HealthState::Healthy, HealthObservation::Normal) => 693147u64,
        (HealthState::Fever, HealthObservation::Dizzy) => 510826u64,
        (HealthState::Fever, HealthObservation::Cold) => 1203973u64,
        (HealthState::Fever, HealthObservation::Normal) => 2302585u64,
    }
}

/// Executable transition cost table.
pub fn transition_cost(instate: HealthState, outstate: HealthState) -> (r: u64)
    ensures
        r == spec_transition_cost(instate, outstate),
{
    match (instate, outstate) {
        (HealthState::Healthy, HealthState::Healthy) => 356675,
        (HealthState::Healthy, HealthState::Fever) => 1203973,
        (HealthState::Fever, HealthState::Fever) => 510826,
        (HealthState::Fever, HealthState::Healthy) => 916291,
    }
}

/// Executable emission cost table.
pub fn emission_cost(state: HealthState, emission: HealthObservation) -> (r: u64)
    ensures
        r == spec_emission_cost(state, emission),
{
    match (state, emission) {
        (HealthState::Healthy, HealthObservation::Dizzy) => 2302585,
        (HealthState::Healthy, HealthObservation::Cold) => 916291,
        (HealthState::Healthy, HealthObservation::Normal) => 693147,
        (HealthState::Fever, HealthObservation::Dizzy) => 510826,
        (HealthState::Fever, HealthObservation::Cold) => 1203973,
        (HealthState::Fever, HealthObservation::Normal) => 2302585,
    }
}

impl State for HealthState {
    type InputSymbol = HealthObservation;

    open spec fn spec_children(&self) -> Seq<(HealthState, u64)> {
        seq![
            (HealthState::Healthy, spec_transition_cost(*self, HealthState::Healthy)),
            (HealthState::Fever, spec_transition_cost(*self, HealthState::Fever)),
        ]
    }

    open spec fn spec_emission(&self, input: Seq<HealthObservation>) -> Option<(usize, u64)> {
        if input.len() == 0 {
            None
        } else {
            Some((1usize, spec_emission_cost(*self, input[0])))
        }
    }

    proof fn emission_consumes(&self, input: Seq<HealthObservation>) {
    }

    fn children(&self) -> (r: Vec<(HealthState, u64)>) {
        let mut r: Vec<(HealthState, u64)> = Vec::new();
        r.push((HealthState::Healthy, transition_cost(*self, HealthState::Healthy)));
        r.push((HealthState::Fever, transition_cost(*self, HealthState::Fever)));
        proof {
            assert(r@ =~= self.spec_children());
        }
        r
    }

    fn emission(&self, input: &[HealthObservation]) -> (r: Option<(usize, u64)>) {
        if input.len() == 0 {
            None
        } else {
            Some((1, emission_cost(*self, input[0])))
        }
    }

    fn eq_state(&self, other: &HealthState) -> (r: bool) {
        self == other
    }

    fn clone_state(&self) -> (r: HealthState) {
        *self
    }
}

/// A small explicit lattice: `A` branches to `B` (a cheap dead end, cost
/// 1) and `C` (cost 3); `C` continues to `D` (cost 0). Every emission
/// consumes one symbol at no cost.
#[derive(Clone, Copy, Eq, PartialEq, Hash, Debug, Structural)]
pub enum Chain {
    A,
    B,
    C,
    D,
}

impl State for Chain {
    type InputSymbol = u8;

    open spec fn spec_children(&self) -> Seq<(Chain, u64)> {
        match self {
            Chain::A => seq![(Chain::B, 1u64), (Chain::C, 3u64)],
            Chain::B => Seq::empty(),
            Chain::C => seq![(Chain::D, 0u64)],
            Chain::D => Seq::empty(),
        }
    }

    open spec fn spec_emission(&self, input: Seq<u8>) -> Option<(usize, u64)> {
        if input.len() == 0 {
            None
        } else {
            Some((1usize, 0u64))
        }
    }

    proof fn emission_consumes(&self, input: Seq<u8>) {
    }

    fn children(&self) -> (r: Vec<(Chain, u64)>) {
        let mut r: Vec<(Chain, u64)> = Vec::new();
        match self {
            Chain::A => {
                r.push((Chain::B, 1));
                r.push((Chain::C, 3));
            },
            Chain::B => {},
            Chain::C => {
                r.push((Chain::D, 0));
            },
            Chain::D => {},
        }
        proof {
            assert(r@ =~= self.spec_children());
        }
        r
    }

    fn emission(&self, input: &[u8]) -> (r: Option<(usize, u64)>) {
        if input.len() == 0 {
            None
        } else {
            Some((1, 0))
        }
    }

    fn eq_state(&self, other: &Chain) -> (r: bool) {
        self == other
    }

    fn clone_state(&self) -> (r: Chain) {
        *self
    }
}

/// A tie: `R` branches to `X` and `Y` at the same cost 5, both dead
/// ends. Every emission consumes one symbol at no cost. Exercises the
/// deterministic tie-break rules: selection and beam pruning both favor
/// the earliest-interned id, here `X`, which `children` lists first.
#[derive(Clone, Copy, Eq, PartialEq, Hash, Debug, Structural)]
pub enum Fork {
    R,
    X,
    Y,
}

impl State for Fork {
    type InputSymbol = u8;

    open spec fn spec_children(&self) -> Seq<(Fork, u64)> {
        match self {
            Fork::R => seq![(Fork::X, 5u64), (Fork::Y, 5u64)],
            Fork::X => Seq::empty(),
            Fork::Y => Seq::empty(),
        }
    }

    open spec fn spec_emission(&self, input: Seq<u8>) -> Option<(usize, u64)> {
        if input.len() == 0 {
            None
        } else {
            Some((1usize, 0u64))
        }
    }

    proof fn emission_consumes(&self, input: Seq<u8>) {
    }

    fn children(&self) -> (r: Vec<(Fork, u64)>) {
        let mut r: Vec<(Fork, u64)> = Vec::new();
        match self {
            Fork::R => {
                r.push((Fork::X, 5));
                r.push((Fork::Y, 5));
            },
            Fork::X => {},
            Fork::Y => {},
        }
        proof {
            assert(r@ =~= self.spec_children());
        }
        r
    }

    fn emission(&self, input: &[u8]) -> (r: Option<(usize, u64)>) {
        if input.len() == 0 {
            None
        } else {
            Some((1, 0))
        }
    }

    fn eq_state(&self, other: &Fork) -> (r: bool) {
        self == other
    }

    fn clone_state(&self) -> (r: Fork) {
        *self
    }
}

} // verus!
