use viterbi::models::Chain;
use viterbi::models::DummyState;
use viterbi::models::HealthObservation::{Cold, Dizzy, Normal};
use viterbi::models::HealthState::{Fever, Healthy};
use viterbi::models::{emission_cost, transition_cost, Fork, HealthState, NeverEmits};
use viterbi::viterbi::{State, Viterbi, ViterbiError};

#[test]
fn test_instantiation() {
    let inital_states = vec![(DummyState {}, 12)];
    let mut s = Viterbi::<DummyState>::new(None, None);
    s.compute(inital_states, &vec![0, 4]).unwrap();
    println!("{:?}", s);
}

#[test]
fn test_wiki_example() {
    let inital_states = vec![(Healthy, 0), (Fever, 0)];
    let mut s = Viterbi::<HealthState>::new(None, None);
    s.compute(inital_states, &vec![Normal, Cold, Dizzy]).unwrap();
    let best_path = s.best_path();

    println!("{:#?}", best_path);
    assert!(best_path == Ok(vec![Healthy, Healthy, Fever]));
}

#[test]
fn duplicate_initial_state_is_rejected() {
    // two structurally equal seeds, both surviving emission
    let inital_states = vec![(Healthy, 1), (Healthy, 2)];
    let mut s = Viterbi::<HealthState>::new(None, None);
    let r = s.compute(inital_states, &vec![Normal]);
    assert_eq!(r, Err(ViterbiError::DuplicateInitialState));
}

#[test]
fn dead_end_seed_gives_empty_decoder() {
    // the sole seed is never emittable, so layer 0 is empty and discarded
    let mut s = Viterbi::<NeverEmits>::new(None, None);
    let r = s.compute(vec![(NeverEmits {}, 0)], &vec![7u8]);
    assert_eq!(r, Ok(()));
    assert_eq!(s.best_path(), Err(ViterbiError::EmptyDecoder));
}

#[test]
fn best_path_on_fresh_engine_is_empty_decoder() {
    let s = Viterbi::<HealthState>::new(None, None);
    assert_eq!(s.best_path(), Err(ViterbiError::EmptyDecoder));
}

#[test]
fn unpruned_decode_follows_the_surviving_branch() {
    let mut s = Viterbi::<Chain>::new(None, None);
    s.compute(vec![(Chain::A, 0)], &vec![0u8, 0, 0]).unwrap();
    assert_eq!(s.best_path(), Ok(vec![Chain::A, Chain::C, Chain::D]));
}

#[test]
fn beam_prune_keeps_the_cheapest_entries() {
    // with max_states = 1 only the cheapest successor (B, cost 1) survives
    // its layer, and the decode dead-ends there
    let mut s = Viterbi::<Chain>::new(Some(1), None);
    s.compute(vec![(Chain::A, 0)], &vec![0u8, 0, 0]).unwrap();
    assert_eq!(s.best_path(), Ok(vec![Chain::A, Chain::B]));
}

#[test]
fn cost_bound_discards_expensive_entries() {
    // max_cost = 2 discards C (cost 3) but keeps B (cost 1)
    let mut s = Viterbi::<Chain>::new(None, Some(2));
    s.compute(vec![(Chain::A, 0)], &vec![0u8, 0, 0]).unwrap();
    assert_eq!(s.best_path(), Ok(vec![Chain::A, Chain::B]));
}

#[test]
fn wide_enough_beam_changes_nothing() {
    let mut s = Viterbi::<Chain>::new(Some(10), Some(1000));
    s.compute(vec![(Chain::A, 0)], &vec![0u8, 0, 0]).unwrap();
    assert_eq!(s.best_path(), Ok(vec![Chain::A, Chain::C, Chain::D]));
}

#[test]
fn decode_is_deterministic() {
    let mut a = Viterbi::<HealthState>::new(None, None);
    a.compute(vec![(Healthy, 0), (Fever, 0)], &vec![Normal, Cold, Dizzy])
        .unwrap();
    let mut b = Viterbi::<HealthState>::new(None, None);
    b.compute(vec![(Healthy, 0), (Fever, 0)], &vec![Normal, Cold, Dizzy])
        .unwrap();
    assert_eq!(a.best_path(), b.best_path());
}

#[test]
fn optimal_cost_matches_brute_force_on_small_lattice() {
    // brute force over the eight two-step weather paths, seeded H/F at 0:
    // the engine's chosen path must be one of minimum summed cost
    let obs = vec![Normal, Cold, Dizzy];
    let mut best: Option<(u64, Vec<HealthState>)> = None;
    for s0 in [Healthy, Fever] {
        for s1 in [Healthy, Fever] {
            for s2 in [Healthy, Fever] {
                let cost = emission_cost(s0, obs[0])
                    + transition_cost(s0, s1)
                    + emission_cost(s1, obs[1])
                    + transition_cost(s1, s2)
                    + emission_cost(s2, obs[2]);
                let path = vec![s0, s1, s2];
                if best.as_ref().map_or(true, |(c, _)| cost < *c) {
                    best = Some((cost, path));
                }
            }
        }
    }
    let mut engine = Viterbi::<HealthState>::new(None, None);
    engine
        .compute(vec![(Healthy, 0), (Fever, 0)], &obs)
        .unwrap();
    assert_eq!(engine.best_path(), Ok(best.unwrap().1));
}

#[test]
fn reused_engine_reports_the_new_decode() {
    let mut s = Viterbi::<Chain>::new(None, None);
    s.compute(vec![(Chain::A, 0)], &vec![0u8, 0, 0]).unwrap();
    s.compute(vec![(Chain::C, 5)], &vec![0u8, 0]).unwrap();
    assert_eq!(s.best_path(), Ok(vec![Chain::C, Chain::D]));
}

#[test]
fn model_contract_is_exercised() {
    // children and emission of the verified weather model behave as stated
    let kids = Healthy.children();
    assert_eq!(kids.len(), 2);
    assert_eq!(kids[0], (Healthy, transition_cost(Healthy, Healthy)));
    assert_eq!(kids[1], (Fever, transition_cost(Healthy, Fever)));
    assert_eq!(Healthy.emission(&[]), None);
    assert_eq!(
        Fever.emission(&[Dizzy, Cold]),
        Some((1, emission_cost(Fever, Dizzy)))
    );
    assert!(Healthy.eq_state(&Healthy));
    assert!(!Healthy.eq_state(&Fever));
    assert_eq!(Fever.clone_state(), Fever);
}

#[test]
fn selection_tie_favors_the_earliest_interned_state() {
    // X and Y tie at cost 5 in the final layer; X was interned first
    let mut s = Viterbi::<Fork>::new(None, None);
    s.compute(vec![(Fork::R, 0)], &vec![0u8, 0]).unwrap();
    assert_eq!(s.best_path(), Ok(vec![Fork::R, Fork::X]));
}

#[test]
fn beam_prune_tie_favors_the_earliest_interned_state() {
    // a beam of one must choose between the tied X and Y: X stays
    let mut s = Viterbi::<Fork>::new(Some(1), None);
    s.compute(vec![(Fork::R, 0)], &vec![0u8, 0]).unwrap();
    assert_eq!(s.best_path(), Ok(vec![Fork::R, Fork::X]));
}
