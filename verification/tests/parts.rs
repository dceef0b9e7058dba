use viterbi::models::{Chain, NeverEmits};
use viterbi::viterbi::{children_with_emission, emit, sat_add, State, StateInfo};

#[test]
fn sat_add_saturates_at_the_top() {
    assert_eq!(sat_add(2, 3), 5);
    assert_eq!(sat_add(u64::MAX - 1, 5), u64::MAX);
    assert_eq!(sat_add(u64::MAX, u64::MAX), u64::MAX);
}

#[test]
fn state_info_update_keeps_the_cheaper_record() {
    let mut a = StateInfo { input_idx: 3, cost: 10, parent_idx: Some(1) };
    let b = StateInfo { input_idx: 4, cost: 7, parent_idx: Some(2) };
    a.update(b);
    assert_eq!(a.cost, 7);
    assert_eq!(a.input_idx, 4);
    assert_eq!(a.parent_idx, Some(2));
    // ties keep the first-seen record
    let c = StateInfo { input_idx: 9, cost: 7, parent_idx: Some(5) };
    a.update(c);
    assert_eq!(a.input_idx, 4);
    assert_eq!(a.parent_idx, Some(2));
}

#[test]
fn emit_advances_the_record() {
    let info = StateInfo { input_idx: 0, cost: 100, parent_idx: None };
    let r = emit(Chain::C, info, &[4u8, 9]);
    let (s, advanced) = r.unwrap();
    assert_eq!(s, Chain::C);
    assert_eq!(advanced.input_idx, 1);
    assert_eq!(advanced.cost, 100);
    assert_eq!(advanced.parent_idx, None);
}

#[test]
fn emit_drops_unemittable_states() {
    let info = StateInfo { input_idx: 0, cost: 0, parent_idx: None };
    assert!(emit(NeverEmits {}, info, &[9u8]).is_none());
    // a consuming model is unemittable against exhausted input too
    assert!(emit(Chain::A, info, &[]).is_none());
}

#[test]
fn children_with_emission_admits_emittable_children() {
    // both children of A are emittable against a nonempty suffix, each
    // carrying its combined transition + emission cost and consumed count
    let r = children_with_emission(&Chain::A, &[0u8, 0]);
    assert_eq!(r, vec![(Chain::B, 1, 1), (Chain::C, 3, 1)]);
}

#[test]
fn children_with_emission_prunes_failed_emissions() {
    // against an empty suffix no child is emittable
    let r = children_with_emission(&Chain::A, &[]);
    assert!(r.is_empty());
    // a childless state offers nothing either way
    assert!(children_with_emission(&Chain::D, &[0u8]).is_empty());
}
