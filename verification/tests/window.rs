use viterbi::windowiter::DynamicWindowIterator;

#[test]
fn get_reads_ahead_lazily() {
    let mut w = DynamicWindowIterator::from_iter(vec![10, 20, 30, 40, 50]);
    assert_eq!(w.get(0), Some(&10));
    assert_eq!(w.get(3), Some(&40));
    assert_eq!(w.get(1), Some(&20));
}

#[test]
fn get_past_the_end_reports_end_of_sequence() {
    let mut w = DynamicWindowIterator::from_iter(vec![1, 2]);
    assert_eq!(w.get(5), None);
    // once exhausted before an index, every later read agrees
    assert_eq!(w.get(5), None);
    assert_eq!(w.get(7), None);
    // elements before the end are still there
    assert_eq!(w.get(1), Some(&2));
}

#[test]
fn truncate_leaves_later_reads_unaffected() {
    let mut w = DynamicWindowIterator::from_iter(vec![10, 20, 30, 40, 50]);
    assert_eq!(w.get(4), Some(&50));
    w.truncate(2);
    assert_eq!(w.get(2), Some(&30));
    assert_eq!(w.get(3), Some(&40));
    assert_eq!(w.get(4), Some(&50));
    assert_eq!(w.get(5), None);
}

#[test]
fn truncate_before_reading_still_covers_the_rest() {
    let mut w = DynamicWindowIterator::from_iter(vec![7, 8, 9]);
    w.truncate(1);
    assert_eq!(w.get(1), Some(&8));
    assert_eq!(w.get(2), Some(&9));
}

#[test]
fn truncate_past_the_end_is_harmless() {
    let mut w = DynamicWindowIterator::from_iter(vec![1, 2, 3]);
    w.truncate(10);
    assert_eq!(w.get(10), None);
}

#[test]
fn read_till_only_pulls() {
    let mut w = DynamicWindowIterator::from_iter(vec![4, 5, 6]);
    w.read_till(2);
    assert_eq!(w.get(0), Some(&4));
    assert_eq!(w.get(2), Some(&6));
}

#[test]
fn empty_producer_reports_end_at_once() {
    let mut w: DynamicWindowIterator<u32> = DynamicWindowIterator::from_iter(Vec::new());
    assert_eq!(w.get(0), None);
}
