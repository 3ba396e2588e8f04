use lruk::history::{Distance, History, Tracker};

#[test]
fn empty_history_has_infinite_distance() {
    let history = History::<2>::new();
    assert_eq!(history.count(), 0);
    assert_eq!(history.oldest(), None);
    assert_eq!(history.latest(), None);
    assert_eq!(history.k_backward_distance(10), Distance::Infinite);
}

#[test]
fn sparse_history_has_infinite_distance() {
    let mut history = History::<3>::new();
    history.record(4);
    history.record(9);
    assert_eq!(history.count(), 2);
    assert_eq!(history.oldest(), Some(4));
    assert_eq!(history.latest(), Some(9));
    assert_eq!(history.k_backward_distance(20), Distance::Infinite);
}

#[test]
fn full_history_measures_from_oldest() {
    let mut history = History::<2>::new();
    history.record(4);
    history.record(9);
    assert_eq!(history.count(), 2);
    assert_eq!(history.k_backward_distance(20), Distance::Finite(16));
    assert_eq!(history.k_backward_distance(9), Distance::Finite(5));
}

#[test]
fn full_history_drops_oldest() {
    let mut history = History::<3>::new();
    for now in [1, 2, 3, 5, 8] {
        history.record(now);
    }
    assert_eq!(history.count(), 3);
    assert_eq!(history.oldest(), Some(3));
    assert_eq!(history.latest(), Some(8));
    assert_eq!(history.k_backward_distance(13), Distance::Finite(10));
    history.record(13);
    assert_eq!(history.oldest(), Some(5));
    assert_eq!(history.latest(), Some(13));
}

#[test]
fn history_of_one_keeps_last_reference() {
    let mut history = History::<1>::new();
    history.record(7);
    assert_eq!(history.k_backward_distance(7), Distance::Finite(0));
    history.record(11);
    assert_eq!(history.count(), 1);
    assert_eq!(history.oldest(), Some(11));
    assert_eq!(history.k_backward_distance(12), Distance::Finite(1));
}

#[test]
fn equal_times_are_kept() {
    let mut history = History::<2>::new();
    history.record(5);
    history.record(5);
    assert_eq!(history.count(), 2);
    assert_eq!(history.k_backward_distance(5), Distance::Finite(0));
}

#[test]
fn clear_forgets_everything() {
    let mut history = History::<2>::new();
    history.record(1);
    history.record(2);
    history.clear();
    assert_eq!(history.count(), 0);
    assert_eq!(history.oldest(), None);
    assert_eq!(history.k_backward_distance(3), Distance::Infinite);
    history.record(3);
    assert_eq!(history.oldest(), Some(3));
    assert_eq!(history.latest(), Some(3));
}

#[test]
fn tracker_keeps_slots_apart() {
    let mut tracker = Tracker::<3, 2>::new();
    tracker.record_reference(0, 1);
    tracker.record_reference(2, 2);
    tracker.record_reference(0, 3);

    assert_eq!(tracker.reference_count(0), 2);
    assert_eq!(tracker.reference_count(1), 0);
    assert_eq!(tracker.reference_count(2), 1);
    assert_eq!(tracker.oldest(0), Some(1));
    assert_eq!(tracker.latest(0), Some(3));
    assert_eq!(tracker.k_backward_distance(0, 10), Distance::Finite(9));
    assert_eq!(tracker.k_backward_distance(1, 10), Distance::Infinite);
    assert_eq!(tracker.k_backward_distance(2, 10), Distance::Infinite);
}

#[test]
fn tracker_clear_resets_one_slot() {
    let mut tracker = Tracker::<2, 2>::new();
    tracker.record_reference(0, 1);
    tracker.record_reference(1, 2);
    tracker.clear(0);
    assert_eq!(tracker.reference_count(0), 0);
    assert_eq!(tracker.latest(0), None);
    assert_eq!(tracker.reference_count(1), 1);
    assert_eq!(tracker.latest(1), Some(2));
}
