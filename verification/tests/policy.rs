use lruk::policy::{Policy, Residence};

#[test]
fn slots_start_unseen() {
    let policy = Policy::<4, 2>::new(0);
    assert_eq!(policy.residence(0), Residence::Unseen);
    assert_eq!(policy.residence(9), Residence::Unseen);
    assert_eq!(policy.victim(), None);
    assert_eq!(policy.clock(), 0);
    assert_eq!(policy.period(), 0);
}

#[test]
fn k_references_promote() {
    let mut policy = Policy::<4, 3>::new(0);
    policy.reference(2);
    assert_eq!(policy.residence(2), Residence::Correlated);
    policy.reference(2);
    assert_eq!(policy.residence(2), Residence::Correlated);
    policy.reference(2);
    assert_eq!(policy.residence(2), Residence::Retained);
    policy.reference(2);
    assert_eq!(policy.residence(2), Residence::Retained);
    assert_eq!(policy.clock(), 4);
}

#[test]
fn one_reference_retains_when_k_is_one() {
    let mut policy = Policy::<2, 1>::new(0);
    policy.reference(0);
    assert_eq!(policy.residence(0), Residence::Retained);
    policy.reference(1);
    policy.reference(0);
    // plain LRU: slot 1 was used least recently
    assert_eq!(policy.evict(), Some(1));
    assert_eq!(policy.evict(), Some(0));
    assert_eq!(policy.evict(), None);
}

#[test]
fn correlated_references_count_once() {
    let mut policy = Policy::<4, 2>::new(5);
    policy.reference(1); // recorded at 1
    policy.reference(1); // at 2, within 5 of 1
    policy.reference(1); // at 3
    assert_eq!(policy.residence(1), Residence::Correlated);
    assert_eq!(policy.clock(), 3);
    policy.reference(0); // 4
    policy.reference(0); // 5
    policy.reference(0); // 6
    policy.reference(1); // at 7: 6 after 1, recorded
    assert_eq!(policy.residence(1), Residence::Retained);
    assert_eq!(policy.residence(0), Residence::Correlated);
}

#[test]
fn an_ignored_reference_does_not_refresh_the_slot() {
    let mut policy = Policy::<4, 3>::new(1);
    policy.reference(0); // 1
    policy.reference(1); // 2
    policy.reference(1); // 3: ignored, slot 1 stays where it is
    policy.reference(0); // 4: recorded, slot 0 to the front
    assert_eq!(policy.victim(), Some(1));
}

#[test]
fn eviction_prefers_correlated_slots() {
    let mut policy = Policy::<4, 2>::new(0);
    policy.reference(0);
    policy.reference(0); // retained
    policy.reference(1);
    policy.reference(2);
    assert_eq!(policy.victim(), Some(1));
    assert_eq!(policy.evict(), Some(1));
    assert_eq!(policy.residence(1), Residence::Unseen);
    assert_eq!(policy.evict(), Some(2));
    assert_eq!(policy.evict(), Some(0));
    assert_eq!(policy.evict(), None);
}

#[test]
fn correlated_slots_leave_least_recent_first() {
    let mut policy = Policy::<4, 3>::new(0);
    policy.reference(0);
    policy.reference(1);
    policy.reference(2);
    policy.reference(0); // 0 back to the front
    assert_eq!(policy.evict(), Some(1));
    assert_eq!(policy.evict(), Some(2));
    assert_eq!(policy.evict(), Some(0));
}

#[test]
fn retained_tail_has_largest_backward_distance() {
    let mut policy = Policy::<4, 2>::new(0);
    policy.reference(0); // 1
    policy.reference(1); // 2
    policy.reference(1); // 3: slot 1 retained, second-last reference at 2
    policy.reference(0); // 4: slot 0 retained, second-last reference at 1
    // slot 0 was referenced last, but its second-last reference is the oldest
    assert_eq!(policy.victim(), Some(0));
    policy.reference(0); // 5: second-last reference of slot 0 now at 4
    assert_eq!(policy.victim(), Some(1));
    policy.reference(2); // 6
    policy.reference(2); // 7: second-last at 6
    policy.reference(1); // 8: second-last of slot 1 now at 3, still the oldest
    assert_eq!(policy.evict(), Some(1));
    assert_eq!(policy.evict(), Some(0));
    assert_eq!(policy.evict(), Some(2));
    assert_eq!(policy.evict(), None);
}

#[test]
fn evicted_slot_starts_over() {
    let mut policy = Policy::<2, 2>::new(0);
    policy.reference(0);
    policy.reference(0);
    assert_eq!(policy.evict(), Some(0));
    policy.reference(0);
    assert_eq!(policy.residence(0), Residence::Correlated);
}

#[test]
fn forget_takes_a_slot_out() {
    let mut policy = Policy::<3, 2>::new(0);
    policy.reference(0);
    policy.reference(1);
    policy.reference(1);
    policy.forget(1);
    assert_eq!(policy.residence(1), Residence::Unseen);
    policy.forget(2);
    policy.forget(17);
    assert_eq!(policy.residence(0), Residence::Correlated);
    assert_eq!(policy.evict(), Some(0));
    assert_eq!(policy.evict(), None);
}
