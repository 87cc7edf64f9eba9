use exclusion_set::{ExclusionSet, RemoveOutcome, WaitOutcome};

#[test]
fn new_set_holds_nothing() {
    let mut set: ExclusionSet<u32> = ExclusionSet::new();
    assert!(!set.remove(&1));
    assert!(!set.is_waiting(0));
    assert_eq!(set.remove_or_hand_off(&1), RemoveOutcome::Absent);
}

#[test]
fn insert_is_exclusive_per_value() {
    let mut set = ExclusionSet::new();
    assert!(set.try_insert(10u32));
    assert!(set.try_insert(20u32));
    assert!(!set.try_insert(10u32));
    assert!(!set.try_insert(20u32));
    assert!(set.try_insert(30u32));
}

#[test]
fn remove_undoes_insert() {
    let mut set = ExclusionSet::new();
    assert!(set.try_insert(1u8));
    assert!(set.try_insert(2u8));
    assert_eq!(set.remove_or_hand_off(&2), RemoveOutcome::Vacated);
    assert!(!set.remove(&2));
    assert!(!set.try_insert(1u8));
    assert!(set.try_insert(2u8));
}

#[test]
fn wait_on_absent_value_inserts() {
    let mut set = ExclusionSet::new();
    assert_eq!(set.wait_to_insert(5i64, 1), WaitOutcome::Inserted);
    assert!(!set.try_insert(5i64));
    assert!(!set.is_waiting(1));
}

#[test]
fn wait_on_held_value_queues() {
    let mut set = ExclusionSet::new();
    assert!(set.try_insert(5i64));
    assert_eq!(set.wait_to_insert(5i64, 1), WaitOutcome::Queued);
    assert!(set.is_waiting(1));
    assert!(!set.is_waiting(2));
}

#[test]
fn remove_serves_last_waiter_first() {
    let mut set = ExclusionSet::new();
    assert!(set.try_insert(String::from("a")));
    assert_eq!(set.wait_to_insert(String::from("a"), 7), WaitOutcome::Queued);
    assert_eq!(set.wait_to_insert(String::from("a"), 8), WaitOutcome::Queued);
    assert_eq!(set.remove_or_hand_off(&String::from("a")), RemoveOutcome::HandedTo(8));
    assert!(!set.is_waiting(8));
    assert!(set.is_waiting(7));
    assert!(!set.try_insert(String::from("a")));
    assert_eq!(set.remove_or_hand_off(&String::from("a")), RemoveOutcome::HandedTo(7));
    assert!(!set.is_waiting(7));
    assert!(set.remove(&String::from("a")));
    assert!(!set.remove(&String::from("a")));
    assert!(set.try_insert(String::from("a")));
}

#[test]
fn hand_off_keeps_value_held() {
    let mut set = ExclusionSet::new();
    assert!(set.try_insert(3u16));
    assert_eq!(set.wait_to_insert(3u16, 42), WaitOutcome::Queued);
    assert!(set.remove(&3));
    assert!(!set.try_insert(3u16));
    assert!(set.remove(&3));
    assert!(set.try_insert(3u16));
}

#[test]
fn values_do_not_disturb_each_other() {
    let mut set = ExclusionSet::new();
    assert!(set.try_insert('x'));
    assert!(set.try_insert('y'));
    assert_eq!(set.wait_to_insert('y', 9), WaitOutcome::Queued);
    assert!(set.remove(&'x'));
    assert!(set.is_waiting(9));
    assert!(!set.try_insert('y'));
    assert!(set.try_insert('x'));
}

#[test]
fn lookup_after_removal_finds_newer_and_older_values() {
    let mut set = ExclusionSet::new();
    for v in 0u64..6 {
        assert!(set.try_insert(v));
    }
    assert!(set.remove(&2));
    assert!(!set.try_insert(0));
    assert!(!set.try_insert(5));
    assert!(set.try_insert(2));
    assert!(set.remove(&4));
    assert!(set.remove(&1));
    assert!(set.try_insert(4));
    assert!(set.try_insert(1));
    assert!(!set.try_insert(3));
}

#[test]
fn two_callers_take_turns_on_one_value() {
    let mut set = ExclusionSet::new();
    assert_eq!(set.wait_to_insert(1u8, 0), WaitOutcome::Inserted);
    assert_eq!(set.wait_to_insert(1u8, 1), WaitOutcome::Queued);
    assert_eq!(set.remove_or_hand_off(&1), RemoveOutcome::HandedTo(1));
    assert!(!set.is_waiting(1));
    assert_eq!(set.remove_or_hand_off(&1), RemoveOutcome::Vacated);
    assert_eq!(set.remove_or_hand_off(&1), RemoveOutcome::Absent);
}

#[test]
fn three_callers_are_served_one_per_remove() {
    let mut set = ExclusionSet::new();
    assert!(set.try_insert(9u32));
    assert_eq!(set.wait_to_insert(9u32, 1), WaitOutcome::Queued);
    assert_eq!(set.wait_to_insert(9u32, 2), WaitOutcome::Queued);
    assert!(set.is_waiting(1));
    assert!(set.is_waiting(2));
    assert_eq!(set.remove_or_hand_off(&9), RemoveOutcome::HandedTo(2));
    assert!(set.is_waiting(1));
    assert_eq!(set.remove_or_hand_off(&9), RemoveOutcome::HandedTo(1));
    assert!(!set.is_waiting(1));
    assert_eq!(set.remove_or_hand_off(&9), RemoveOutcome::Vacated);
}

#[test]
fn many_distinct_values_insert() {
    let mut set = ExclusionSet::new();
    for v in ["m", "m1", "m2", "m3", "ma", "mb", "mc"] {
        assert!(set.try_insert(v));
    }
    for v in ["m", "m1", "m2", "m3", "ma", "mb", "mc"] {
        assert!(!set.try_insert(v));
    }
}
