use rcore_os::sync::deadlock_detector::{DeadlockDetector, DeadlockDetectorInner};

fn detector(available: Vec<i32>, allocation: Vec<Vec<i32>>, need: Vec<Vec<i32>>) -> DeadlockDetector {
    DeadlockDetector { inner: DeadlockDetectorInner { available, allocation, need } }
}

fn state(d: &DeadlockDetector) -> (Vec<i32>, Vec<Vec<i32>>, Vec<Vec<i32>>) {
    (d.inner.available.clone(), d.inner.allocation.clone(), d.inner.need.clone())
}

#[test]
fn new_detector_knows_nothing() {
    let d = DeadlockDetector::new();
    assert!(d.inner.available.is_empty());
    assert!(d.inner.allocation.is_empty());
    assert!(d.inner.need.is_empty());
    let i = DeadlockDetectorInner::new();
    assert!(i.available.is_empty() && i.allocation.is_empty() && i.need.is_empty());
}

#[test]
fn grants_a_request_that_keeps_the_state_safe() {
    let mut d = detector(vec![1, 2], vec![vec![0, 0], vec![0, 1]], vec![vec![0, 0], vec![0, 0]]);
    assert!(d.is_safe_state(0, vec![1, 1]));
    assert_eq!(d.inner.available, vec![0, 1]);
    assert_eq!(d.inner.allocation, vec![vec![1, 1], vec![0, 1]]);
    assert_eq!(d.inner.need, vec![vec![-1, -1], vec![0, 0]]);
}

#[test]
fn refuses_a_request_above_what_is_available() {
    let mut d = detector(vec![1], vec![vec![0]], vec![vec![0]]);
    let before = state(&d);
    assert!(!d.is_safe_state(0, vec![2]));
    assert_eq!(state(&d), before);
}

#[test]
fn refuses_a_request_that_makes_the_state_unsafe_and_undoes_it() {
    // Each thread holds one unit and needs two more; giving the last free unit away
    // leaves nobody able to finish.
    let mut d = detector(vec![1], vec![vec![1], vec![1]], vec![vec![2], vec![2]]);
    let before = state(&d);
    assert!(!d.is_safe_state(0, vec![1]));
    assert_eq!(state(&d), before);
}

#[test]
fn refuses_a_thread_that_does_not_exist() {
    let mut d = detector(vec![1], vec![vec![0]], vec![vec![0]]);
    let before = state(&d);
    assert!(!d.is_safe_state(2, vec![1]));
    assert_eq!(state(&d), before);
    assert!(!d.is_safe_state(1, vec![1]));
    assert!(!d.is_safe_state(1, vec![]));
    assert_eq!(state(&d), before);
}

#[test]
fn empty_request_asks_only_whether_the_state_is_safe() {
    let mut safe = detector(vec![0], vec![vec![1]], vec![vec![0]]);
    assert!(safe.is_safe_state(0, vec![]));
    let mut stuck = detector(vec![0], vec![vec![1], vec![0]], vec![vec![1], vec![1]]);
    assert!(!stuck.is_safe_state(0, vec![]));
}

#[test]
fn a_chain_of_finishing_threads_is_safe() {
    // Thread 1 can finish first, then its units let thread 0 finish.
    let mut d = detector(vec![1], vec![vec![1], vec![2]], vec![vec![3], vec![1]]);
    assert!(d.is_safe_state(1, vec![0]));
    assert_eq!(d.inner.available, vec![1]);
}

#[test]
fn unlock_gives_units_back_and_keeps_the_need() {
    let mut d = detector(vec![0, 3], vec![vec![2, 0]], vec![vec![1, 1]]);
    d.detector_unlock(0, vec![1, 0]);
    assert_eq!(d.inner.available, vec![1, 3]);
    assert_eq!(d.inner.allocation, vec![vec![1, 0]]);
    assert_eq!(d.inner.need, vec![vec![1, 1]]);
}

#[test]
fn unlocking_what_was_granted_restores_available_and_allocation() {
    let mut d = detector(vec![2, 1], vec![vec![0, 0], vec![1, 0]], vec![vec![1, 1], vec![0, 0]]);
    let (available, allocation, need) = state(&d);
    assert!(d.is_safe_state(0, vec![1, 1]));
    d.detector_unlock(0, vec![1, 1]);
    assert_eq!(d.inner.available, available);
    assert_eq!(d.inner.allocation, allocation);
    assert_eq!(d.inner.need, vec![vec![0, 0], need[1].clone()]);
}

#[test]
fn resources_and_threads_are_added_as_zero_columns_and_rows() {
    let mut i = DeadlockDetectorInner::new();
    i.add_resource(3);
    i.add_thread();
    i.add_resource(1);
    assert_eq!(i.available, vec![3, 1]);
    assert_eq!(i.allocation, vec![vec![0, 0]]);
    assert_eq!(i.need, vec![vec![0, 0]]);
    i.allocation[0][0] = 2;
    i.need[0][1] = 4;
    i.reset_resource(0, 5);
    assert_eq!(i.available, vec![5, 1]);
    assert_eq!(i.allocation, vec![vec![0, 0]]);
    assert_eq!(i.need, vec![vec![0, 4]]);
}

#[test]
fn a_safety_query_keeps_free_plus_held_units() {
    let totals = |d: &DeadlockDetector| -> Vec<i32> {
        (0..d.inner.available.len())
            .map(|j| d.inner.available[j] + d.inner.allocation.iter().map(|row| row[j]).sum::<i32>())
            .collect()
    };
    let mut d = detector(vec![2, 1], vec![vec![1, 0], vec![0, 2]], vec![vec![1, 1], vec![2, 0]]);
    let before = totals(&d);
    assert!(d.is_safe_state(0, vec![1, 1]));
    assert_eq!(totals(&d), before);
    assert!(!d.is_safe_state(1, vec![5, 0]));
    assert_eq!(totals(&d), before);
}
