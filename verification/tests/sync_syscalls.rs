use rcore_os::sync::{MutexKind, ProcessSync};
use rcore_os::syscall::sync::{
    sys_condvar_create, sys_condvar_signal, sys_condvar_wait, sys_enable_deadlock_detect,
    sys_mutex_create, sys_mutex_lock, sys_mutex_unlock, sys_semaphore_create, sys_semaphore_down,
    sys_semaphore_up, sys_sleep, SyncAction, DEADLOCK_ERROR,
};

fn process_with_threads(n: usize) -> ProcessSync {
    let mut p = ProcessSync::new();
    for _ in 0..n {
        p.add_thread();
    }
    p
}

#[test]
fn a_new_process_has_no_resources_and_detection_off() {
    let p = ProcessSync::new();
    assert!(p.mutex_list.is_empty() && p.semaphore_list.is_empty() && p.condvar_list.is_empty());
    assert!(!p.deadlock_detect_enable());
    assert_eq!(p.deadlock_detector.len(), 2);
}

#[test]
fn enable_deadlock_detect_takes_only_zero_or_one() {
    let mut p = ProcessSync::new();
    assert_eq!(sys_enable_deadlock_detect(&mut p, 1), 0);
    assert!(p.deadlock_detect);
    assert_eq!(sys_enable_deadlock_detect(&mut p, 2), -1);
    assert!(p.deadlock_detect);
    assert_eq!(sys_enable_deadlock_detect(&mut p, 0), 0);
    assert!(!p.deadlock_detect);
}

#[test]
fn mutexes_take_the_first_free_slot() {
    let mut p = ProcessSync::new();
    assert_eq!(sys_mutex_create(&mut p, false), 0);
    assert_eq!(sys_mutex_create(&mut p, true), 1);
    assert_eq!(p.mutex_list, vec![Some(MutexKind::Spin), Some(MutexKind::Blocking)]);
    p.mutex_list[0] = None;
    assert_eq!(sys_mutex_create(&mut p, true), 0);
    assert_eq!(p.mutex_list[0], Some(MutexKind::Blocking));
    // Detection is off: the detector hears nothing of them.
    assert!(p.deadlock_detector[0].inner.available.is_empty());
}

#[test]
fn with_detection_on_the_detector_learns_of_each_mutex() {
    let mut p = process_with_threads(2);
    sys_enable_deadlock_detect(&mut p, 1);
    assert_eq!(sys_mutex_create(&mut p, true), 0);
    assert_eq!(sys_mutex_create(&mut p, true), 1);
    assert_eq!(p.deadlock_detector[0].inner.available, vec![1, 1]);
    assert_eq!(p.deadlock_detector[0].inner.allocation, vec![vec![0, 0], vec![0, 0]]);
}

#[test]
fn lock_and_unlock_without_detection() {
    let mut p = process_with_threads(1);
    sys_mutex_create(&mut p, true);
    assert_eq!(sys_mutex_lock(&mut p, 0, 0), (0, SyncAction::LockMutex(0)));
    assert_eq!(sys_mutex_unlock(&mut p, 0, 0), (0, SyncAction::UnlockMutex(0)));
}

#[test]
fn lock_is_refused_where_it_could_deadlock() {
    let mut p = process_with_threads(2);
    sys_enable_deadlock_detect(&mut p, 1);
    sys_mutex_create(&mut p, true);
    // Thread 1 will need the mutex too, so thread 0 may not take it away from nobody ...
    p.deadlock_detector[0].inner.need[0][0] = 1;
    p.deadlock_detector[0].inner.need[1][0] = 2;
    assert_eq!(sys_mutex_lock(&mut p, 0, 0), (DEADLOCK_ERROR, SyncAction::Nothing));
    assert_eq!(p.deadlock_detector[0].inner.available, vec![1]);
    // ... but once thread 1 needs less, the lock is granted and recorded.
    p.deadlock_detector[0].inner.need[1][0] = 0;
    assert_eq!(sys_mutex_lock(&mut p, 0, 0), (0, SyncAction::LockMutex(0)));
    assert_eq!(p.deadlock_detector[0].inner.available, vec![0]);
    assert_eq!(p.deadlock_detector[0].inner.allocation[0], vec![1]);
    assert_eq!(sys_mutex_unlock(&mut p, 0, 0), (0, SyncAction::UnlockMutex(0)));
    assert_eq!(p.deadlock_detector[0].inner.available, vec![1]);
    assert_eq!(p.deadlock_detector[0].inner.allocation[0], vec![0]);
}

#[test]
fn semaphores_take_the_first_free_slot_with_their_count() {
    let mut p = process_with_threads(1);
    assert_eq!(sys_semaphore_create(&mut p, 3), 0);
    assert_eq!(sys_semaphore_create(&mut p, 1), 1);
    assert_eq!(p.semaphore_list, vec![Some(3), Some(1)]);
    sys_enable_deadlock_detect(&mut p, 1);
    assert_eq!(sys_semaphore_create(&mut p, 5), 2);
    assert_eq!(p.deadlock_detector[1].inner.available, vec![5]);
    assert!(p.deadlock_detector[0].inner.available.is_empty());
}

#[test]
fn semaphore_up_and_down_consult_the_semaphore_detector() {
    let mut p = process_with_threads(1);
    sys_enable_deadlock_detect(&mut p, 1);
    sys_mutex_create(&mut p, true);
    sys_semaphore_create(&mut p, 1);
    assert_eq!(sys_semaphore_down(&mut p, 0, 0), (0, SyncAction::SemaphoreDown(0)));
    assert_eq!(p.deadlock_detector[1].inner.available, vec![0]);
    assert_eq!(p.deadlock_detector[1].inner.allocation, vec![vec![1]]);
    assert_eq!(sys_semaphore_down(&mut p, 0, 0), (DEADLOCK_ERROR, SyncAction::Nothing));
    assert_eq!(p.deadlock_detector[1].inner.available, vec![0]);
    assert_eq!(sys_semaphore_up(&mut p, 0, 0), (0, SyncAction::SemaphoreUp(0)));
    assert_eq!(p.deadlock_detector[1].inner.available, vec![1]);
    assert_eq!(p.deadlock_detector[1].inner.allocation, vec![vec![0]]);
    // The mutex detector is not touched by semaphore calls.
    assert_eq!(p.deadlock_detector[0].inner.available, vec![1]);
    assert_eq!(p.deadlock_detector[0].inner.allocation, vec![vec![0]]);
}

#[test]
fn semaphore_calls_work_in_a_process_without_mutexes() {
    let mut p = process_with_threads(2);
    sys_enable_deadlock_detect(&mut p, 1);
    assert_eq!(sys_semaphore_create(&mut p, 2), 0);
    assert_eq!(sys_semaphore_down(&mut p, 1, 0), (0, SyncAction::SemaphoreDown(0)));
    assert_eq!(p.deadlock_detector[1].inner.available, vec![1]);
    assert_eq!(sys_semaphore_up(&mut p, 1, 0), (0, SyncAction::SemaphoreUp(0)));
    assert_eq!(p.deadlock_detector[1].inner.available, vec![2]);
    assert!(p.deadlock_detector[0].inner.available.is_empty());
}

#[test]
fn semaphore_calls_without_detection_are_passed_on() {
    let mut p = ProcessSync::new();
    sys_semaphore_create(&mut p, 2);
    assert_eq!(sys_semaphore_down(&mut p, 0, 0), (0, SyncAction::SemaphoreDown(0)));
    assert_eq!(sys_semaphore_up(&mut p, 0, 0), (0, SyncAction::SemaphoreUp(0)));
}

#[test]
fn condition_variables_take_the_first_unused_slot() {
    let mut p = ProcessSync::new();
    sys_mutex_create(&mut p, true);
    assert_eq!(sys_condvar_create(&mut p), 0);
    assert_eq!(sys_condvar_create(&mut p), 1);
    p.condvar_list[0] = false;
    assert_eq!(sys_condvar_create(&mut p), 0);
    assert_eq!(sys_condvar_signal(&p, 1), (0, SyncAction::SignalCondvar(1)));
    assert_eq!(sys_condvar_wait(&p, 1, 0), (0, SyncAction::WaitCondvar(1, 0)));
}

#[test]
fn sleep_wakes_at_now_plus_the_delay() {
    assert_eq!(sys_sleep(30, 1000), (0, SyncAction::SleepUntil(1030)));
}
