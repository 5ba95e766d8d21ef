use rcore_os::config::MAX_SYSCALL_NUM;
use rcore_os::task::syscall_count::TaskSyscallCount;

#[test]
fn a_new_table_has_every_slot_free_and_counts_nothing() {
    let t = TaskSyscallCount::zero_init();
    assert!(t.0.iter().all(|&slot| slot == (usize::MAX, 0)));
    assert_eq!(t.read_syscall_id_count(64), 0);
    assert_eq!(t.read_syscall_id_count(0), 0);
}

#[test]
fn each_call_adds_one_to_its_own_count() {
    let mut t = TaskSyscallCount::zero_init();
    t.add_syscall_id_count(64);
    t.add_syscall_id_count(64);
    t.add_syscall_id_count(93);
    t.add_syscall_id_count(64);
    assert_eq!(t.read_syscall_id_count(64), 3);
    assert_eq!(t.read_syscall_id_count(93), 1);
    assert_eq!(t.read_syscall_id_count(169), 0);
}

#[test]
fn new_ids_take_the_first_free_slots_in_order() {
    let mut t = TaskSyscallCount::zero_init();
    t.add_syscall_id_count(7);
    t.add_syscall_id_count(3);
    t.add_syscall_id_count(7);
    assert_eq!(t.0[0], (7, 2));
    assert_eq!(t.0[1], (3, 1));
    assert_eq!(t.0[2], (usize::MAX, 0));
}

#[test]
fn every_slot_can_hold_a_distinct_id() {
    let mut t = TaskSyscallCount::zero_init();
    for id in 0..MAX_SYSCALL_NUM {
        t.add_syscall_id_count(id);
    }
    for id in 0..MAX_SYSCALL_NUM {
        assert_eq!(t.read_syscall_id_count(id), 1);
    }
    // A known id can still be counted once the table is full.
    t.add_syscall_id_count(0);
    assert_eq!(t.read_syscall_id_count(0), 2);
}

#[test]
fn used_slots_hold_distinct_ids_before_every_free_slot() {
    let mut t = TaskSyscallCount::zero_init();
    for id in [5usize, 9, 5, 1, 9, 9, 2] {
        t.add_syscall_id_count(id);
    }
    let used: Vec<(usize, usize)> = t.0.iter().copied().take_while(|s| s.0 != usize::MAX).collect();
    assert_eq!(used, vec![(5, 2), (9, 3), (1, 1), (2, 1)]);
    assert!(t.0[used.len()..].iter().all(|&s| s == (usize::MAX, 0)));
}
