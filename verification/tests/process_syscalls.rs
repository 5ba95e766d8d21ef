use rcore_os::config::PAGE_SIZE;
use rcore_os::mm::{va_ceil, va_floor, virt_addr, MapArea, MemorySet};
use rcore_os::syscall::process::{
    get_app_by_name, sys_exec, sys_exit, sys_fork, sys_get_time, sys_getpid, sys_mmap, sys_munmap,
    sys_sbrk, sys_set_priority, sys_spawn, sys_waitpid, sys_yield, time_val_chunks, ChildProcess,
    ProcessAction, TimeVal,
};

fn apps() -> Vec<String> {
    vec!["initproc".to_string(), "user_shell".to_string(), "ch5_spawn0".to_string()]
}

#[test]
fn exit_yield_and_getpid() {
    assert_eq!(sys_exit(3), ProcessAction::Exit(3));
    assert_eq!(sys_yield(), (0, ProcessAction::Yield));
    assert_eq!(sys_getpid(42), 42);
}

#[test]
fn fork_adds_a_running_child() {
    let mut children = Vec::new();
    let (r, action, child_sync) = sys_fork(&mut children, 7);
    assert_eq!((r, action), (7, ProcessAction::Fork(7)));
    assert_eq!(children, vec![ChildProcess { pid: 7, exited: false, exit_code: 0 }]);
    assert!(child_sync.mutex_list.is_empty() && child_sync.semaphore_list.is_empty());
    assert!(child_sync.condvar_list.is_empty() && !child_sync.deadlock_detect);
    assert_eq!(child_sync.deadlock_detector.len(), 2);
    assert!(child_sync.deadlock_detector.iter().all(|d| d.inner.available.is_empty() && d.inner.allocation.is_empty()));
}

#[test]
fn exec_and_spawn_find_applications_by_name() {
    let names = apps();
    assert_eq!(get_app_by_name(&names, "user_shell"), Some(1));
    assert_eq!(get_app_by_name(&names, "user"), None);
    assert_eq!(sys_exec(&names, "ch5_spawn0"), (0, ProcessAction::Exec(2)));
    assert_eq!(sys_exec(&names, "missing"), (-1, ProcessAction::Nothing));
    let mut children = Vec::new();
    assert_eq!(sys_spawn(&mut children, &names, "initproc", 9), (9, ProcessAction::Spawn(9, 0)));
    assert_eq!(children.len(), 1);
    assert_eq!(sys_spawn(&mut children, &names, "missing", 10), (-1, ProcessAction::Nothing));
    assert_eq!(children.len(), 1);
}

#[test]
fn waitpid_answers_minus_one_without_a_matching_child() {
    let mut children = vec![ChildProcess { pid: 3, exited: true, exit_code: 1 }];
    assert_eq!(sys_waitpid(&mut children, 4), (-1, None));
    let mut none: Vec<ChildProcess> = Vec::new();
    assert_eq!(sys_waitpid(&mut none, -1), (-1, None));
    assert_eq!(children.len(), 1);
}

#[test]
fn waitpid_answers_minus_two_while_the_child_runs() {
    let mut children = vec![ChildProcess { pid: 3, exited: false, exit_code: 0 }];
    assert_eq!(sys_waitpid(&mut children, 3), (-2, None));
    assert_eq!(sys_waitpid(&mut children, -1), (-2, None));
    assert_eq!(children.len(), 1);
}

#[test]
fn waitpid_reaps_the_first_exited_child() {
    let mut children = vec![
        ChildProcess { pid: 3, exited: false, exit_code: 0 },
        ChildProcess { pid: 4, exited: true, exit_code: 11 },
        ChildProcess { pid: 5, exited: true, exit_code: 12 },
    ];
    assert_eq!(sys_waitpid(&mut children, -1), (4, Some(11)));
    assert_eq!(sys_waitpid(&mut children, 5), (5, Some(12)));
    assert_eq!(children, vec![ChildProcess { pid: 3, exited: false, exit_code: 0 }]);
}

#[test]
fn get_time_splits_microseconds() {
    assert_eq!(sys_get_time(3_250_000), (0, TimeVal { sec: 3, usec: 250_000 }));
    assert_eq!(sys_get_time(999_999), (0, TimeVal { sec: 0, usec: 999_999 }));
}

#[test]
fn sbrk_answers_the_old_break_or_minus_one() {
    assert_eq!(sys_sbrk(Some(0x1000)), 0x1000);
    assert_eq!(sys_sbrk(None), -1);
}

#[test]
fn set_priority_refuses_values_below_two() {
    let mut prio: usize = 16;
    assert_eq!(sys_set_priority(&mut prio, 1), -1);
    assert_eq!(prio, 16);
    assert_eq!(sys_set_priority(&mut prio, 2), 2);
    assert_eq!(prio, 2);
}

#[test]
fn page_numbers_round_down_and_up() {
    assert_eq!(virt_addr(0x80_0000_1000), 0x1000);
    assert_eq!(va_floor(0x1fff), 1);
    assert_eq!(va_ceil(0x1001), 2);
    assert_eq!(va_ceil(0x2000), 2);
    assert_eq!(va_ceil(0), 0);
}

#[test]
fn mmap_refuses_bad_arguments() {
    let mut ms = MemorySet::new_bare();
    assert_eq!(sys_mmap(&mut ms, 0x1001, PAGE_SIZE, 1, 100), -1);
    assert_eq!(sys_mmap(&mut ms, 0x1000, PAGE_SIZE, 0, 100), -1);
    assert_eq!(sys_mmap(&mut ms, 0x1000, PAGE_SIZE, 8, 100), -1);
    assert_eq!(sys_mmap(&mut ms, 0x1000, 0, 1, 100), 0);
    assert_eq!(sys_mmap(&mut ms, 0x1000, 3 * PAGE_SIZE, 1, 2), -1);
    assert!(ms.areas.is_empty());
}

#[test]
fn mmap_maps_a_new_area_and_refuses_to_map_it_twice() {
    let mut ms = MemorySet::new_bare();
    assert_eq!(sys_mmap(&mut ms, 0x10000, PAGE_SIZE + 1, 3, 100), 0);
    assert_eq!(ms.areas, vec![MapArea { start_vpn: 0x10, end_vpn: 0x12, perm: (3 << 1) | 0x10 }]);
    assert_eq!(ms.translate(0x11), Some(true));
    assert_eq!(ms.translate(0x12), Some(false));
    assert_eq!(ms.translate(0x10_0000), None);
    assert_eq!(sys_mmap(&mut ms, 0x11000, PAGE_SIZE, 1, 100), -1);
    assert_eq!(ms.areas.len(), 1);
}

#[test]
fn munmap_removes_areas_that_start_in_the_range() {
    let mut ms = MemorySet::new_bare();
    assert_eq!(sys_mmap(&mut ms, 0x10000, PAGE_SIZE, 1, 100), 0);
    assert_eq!(sys_mmap(&mut ms, 0x20000, PAGE_SIZE, 1, 100), 0);
    assert_eq!(sys_munmap(&mut ms, 0x10001, PAGE_SIZE), -1);
    assert_eq!(sys_munmap(&mut ms, 0x10000, 0), 0);
    assert_eq!(ms.areas.len(), 2);
    assert_eq!(sys_munmap(&mut ms, 0x10000, PAGE_SIZE), 0);
    assert_eq!(ms.areas, vec![MapArea { start_vpn: 0x20, end_vpn: 0x21, perm: (1 << 1) | 0x10 }]);
    // The page is now unmapped but its page table remains: unmapping again is refused.
    assert_eq!(sys_munmap(&mut ms, 0x10000, PAGE_SIZE), -1);
}

#[test]
fn munmap_of_pages_without_page_tables_succeeds() {
    let mut ms = MemorySet::new_bare();
    assert_eq!(sys_munmap(&mut ms, 0x4000_0000, 2 * PAGE_SIZE), 0);
    ms.insert_framed_area(5, 7, 0x12);
    ms.remove_area_with_start_vpn(6);
    assert_eq!(ms.areas.len(), 1);
    ms.remove_area_with_start_vpn(5);
    assert!(ms.areas.is_empty());
}

#[test]
fn munmap_of_what_mmap_mapped_takes_the_area_away_again() {
    let mut ms = MemorySet::new_bare();
    assert_eq!(sys_mmap(&mut ms, 0x30000, PAGE_SIZE, 1, 100), 0);
    let before = ms.areas.clone();
    assert_eq!(sys_mmap(&mut ms, 0x40000, 2 * PAGE_SIZE, 2, 100), 0);
    // The second page is found unmapped once the area is gone.
    assert_eq!(sys_munmap(&mut ms, 0x40000, 2 * PAGE_SIZE), -1);
    assert_eq!(ms.areas, before);
    assert_eq!(sys_munmap(&mut ms, 0x30000, PAGE_SIZE), 0);
    assert!(ms.areas.is_empty());
}

#[test]
fn time_val_bytes_are_cut_over_the_user_buffer_chunks() {
    let (_, tv) = sys_get_time(5_000_007);
    let w = std::mem::size_of::<usize>();
    let mut expected = Vec::new();
    expected.extend_from_slice(&tv.sec.to_le_bytes());
    expected.extend_from_slice(&tv.usec.to_le_bytes());
    assert_eq!(expected.len(), 2 * w);
    let whole = time_val_chunks(&tv, &vec![2 * w]);
    assert_eq!(whole, vec![expected.clone()]);
    // A TimeVal split over two pages: three bytes on the first, the rest on the second.
    let split = time_val_chunks(&tv, &vec![3, 2 * w - 3]);
    assert_eq!(split, vec![expected[..3].to_vec(), expected[3..].to_vec()]);
    // Chunks beyond the structure's size get no bytes.
    let longer = time_val_chunks(&tv, &vec![w, 4 * w, 8]);
    assert_eq!(longer, vec![expected[..w].to_vec(), expected[w..].to_vec(), Vec::new()]);
    assert_eq!(expected[0], 5);
    assert_eq!(expected[w], 7);
}
