use rcore_os::config::BIG_STRIDE;
use rcore_os::task::manager::{ReadyTask, TaskManager};

fn task(pid: usize, stride: usize, prio: usize) -> ReadyTask {
    ReadyTask { pid, stride, prio }
}

#[test]
fn a_new_manager_is_empty() {
    assert_eq!(TaskManager::new().len(), 0);
    assert_eq!(TaskManager::default().len(), 0);
}

#[test]
fn the_only_task_is_fetched_with_its_stride_advanced() {
    let mut m = TaskManager::new();
    m.add(task(1, 10, 16));
    assert_eq!(m.len(), 1);
    let t = m.fetch().unwrap();
    assert_eq!(t, task(1, 10 + BIG_STRIDE / 16, 16));
    assert_eq!(m.len(), 0);
}

#[test]
fn fetch_picks_the_least_stride_and_the_first_of_equals() {
    let mut m = TaskManager::new();
    m.add(task(1, 30, 2));
    m.add(task(2, 10, 2));
    m.add(task(3, 20, 2));
    m.add(task(4, 10, 2));
    assert_eq!(m.fetch().unwrap().pid, 2);
    assert_eq!(m.fetch().unwrap().pid, 4);
    assert_eq!(m.fetch().unwrap().pid, 3);
    assert_eq!(m.fetch().unwrap().pid, 1);
    assert_eq!(m.len(), 0);
}

#[test]
fn higher_priority_tasks_are_scheduled_more_often() {
    let mut m = TaskManager::new();
    m.add(task(1, 0, 2));
    m.add(task(2, 0, 8));
    let mut runs: [usize; 3] = [0; 3];
    for _ in 0..50 {
        let t = m.fetch().unwrap();
        runs[t.pid] += 1;
        m.add(t);
    }
    assert!(runs[2] > 3 * runs[1]);
}

#[test]
fn fetch_from_an_empty_queue_gives_none() {
    let mut m = TaskManager::new();
    assert_eq!(m.fetch(), None);
    assert_eq!(m.len(), 0);
    m.add(task(1, 0, 2));
    assert!(m.fetch().is_some());
    assert_eq!(m.fetch(), None);
}
