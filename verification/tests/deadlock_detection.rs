use os_sync::deadlock::run_detection_algorithm;
use os_sync::process::{MutexState, ProcessSync, SemaphoreState};
use os_sync::syscall::{check_mutex_deadlock, check_semaphore_deadlock};

fn empty_process(task_count: usize) -> ProcessSync {
    ProcessSync {
        mutex_list: Vec::new(),
        semaphore_list: Vec::new(),
        condvar_list: Vec::new(),
        task_count,
        deadlock_detect_enabled: true,
    }
}

fn mutex(owner: Option<usize>, waiters: Vec<usize>) -> Option<MutexState> {
    Some(MutexState { blocking: true, owner, waiters })
}

#[test]
fn detection_no_deadlock_when_resources_suffice() {
    // Two tasks, one resource with one free unit; each needs one.
    let r = run_detection_algorithm(
        2,
        1,
        vec![1],
        vec![vec![1], vec![0]],
        vec![vec![0], vec![1]],
        1,
    );
    assert!(!r);
}

#[test]
fn detection_reports_circular_wait() {
    // Task 0 holds resource 0 and needs resource 1; task 1 holds resource 1
    // and needs resource 0; nothing is free.
    let r = run_detection_algorithm(
        2,
        2,
        vec![0, 0],
        vec![vec![1, 0], vec![0, 1]],
        vec![vec![0, 1], vec![1, 0]],
        0,
    );
    assert!(r);
}

#[test]
fn detection_idle_task_is_never_deadlocked() {
    // Tasks 0 and 1 deadlock each other; task 2 holds nothing.
    let r = run_detection_algorithm(
        3,
        2,
        vec![0, 0],
        vec![vec![1, 0], vec![0, 1], vec![0, 0]],
        vec![vec![0, 1], vec![1, 0], vec![1, 1]],
        2,
    );
    assert!(!r);
}

#[test]
fn detection_chain_of_releases() {
    // Task 2 can finish with what is free, which frees enough for task 1,
    // which frees enough for task 0.
    let r = run_detection_algorithm(
        3,
        1,
        vec![1],
        vec![vec![1], vec![2], vec![1]],
        vec![vec![4], vec![2], vec![1]],
        0,
    );
    assert!(!r);
    let r = run_detection_algorithm(
        3,
        1,
        vec![1],
        vec![vec![1], vec![2], vec![1]],
        vec![vec![5], vec![2], vec![1]],
        0,
    );
    assert!(r);
}

#[test]
fn detection_more_available_never_adds_deadlock() {
    let alloc = vec![vec![1, 0], vec![0, 1]];
    let need = vec![vec![0, 1], vec![1, 0]];
    assert!(run_detection_algorithm(2, 2, vec![0, 0], alloc.clone(), need.clone(), 0));
    assert!(!run_detection_algorithm(2, 2, vec![0, 1], alloc, need, 0));
}

#[test]
fn mutex_check_reports_cycle() {
    // Task 0 owns mutex 0 and waits for mutex 1; task 1 owns mutex 1 and
    // asks for mutex 0.
    let mut p = empty_process(2);
    p.mutex_list.push(mutex(Some(0), vec![]));
    p.mutex_list.push(mutex(Some(1), vec![0]));
    assert!(check_mutex_deadlock(&p, 1, 0));
}

#[test]
fn mutex_check_free_mutex_is_safe() {
    let mut p = empty_process(2);
    p.mutex_list.push(mutex(None, vec![]));
    p.mutex_list.push(mutex(Some(1), vec![]));
    assert!(!check_mutex_deadlock(&p, 1, 0));
}

#[test]
fn mutex_check_waiting_on_owner_that_can_finish() {
    // Task 0 owns mutex 0 and waits for nothing: it can finish and release.
    let mut p = empty_process(2);
    p.mutex_list.push(mutex(Some(0), vec![]));
    p.mutex_list.push(mutex(Some(1), vec![]));
    assert!(!check_mutex_deadlock(&p, 1, 0));
}

#[test]
fn mutex_check_ignores_empty_slots_and_unknown_owners() {
    let mut p = empty_process(2);
    p.mutex_list.push(None);
    p.mutex_list.push(mutex(Some(7), vec![]));
    // Mutex 1 is held by a task outside the task list; task 0, which holds
    // nothing, is still never reported deadlocked.
    assert!(!check_mutex_deadlock(&p, 0, 1));
}

#[test]
fn semaphore_check_reports_cycle() {
    let mut p = empty_process(2);
    p.semaphore_list.push(Some(SemaphoreState { count: 0, holders: vec![(0, 1)], waiters: vec![] }));
    p.semaphore_list.push(Some(SemaphoreState { count: -1, holders: vec![(1, 1)], waiters: vec![0] }));
    assert!(check_semaphore_deadlock(&p, 1, 0));
}

#[test]
fn semaphore_check_free_units_are_safe() {
    let mut p = empty_process(2);
    p.semaphore_list.push(Some(SemaphoreState { count: 1, holders: vec![(0, 1)], waiters: vec![] }));
    p.semaphore_list.push(Some(SemaphoreState { count: -1, holders: vec![(1, 1)], waiters: vec![0] }));
    assert!(!check_semaphore_deadlock(&p, 1, 0));
}

#[test]
fn semaphore_check_holder_without_units() {
    // Task 0 is listed with 0 units of semaphore 0: it holds nothing and is
    // never reported deadlocked.
    let mut p = empty_process(2);
    p.semaphore_list.push(Some(SemaphoreState { count: 0, holders: vec![(0, 0), (1, 2)], waiters: vec![] }));
    assert!(!check_semaphore_deadlock(&p, 0, 0));
}

#[test]
fn mutex_check_task_holding_nothing_is_never_refused() {
    // Tasks 0 and 1 deadlock each other; task 2 owns no mutex and asks for
    // mutex 0 too.
    let mut p = empty_process(3);
    p.mutex_list.push(mutex(Some(0), vec![1]));
    p.mutex_list.push(mutex(Some(1), vec![0]));
    assert!(!check_mutex_deadlock(&p, 2, 0));
    assert!(check_mutex_deadlock(&p, 1, 0));
}

#[test]
fn detection_reads_only_first_n_rows_and_m_columns() {
    // Extra entries beyond n tasks and m resources are ignored, except that
    // a task holds nothing only when its whole row is zero.
    let r = run_detection_algorithm(
        2,
        1,
        vec![0, 99],
        vec![vec![1, 0], vec![0, 5], vec![7, 7]],
        vec![vec![0, 0], vec![1, 0], vec![9, 9]],
        1,
    );
    // Task 1 holds a unit of resource 1 (beyond m), so it is not idle; it needs
    // one unit of resource 0, which task 0 frees once it finishes.
    assert!(!r);
    let r = run_detection_algorithm(
        2,
        1,
        vec![0, 99],
        vec![vec![1, 0], vec![0, 5], vec![7, 7]],
        vec![vec![1, 0], vec![1, 0], vec![9, 9]],
        1,
    );
    assert!(r);
}

#[test]
fn detection_need_covered_by_free_units_is_safe() {
    let r = run_detection_algorithm(
        2,
        2,
        vec![1, 0],
        vec![vec![0, 1], vec![1, 0]],
        vec![vec![1, 0], vec![0, 1]],
        0,
    );
    assert!(!r);
}

#[test]
fn detection_smaller_need_never_adds_deadlock() {
    let alloc = vec![vec![1, 0], vec![0, 1]];
    assert!(run_detection_algorithm(2, 2, vec![0, 0], alloc.clone(), vec![vec![0, 1], vec![1, 0]], 0));
    assert!(!run_detection_algorithm(2, 2, vec![0, 0], alloc, vec![vec![0, 0], vec![1, 0]], 0));
}

#[test]
fn detection_renumbering_keeps_verdict() {
    // Same situation as detection_chain_of_releases with tasks 0, 1, 2
    // renumbered to 2, 0, 1.
    let before = run_detection_algorithm(
        3,
        1,
        vec![1],
        vec![vec![1], vec![2], vec![1]],
        vec![vec![5], vec![2], vec![1]],
        0,
    );
    let after = run_detection_algorithm(
        3,
        1,
        vec![1],
        vec![vec![2], vec![1], vec![1]],
        vec![vec![2], vec![1], vec![5]],
        2,
    );
    assert!(before);
    assert_eq!(before, after);
    let before = run_detection_algorithm(
        3,
        1,
        vec![1],
        vec![vec![1], vec![2], vec![1]],
        vec![vec![5], vec![2], vec![1]],
        1,
    );
    let after = run_detection_algorithm(
        3,
        1,
        vec![1],
        vec![vec![2], vec![1], vec![1]],
        vec![vec![2], vec![1], vec![5]],
        0,
    );
    assert!(!before);
    assert_eq!(before, after);
}
