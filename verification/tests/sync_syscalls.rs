use os_sync::process::{MutexState, ProcessSync, SemaphoreState};
use os_sync::syscall::{
    sys_condvar_create, sys_condvar_signal, sys_condvar_wait, sys_enable_deadlock_detect,
    sys_mutex_create, sys_mutex_lock, sys_mutex_unlock, sys_semaphore_create, sys_semaphore_down,
    sys_semaphore_up, sys_sleep, SyncAction, SyscallOutcome, DEADLOCK_REFUSED,
};

fn process(task_count: usize) -> ProcessSync {
    ProcessSync {
        mutex_list: Vec::new(),
        semaphore_list: Vec::new(),
        condvar_list: Vec::new(),
        task_count,
        deadlock_detect_enabled: false,
    }
}

#[test]
fn sleep_arms_timer_at_now_plus_ms() {
    let out = sys_sleep(1000, 250);
    assert_eq!(out, SyscallOutcome { ret: 0, action: Some(SyncAction::SleepUntil(1250)) });
}

#[test]
fn mutex_create_takes_first_free_slot() {
    let mut p = process(1);
    assert_eq!(sys_mutex_create(&mut p, false), 0);
    assert_eq!(sys_mutex_create(&mut p, true), 1);
    assert_eq!(sys_mutex_create(&mut p, true), 2);
    p.mutex_list[1] = None;
    assert_eq!(sys_mutex_create(&mut p, false), 1);
    assert_eq!(p.mutex_list.len(), 3);
    let m = p.mutex_list[1].as_ref().unwrap();
    assert!(!m.blocking);
    assert_eq!(m.owner, None);
    assert!(m.waiters.is_empty());
    assert!(p.mutex_list[0].as_ref().map(|m| !m.blocking).unwrap());
    assert!(p.mutex_list[2].as_ref().map(|m| m.blocking).unwrap());
    assert_eq!(sys_mutex_create(&mut p, false), 3);
}

#[test]
fn semaphore_create_takes_first_free_slot() {
    let mut p = process(1);
    assert_eq!(sys_semaphore_create(&mut p, 3), 0);
    assert_eq!(sys_semaphore_create(&mut p, 0), 1);
    p.semaphore_list[0] = None;
    assert_eq!(sys_semaphore_create(&mut p, 5), 0);
    let s = p.semaphore_list[0].as_ref().unwrap();
    assert_eq!(s.count, 5);
    assert!(s.holders.is_empty());
    assert!(s.waiters.is_empty());
    assert_eq!(p.semaphore_list[1].as_ref().unwrap().count, 0);
    assert_eq!(sys_semaphore_create(&mut p, 1), 2);
}

#[test]
fn condvar_create_takes_first_free_slot() {
    let mut p = process(1);
    assert_eq!(sys_condvar_create(&mut p), 0);
    assert_eq!(sys_condvar_create(&mut p), 1);
    p.condvar_list[0] = None;
    assert_eq!(sys_condvar_create(&mut p), 0);
    assert_eq!(sys_condvar_create(&mut p), 2);
    assert!(p.mutex_list.is_empty());
}

#[test]
fn enable_deadlock_detect_accepts_only_zero_and_one() {
    let mut p = process(1);
    assert_eq!(sys_enable_deadlock_detect(&mut p, 1), 0);
    assert!(p.deadlock_detect_enabled);
    assert_eq!(sys_enable_deadlock_detect(&mut p, 2), -1);
    assert!(p.deadlock_detect_enabled);
    assert_eq!(sys_enable_deadlock_detect(&mut p, 0), 0);
    assert!(!p.deadlock_detect_enabled);
    assert_eq!(sys_enable_deadlock_detect(&mut p, usize::MAX), -1);
    assert!(!p.deadlock_detect_enabled);
}

fn deadlocked_mutexes(enabled: bool) -> ProcessSync {
    let mut p = process(2);
    p.deadlock_detect_enabled = enabled;
    p.mutex_list.push(Some(MutexState { blocking: true, owner: Some(0), waiters: vec![] }));
    p.mutex_list.push(Some(MutexState { blocking: true, owner: Some(1), waiters: vec![0] }));
    p
}

#[test]
fn mutex_lock_refused_on_deadlock_when_enabled() {
    let p = deadlocked_mutexes(true);
    let out = sys_mutex_lock(&p, 1, 0);
    assert_eq!(out, SyscallOutcome { ret: DEADLOCK_REFUSED, action: None });
    assert_eq!(out.ret, -0xdead);
}

#[test]
fn mutex_lock_goes_ahead_when_disabled() {
    let p = deadlocked_mutexes(false);
    let out = sys_mutex_lock(&p, 1, 0);
    assert_eq!(out, SyscallOutcome { ret: 0, action: Some(SyncAction::LockMutex(0)) });
}

#[test]
fn mutex_lock_goes_ahead_without_deadlock() {
    let mut p = deadlocked_mutexes(true);
    p.mutex_list[1] = Some(MutexState { blocking: false, owner: Some(1), waiters: vec![] });
    let out = sys_mutex_lock(&p, 1, 0);
    assert_eq!(out, SyscallOutcome { ret: 0, action: Some(SyncAction::LockMutex(0)) });
}

#[test]
fn semaphore_down_refused_on_deadlock_when_enabled() {
    let mut p = process(2);
    p.deadlock_detect_enabled = true;
    p.semaphore_list.push(Some(SemaphoreState { count: 0, holders: vec![(0, 1)], waiters: vec![] }));
    p.semaphore_list.push(Some(SemaphoreState { count: -1, holders: vec![(1, 1)], waiters: vec![0] }));
    assert_eq!(sys_semaphore_down(&p, 1, 0), SyscallOutcome { ret: DEADLOCK_REFUSED, action: None });
    p.deadlock_detect_enabled = false;
    assert_eq!(
        sys_semaphore_down(&p, 1, 0),
        SyscallOutcome { ret: 0, action: Some(SyncAction::SemaphoreDown(0)) }
    );
}

#[test]
fn semaphore_down_goes_ahead_with_free_units() {
    let mut p = process(2);
    p.deadlock_detect_enabled = true;
    p.semaphore_list.push(Some(SemaphoreState { count: 2, holders: vec![(0, 1)], waiters: vec![] }));
    assert_eq!(
        sys_semaphore_down(&p, 1, 0),
        SyscallOutcome { ret: 0, action: Some(SyncAction::SemaphoreDown(0)) }
    );
}

#[test]
fn release_and_signal_actions() {
    let mut p = process(1);
    sys_mutex_create(&mut p, true);
    sys_semaphore_create(&mut p, 1);
    sys_condvar_create(&mut p);
    assert_eq!(sys_mutex_unlock(&p, 0), SyscallOutcome { ret: 0, action: Some(SyncAction::UnlockMutex(0)) });
    assert_eq!(sys_semaphore_up(&p, 0), SyscallOutcome { ret: 0, action: Some(SyncAction::SemaphoreUp(0)) });
    assert_eq!(
        sys_condvar_signal(&p, 0),
        SyscallOutcome { ret: 0, action: Some(SyncAction::SignalCondvar(0)) }
    );
    assert_eq!(
        sys_condvar_wait(&p, 0, 0),
        SyscallOutcome { ret: 0, action: Some(SyncAction::WaitCondvar(0, 0)) }
    );
}

#[test]
fn mutex_ids_increase_and_entries_stay() {
    let mut p = process(1);
    let a = sys_mutex_create(&mut p, true);
    let b = sys_mutex_create(&mut p, false);
    assert!(b > a);
    assert!(p.mutex_list[a as usize].as_ref().unwrap().blocking);
    assert!(!p.mutex_list[b as usize].as_ref().unwrap().blocking);
}
