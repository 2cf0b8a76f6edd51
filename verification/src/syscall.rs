//! The synchronisation syscalls of a process.
//!
//! Each syscall decides on the process's synchronisation state alone and
//! returns its value together with the blocking action, if any, that the
//! kernel then performs on the primitive (lock, unlock, up, down, signal,
//! wait, sleep). With deadlock detection on, a lock or down request that
//! would leave the calling task unable to finish is refused with
//! `DEADLOCK_REFUSED` and nothing is performed.

use vstd::prelude::*;
use crate::deadlock::{can_finish, holds_nothing, run_detection_algorithm, totals_fit};
use crate::process::{
    filled_free_slot, free_slot, insert_into_free_slot, CondvarState, MutexState, ProcessSync, SemaphoreState,
};

verus! {

/// The value a lock or down request gets when it would deadlock.
pub const DEADLOCK_REFUSED: isize = -0xdead;

/// What the kernel performs for a syscall after it has decided.
#[derive(Clone, Copy, Debug, PartialEq, Eq)]
pub enum SyncAction {
    /// Arm a timer for the calling task at this time (ms) and block it.
    SleepUntil(usize),
    /// Lock the mutex with this id on behalf of the calling task.
    LockMutex(usize),
    /// Unlock the mutex with this id.
    UnlockMutex(usize),
    /// Release one unit of the semaphore with this id.
    SemaphoreUp(usize),
    /// Take one unit of the semaphore with this id, waiting if there is none.
    SemaphoreDown(usize),
    /// Wake one waiter of the condition variable with this id.
    SignalCondvar(usize),
    /// Wait on the condition variable (first id), releasing the mutex
    /// (second id) meanwhile.
    WaitCondvar(usize, usize),
}

/// A syscall's value and the action that goes with it.
#[derive(Clone, Copy, Debug, PartialEq, Eq)]
pub struct SyscallOutcome {
    pub ret: isize,
    pub action: Option<SyncAction>,
}

// ---------------------------------------------------------------------------
// What the deadlock checks see of the mutexes.

/// A free mutex offers one unit; a held one, or an empty slot, none.
pub open spec fn mutex_available(mutexes: Seq<Option<MutexState>>) -> Seq<usize> {
    Seq::new(
        mutexes.len(),
        |j: int|
            match mutexes[j] {
                Some(mx) => if mx.owner is None {
                    1usize
                } else {
                    0usize
                },
                None => 0usize,
            },
    )
}

/// Task `t` holds the one unit of each mutex it owns.
pub open spec fn mutex_allocation(mutexes: Seq<Option<MutexState>>, n: int) -> Seq<Seq<usize>> {
    Seq::new(
        n as nat,
        |t: int|
            Seq::new(
                mutexes.len(),
                |j: int|
                    match mutexes[j] {
                        Some(mx) => if mx.owner == Some(t as usize) {
                            1usize
                        } else {
                            0usize
                        },
                        None => 0usize,
                    },
            ),
    )
}

/// Task `t` needs one unit of each mutex it is queued on; the calling task
/// `current` also needs the mutex `req` that it asks for.
pub open spec fn mutex_need(
    mutexes: Seq<Option<MutexState>>,
    n: int,
    current: int,
    req: int,
) -> Seq<Seq<usize>> {
    Seq::new(
        n as nat,
        |t: int|
            Seq::new(
                mutexes.len(),
                |j: int|
                    if t == current && j == req {
                        1usize
                    } else {
                        match mutexes[j] {
                            Some(mx) => if mx.waiters@.contains(t as usize) {
                                1usize
                            } else {
                                0usize
                            },
                            None => 0usize,
                        }
                    },
            ),
    )
}

/// Locking mutex `req` would leave task `current` unable to finish.
pub open spec fn mutex_deadlock(p: ProcessSync, current: int, req: int) -> bool {
    !can_finish(
        mutex_available(p.mutex_list@),
        mutex_allocation(p.mutex_list@, p.task_count as int),
        mutex_need(p.mutex_list@, p.task_count as int, current, req),
        p.task_count as int,
        p.mutex_list@.len() as int,
        current,
    )
}

// ---------------------------------------------------------------------------
// What the deadlock checks see of the semaphores.

/// The units that the holder list records for task `t` (its entry, or none;
/// with distinct tids there is at most one entry).
pub open spec fn held_units(holders: Seq<(usize, usize)>, t: int) -> usize
    decreases holders.len(),
{
    if holders.len() == 0 {
        0
    } else if holders.last().0 == t {
        holders.last().1
    } else {
        held_units(holders.drop_last(), t)
    }
}

/// A semaphore offers its count when that is not negative; an empty slot
/// offers nothing.
pub open spec fn semaphore_available(sems: Seq<Option<SemaphoreState>>) -> Seq<usize> {
    Seq::new(
        sems.len(),
        |j: int|
            match sems[j] {
                Some(s) => if s.count >= 0 {
                    s.count as usize
                } else {
                    0usize
                },
                None => 0usize,
            },
    )
}

/// Task `t` holds the units that the semaphore's holder list records for it.
pub open spec fn semaphore_allocation(sems: Seq<Option<SemaphoreState>>, n: int) -> Seq<
    Seq<usize>,
> {
    Seq::new(
        n as nat,
        |t: int|
            Seq::new(
                sems.len(),
                |j: int|
                    match sems[j] {
                        Some(s) => held_units(s.holders@, t),
                        None => 0usize,
                    },
            ),
    )
}

/// Task `t` needs one unit of each semaphore it is queued on; the calling
/// task `current` also needs one unit of the semaphore `req`.
pub open spec fn semaphore_need(
    sems: Seq<Option<SemaphoreState>>,
    n: int,
    current: int,
    req: int,
) -> Seq<Seq<usize>> {
    Seq::new(
        n as nat,
        |t: int|
            Seq::new(
                sems.len(),
                |j: int|
                    if t == current && j == req {
                        1usize
                    } else {
                        match sems[j] {
                            Some(s) => if s.waiters@.contains(t as usize) {
                                1usize
                            } else {
                                0usize
                            },
                            None => 0usize,
                        }
                    },
            ),
    )
}

/// Taking a unit of semaphore `req` would leave task `current` unable to
/// finish.
pub open spec fn semaphore_deadlock(p: ProcessSync, current: int, req: int) -> bool {
    !can_finish(
        semaphore_available(p.semaphore_list@),
        semaphore_allocation(p.semaphore_list@, p.task_count as int),
        semaphore_need(p.semaphore_list@, p.task_count as int, current, req),
        p.task_count as int,
        p.semaphore_list@.len() as int,
        current,
    )
}

/// No semaphore's units overflow `usize` once they all come back.
pub open spec fn semaphore_totals_fit(p: ProcessSync) -> bool {
    totals_fit(
        semaphore_available(p.semaphore_list@),
        semaphore_allocation(p.semaphore_list@, p.task_count as int),
        p.task_count as int,
        p.semaphore_list@.len() as int,
    )
}


// ---------------------------------------------------------------------------
// Building the matrices.

/// Whether `t` is among `waiters`.
fn waits_on(waiters: &Vec<usize>, t: usize) -> (r: bool)
    ensures
        r == waiters@.contains(t),
{
    for i in 0..waiters.len()
        invariant
            forall|k: int| 0 <= k < i ==> waiters@[k] != t,
    {
        if waiters[i] == t {
            return true;
        }
    }
    false
}

/// The units that `holders` records for task `t`.
fn held_units_of(holders: &Vec<(usize, usize)>, t: usize) -> (r: usize)
    ensures
        r == held_units(holders@, t as int),
{
    let mut r: usize = 0;
    for i in 0..holders.len()
        invariant
            r == held_units(holders@.take(i as int), t as int),
    {
        proof {
            assert(holders@.take(i + 1).drop_last() =~= holders@.take(i as int));
        }
        let (tid, count) = holders[i];
        if tid == t {
            r = count;
        }
    }
    proof {
        assert(holders@.take(holders.len() as int) =~= holders@);
    }
    r
}

/// The rows of `mat` as sequences.
spec fn rows(mat: Seq<Vec<usize>>) -> Seq<Seq<usize>> {
    Seq::new(mat.len(), |i: int| mat[i]@)
}

proof fn lemma_deep_view_rows(mat: Vec<Vec<usize>>)
    ensures
        mat.deep_view() =~= rows(mat@),
{
    assert forall|i: int| 0 <= i < mat.len() implies mat.deep_view()[i] =~= rows(mat@)[i] by {}
}

/// `mutex_available` of the table, computed.
fn mutex_available_of(mutexes: &Vec<Option<MutexState>>) -> (r: Vec<usize>)
    ensures
        r@ == mutex_available(mutexes@),
{
    let mut r: Vec<usize> = Vec::new();
    for j in 0..mutexes.len()
        invariant
            r.len() == j,
            forall|k: int| 0 <= k < j ==> r@[k] == mutex_available(mutexes@)[k],
    {
        let v: usize = match &mutexes[j] {
            Some(mx) => if mx.owner.is_none() {
                1
            } else {
                0
            },
            None => 0,
        };
        r.push(v);
    }
    assert(r@ =~= mutex_available(mutexes@));
    r
}

/// Row `t` of `mutex_allocation` and of `mutex_need`, computed.
fn mutex_rows_of(
    mutexes: &Vec<Option<MutexState>>,
    n: usize,
    t: usize,
    current_tid: usize,
    req_id: usize,
) -> (r: (Vec<usize>, Vec<usize>))
    requires
        t < n,
    ensures
        r.0@ == mutex_allocation(mutexes@, n as int)[t as int],
        r.1@ == mutex_need(mutexes@, n as int, current_tid as int, req_id as int)[t as int],
{
    let mut alloc_row: Vec<usize> = Vec::new();
    let mut need_row: Vec<usize> = Vec::new();
    let ghost arow = mutex_allocation(mutexes@, n as int)[t as int];
    let ghost nrow = mutex_need(mutexes@, n as int, current_tid as int, req_id as int)[t as int];
    for j in 0..mutexes.len()
        invariant
            t < n,
            arow == mutex_allocation(mutexes@, n as int)[t as int],
            nrow == mutex_need(mutexes@, n as int, current_tid as int, req_id as int)[t as int],
            alloc_row.len() == j,
            need_row.len() == j,
            forall|k: int| 0 <= k < j ==> alloc_row@[k] == arow[k],
            forall|k: int| 0 <= k < j ==> need_row@[k] == nrow[k],
    {
        let (a, w): (usize, usize) = match &mutexes[j] {
            Some(mx) => {
                let a: usize = match mx.owner {
                    Some(o) => if o == t {
                        1
                    } else {
                        0
                    },
                    None => 0,
                };
                let w: usize = if waits_on(&mx.waiters, t) {
                    1
                } else {
                    0
                };
                (a, w)
            },
            None => (0, 0),
        };
        alloc_row.push(a);
        if t == current_tid && j == req_id {
            need_row.push(1);
        } else {
            need_row.push(w);
        }
    }
    assert(alloc_row@ =~= arow);
    assert(need_row@ =~= nrow);
    (alloc_row, need_row)
}

proof fn lemma_mutex_column_total(mutexes: Seq<Option<MutexState>>, n: int, j: int, k: int)
    requires
        0 <= j < mutexes.len(),
        0 <= k <= n <= usize::MAX,
    ensures
        crate::deadlock::held_in_total(mutex_allocation(mutexes, n), j, k) == (match mutexes[j] {
            Some(mx) => match mx.owner {
                Some(o) => if o < k {
                    1int
                } else {
                    0int
                },
                None => 0int,
            },
            None => 0int,
        }),
    decreases k,
{
    if k > 0 {
        lemma_mutex_column_total(mutexes, n, j, k - 1);
        assert(mutex_allocation(mutexes, n)[k - 1][j] == (match mutexes[j] {
            Some(mx) => if mx.owner == Some((k - 1) as usize) {
                1usize
            } else {
                0usize
            },
            None => 0usize,
        }));
    }
}

/// Whether locking mutex `req_id` would leave task `current_tid` unable to
/// finish, judged on the owners and waiters of the process's mutexes.
pub fn check_mutex_deadlock(process: &ProcessSync, current_tid: usize, req_id: usize) -> (deadlocked:
    bool)
    requires
        current_tid < process.task_count,
        req_id < process.mutex_list.len(),
    ensures
        deadlocked == mutex_deadlock(*process, current_tid as int, req_id as int),
{
    let n = process.task_count;
    let m = process.mutex_list.len();
    let available = mutex_available_of(&process.mutex_list);
    let mut allocation: Vec<Vec<usize>> = Vec::new();
    let mut need: Vec<Vec<usize>> = Vec::new();
    let ghost ms = process.mutex_list@;
    for t in 0..n
        invariant
            n == process.task_count,
            ms == process.mutex_list@,
            allocation.len() == t,
            need.len() == t,
            forall|k: int| 0 <= k < t ==> allocation@[k]@ == mutex_allocation(ms, n as int)[k],
            forall|k: int|
                0 <= k < t ==> need@[k]@ == mutex_need(
                    ms,
                    n as int,
                    current_tid as int,
                    req_id as int,
                )[k],
    {
        let (a, w) = mutex_rows_of(&process.mutex_list, n, t, current_tid, req_id);
        allocation.push(a);
        need.push(w);
    }
    proof {
        lemma_deep_view_rows(allocation);
        lemma_deep_view_rows(need);
        assert(allocation.deep_view() =~= mutex_allocation(ms, n as int));
        assert(need.deep_view() =~= mutex_need(ms, n as int, current_tid as int, req_id as int));
        assert forall|j: int| 0 <= j < m implies #[trigger] crate::deadlock::column_total(
            available@,
            allocation.deep_view(),
            n as int,
            j,
        ) <= usize::MAX by {
            lemma_mutex_column_total(ms, n as int, j, n as int);
        }
    }
    run_detection_algorithm(n, m, available, allocation, need, current_tid)
}


/// `semaphore_available` of the table, computed.
fn semaphore_available_of(sems: &Vec<Option<SemaphoreState>>) -> (r: Vec<usize>)
    ensures
        r@ == semaphore_available(sems@),
{
    let mut r: Vec<usize> = Vec::new();
    for j in 0..sems.len()
        invariant
            r.len() == j,
            forall|k: int| 0 <= k < j ==> r@[k] == semaphore_available(sems@)[k],
    {
        let v: usize = match &sems[j] {
            Some(sm) => if sm.count >= 0 {
                sm.count as usize
            } else {
                0
            },
            None => 0,
        };
        r.push(v);
    }
    assert(r@ =~= semaphore_available(sems@));
    r
}

/// Row `t` of `semaphore_allocation` and of `semaphore_need`, computed.
fn semaphore_rows_of(
    sems: &Vec<Option<SemaphoreState>>,
    n: usize,
    t: usize,
    current_tid: usize,
    req_id: usize,
) -> (r: (Vec<usize>, Vec<usize>))
    requires
        t < n,
    ensures
        r.0@ == semaphore_allocation(sems@, n as int)[t as int],
        r.1@ == semaphore_need(sems@, n as int, current_tid as int, req_id as int)[t as int],
{
    let mut alloc_row: Vec<usize> = Vec::new();
    let mut need_row: Vec<usize> = Vec::new();
    let ghost arow = semaphore_allocation(sems@, n as int)[t as int];
    let ghost nrow = semaphore_need(sems@, n as int, current_tid as int, req_id as int)[t as int];
    for j in 0..sems.len()
        invariant
            t < n,
            arow == semaphore_allocation(sems@, n as int)[t as int],
            nrow == semaphore_need(sems@, n as int, current_tid as int, req_id as int)[t as int],
            alloc_row.len() == j,
            need_row.len() == j,
            forall|k: int| 0 <= k < j ==> alloc_row@[k] == arow[k],
            forall|k: int| 0 <= k < j ==> need_row@[k] == nrow[k],
    {
        let (a, w): (usize, usize) = match &sems[j] {
            Some(sm) => {
                let a = held_units_of(&sm.holders, t);
                let w: usize = if waits_on(&sm.waiters, t) {
                    1
                } else {
                    0
                };
                (a, w)
            },
            None => (0, 0),
        };
        alloc_row.push(a);
        if t == current_tid && j == req_id {
            need_row.push(1);
        } else {
            need_row.push(w);
        }
    }
    assert(alloc_row@ =~= arow);
    assert(need_row@ =~= nrow);
    (alloc_row, need_row)
}

/// Whether taking a unit of semaphore `req_id` would leave task
/// `current_tid` unable to finish, judged on the counts, holders and waiters
/// of the process's semaphores.
pub fn check_semaphore_deadlock(process: &ProcessSync, current_tid: usize, req_id: usize) -> (deadlocked:
    bool)
    requires
        current_tid < process.task_count,
        req_id < process.semaphore_list.len(),
        process.holders_distinct(),
        semaphore_totals_fit(*process),
    ensures
        deadlocked == semaphore_deadlock(*process, current_tid as int, req_id as int),
{
    let n = process.task_count;
    let m = process.semaphore_list.len();
    let available = semaphore_available_of(&process.semaphore_list);
    let mut allocation: Vec<Vec<usize>> = Vec::new();
    let mut need: Vec<Vec<usize>> = Vec::new();
    let ghost ss = process.semaphore_list@;
    for t in 0..n
        invariant
            n == process.task_count,
            ss == process.semaphore_list@,
            allocation.len() == t,
            need.len() == t,
            forall|k: int| 0 <= k < t ==> allocation@[k]@ == semaphore_allocation(ss, n as int)[k],
            forall|k: int|
                0 <= k < t ==> need@[k]@ == semaphore_need(
                    ss,
                    n as int,
                    current_tid as int,
                    req_id as int,
                )[k],
    {
        let (a, w) = semaphore_rows_of(&process.semaphore_list, n, t, current_tid, req_id);
        allocation.push(a);
        need.push(w);
    }
    proof {
        lemma_deep_view_rows(allocation);
        lemma_deep_view_rows(need);
        assert(allocation.deep_view() =~= semaphore_allocation(ss, n as int));
        assert(need.deep_view() =~= semaphore_need(ss, n as int, current_tid as int, req_id as int));
    }
    run_detection_algorithm(n, m, available, allocation, need, current_tid)
}


// ---------------------------------------------------------------------------
// The syscalls.

/// `sleep`: the calling task sleeps until `now_ms + ms`, the time that the
/// kernel's clock read `now_ms` when the call came.
pub fn sys_sleep(now_ms: usize, ms: usize) -> (out: SyscallOutcome)
    requires
        now_ms + ms <= usize::MAX,
    ensures
        out == (SyscallOutcome { ret: 0, action: Some(SyncAction::SleepUntil((now_ms + ms) as usize)) }),
{
    let expire_ms = now_ms + ms;
    SyscallOutcome { ret: 0, action: Some(SyncAction::SleepUntil(expire_ms)) }
}

/// `mutex_create`: a new mutex, blocking or spinning, takes the first free
/// slot of the mutex table (or a new one at its end); its index is returned.
pub fn sys_mutex_create(process: &mut ProcessSync, blocking: bool) -> (ret: isize)
    ensures
        ret == free_slot(old(process).mutex_list@) as isize,
        filled_free_slot(old(process).mutex_list@, final(process).mutex_list@),
        final(process).mutex_list@[free_slot(old(process).mutex_list@)] matches Some(mx) && mx.blocking
            == blocking && mx.owner is None && mx.waiters@.len() == 0,
        final(process).semaphore_list@ == old(process).semaphore_list@,
        final(process).condvar_list@ == old(process).condvar_list@,
        final(process).task_count == old(process).task_count,
        final(process).deadlock_detect_enabled == old(process).deadlock_detect_enabled,
{
    let mutex = MutexState::new(blocking);
    let id = insert_into_free_slot(&mut process.mutex_list, mutex);
    id as isize
}

/// `mutex_lock`: with deadlock detection on, a request that would leave the
/// calling task unable to finish is refused with `DEADLOCK_REFUSED`;
/// otherwise the mutex is locked and 0 returned.
pub fn sys_mutex_lock(process: &ProcessSync, current_tid: usize, mutex_id: usize) -> (out:
    SyscallOutcome)
    requires
        mutex_id < process.mutex_list.len(),
        process.mutex_list@[mutex_id as int] is Some,
        process.deadlock_detect_enabled ==> current_tid < process.task_count,
    ensures
        if process.deadlock_detect_enabled && mutex_deadlock(
            *process,
            current_tid as int,
            mutex_id as int,
        ) {
            out == (SyscallOutcome { ret: DEADLOCK_REFUSED, action: None })
        } else {
            out == (SyscallOutcome { ret: 0, action: Some(SyncAction::LockMutex(mutex_id)) })
        },
{
    if process.deadlock_detect_enabled {
        if check_mutex_deadlock(process, current_tid, mutex_id) {
            return SyscallOutcome { ret: DEADLOCK_REFUSED, action: None };
        }
    }
    SyscallOutcome { ret: 0, action: Some(SyncAction::LockMutex(mutex_id)) }
}

/// `mutex_unlock`: the mutex is unlocked and 0 returned.
pub fn sys_mutex_unlock(process: &ProcessSync, mutex_id: usize) -> (out: SyscallOutcome)
    requires
        mutex_id < process.mutex_list.len(),
        process.mutex_list@[mutex_id as int] is Some,
    ensures
        out == (SyscallOutcome { ret: 0, action: Some(SyncAction::UnlockMutex(mutex_id)) }),
{
    let _mutex = process.mutex_list[mutex_id].as_ref().unwrap();
    SyscallOutcome { ret: 0, action: Some(SyncAction::UnlockMutex(mutex_id)) }
}

/// `semaphore_create`: a new semaphore with `res_count` free units takes
/// the first free slot of the semaphore table (or a new one at its end); its
/// index is returned.
pub fn sys_semaphore_create(process: &mut ProcessSync, res_count: usize) -> (ret: isize)
    ensures
        ret == free_slot(old(process).semaphore_list@) as isize,
        filled_free_slot(old(process).semaphore_list@, final(process).semaphore_list@),
        final(process).semaphore_list@[free_slot(old(process).semaphore_list@)] matches Some(sm)
            && sm.count == res_count as isize && sm.holders@.len() == 0 && sm.waiters@.len() == 0,
        old(process).holders_distinct() ==> final(process).holders_distinct(),
        final(process).mutex_list@ == old(process).mutex_list@,
        final(process).condvar_list@ == old(process).condvar_list@,
        final(process).task_count == old(process).task_count,
        final(process).deadlock_detect_enabled == old(process).deadlock_detect_enabled,
{
    let sem = SemaphoreState::new(res_count);
    let id = insert_into_free_slot(&mut process.semaphore_list, sem);
    id as isize
}

/// `semaphore_up`: one unit of the semaphore is released and 0 returned.
pub fn sys_semaphore_up(process: &ProcessSync, sem_id: usize) -> (out: SyscallOutcome)
    requires
        sem_id < process.semaphore_list.len(),
        process.semaphore_list@[sem_id as int] is Some,
    ensures
        out == (SyscallOutcome { ret: 0, action: Some(SyncAction::SemaphoreUp(sem_id)) }),
{
    let _sem = process.semaphore_list[sem_id].as_ref().unwrap();
    SyscallOutcome { ret: 0, action: Some(SyncAction::SemaphoreUp(sem_id)) }
}

/// `semaphore_down`: with deadlock detection on, a request that would leave
/// the calling task unable to finish is refused with `DEADLOCK_REFUSED`;
/// otherwise one unit is taken (waiting if none is free) and 0 returned.
pub fn sys_semaphore_down(process: &ProcessSync, current_tid: usize, sem_id: usize) -> (out:
    SyscallOutcome)
    requires
        sem_id < process.semaphore_list.len(),
        process.semaphore_list@[sem_id as int] is Some,
        process.deadlock_detect_enabled ==> current_tid < process.task_count
            && process.holders_distinct() && semaphore_totals_fit(*process),
    ensures
        if process.deadlock_detect_enabled && semaphore_deadlock(
            *process,
            current_tid as int,
            sem_id as int,
        ) {
            out == (SyscallOutcome { ret: DEADLOCK_REFUSED, action: None })
        } else {
            out == (SyscallOutcome { ret: 0, action: Some(SyncAction::SemaphoreDown(sem_id)) })
        },
{
    if process.deadlock_detect_enabled {
        if check_semaphore_deadlock(process, current_tid, sem_id) {
            return SyscallOutcome { ret: DEADLOCK_REFUSED, action: None };
        }
    }
    SyscallOutcome { ret: 0, action: Some(SyncAction::SemaphoreDown(sem_id)) }
}

/// `condvar_create`: a new condition variable takes the first free slot of
/// the condition variable table (or a new one at its end); its index is
/// returned.
pub fn sys_condvar_create(process: &mut ProcessSync) -> (ret: isize)
    ensures
        ret == free_slot(old(process).condvar_list@) as isize,
        filled_free_slot(old(process).condvar_list@, final(process).condvar_list@),
        final(process).condvar_list@[free_slot(old(process).condvar_list@)] matches Some(cv)
            && cv.waiters@.len() == 0,
        final(process).mutex_list@ == old(process).mutex_list@,
        final(process).semaphore_list@ == old(process).semaphore_list@,
        final(process).task_count == old(process).task_count,
        final(process).deadlock_detect_enabled == old(process).deadlock_detect_enabled,
{
    let condvar = CondvarState::new();
    let id = insert_into_free_slot(&mut process.condvar_list, condvar);
    id as isize
}

/// `condvar_signal`: one waiter of the condition variable is woken and 0
/// returned.
pub fn sys_condvar_signal(process: &ProcessSync, condvar_id: usize) -> (out: SyscallOutcome)
    requires
        condvar_id < process.condvar_list.len(),
        process.condvar_list@[condvar_id as int] is Some,
    ensures
        out == (SyscallOutcome { ret: 0, action: Some(SyncAction::SignalCondvar(condvar_id)) }),
{
    let _condvar = process.condvar_list[condvar_id].as_ref().unwrap();
    SyscallOutcome { ret: 0, action: Some(SyncAction::SignalCondvar(condvar_id)) }
}

/// `condvar_wait`: the calling task waits on the condition variable,
/// releasing the mutex meanwhile, and 0 is returned.
pub fn sys_condvar_wait(process: &ProcessSync, condvar_id: usize, mutex_id: usize) -> (out:
    SyscallOutcome)
    requires
        condvar_id < process.condvar_list.len(),
        process.condvar_list@[condvar_id as int] is Some,
        mutex_id < process.mutex_list.len(),
        process.mutex_list@[mutex_id as int] is Some,
    ensures
        out == (SyscallOutcome {
            ret: 0,
            action: Some(SyncAction::WaitCondvar(condvar_id, mutex_id)),
        }),
{
    let _condvar = process.condvar_list[condvar_id].as_ref().unwrap();
    let _mutex = process.mutex_list[mutex_id].as_ref().unwrap();
    SyscallOutcome { ret: 0, action: Some(SyncAction::WaitCondvar(condvar_id, mutex_id)) }
}

/// `enable_deadlock_detect`: 1 turns detection on, 0 turns it off, both
/// returning 0; any other value is refused with -1 and changes nothing.
pub fn sys_enable_deadlock_detect(process: &mut ProcessSync, enabled: usize) -> (ret: isize)
    ensures
        enabled != 0 && enabled != 1 ==> ret == -1 && *final(process) == *old(process),
        enabled == 0 || enabled == 1 ==> ret == 0 && *final(process) == (ProcessSync {
            deadlock_detect_enabled: enabled == 1,
            ..*old(process)
        }),
{
    if enabled != 0 && enabled != 1 {
        return -1;
    }
    process.deadlock_detect_enabled = enabled == 1;
    0
}

// ---------------------------------------------------------------------------
// Laws.

/// A task that owns no mutex is never refused a mutex for deadlock: a
/// deadlock needs a task that holds one resource while it waits for another.
pub proof fn lemma_mutex_request_without_holding_is_safe(p: ProcessSync, current: int, req: int)
    requires
        0 <= current < p.task_count,
        forall|j: int|
            0 <= j < p.mutex_list@.len() ==> !(#[trigger] p.mutex_list@[j] matches Some(mx)
                && mx.owner == Some(current as usize)),
    ensures
        !mutex_deadlock(p, current, req),
{
    let ms = p.mutex_list@;
    let alloc = mutex_allocation(ms, p.task_count as int);
    assert forall|j: int| 0 <= j < alloc[current].len() implies #[trigger] alloc[current][j]
        == 0 by {
        assert(!(ms[j] matches Some(mx) && mx.owner == Some(current as usize)));
    }
    crate::deadlock::lemma_idle_task_can_finish(
        mutex_available(ms),
        alloc,
        mutex_need(ms, p.task_count as int, current, req),
        p.task_count as int,
        ms.len() as int,
        current,
    );
}

/// A task that holds no unit of any semaphore is never refused a unit for
/// deadlock.
pub proof fn lemma_semaphore_request_without_holding_is_safe(p: ProcessSync, current: int, req: int)
    requires
        0 <= current < p.task_count,
        forall|j: int|
            0 <= j < p.semaphore_list@.len() ==> !(#[trigger] p.semaphore_list@[j] matches Some(sm)
                && held_units(sm.holders@, current) != 0),
    ensures
        !semaphore_deadlock(p, current, req),
{
    let ss = p.semaphore_list@;
    let alloc = semaphore_allocation(ss, p.task_count as int);
    assert forall|j: int| 0 <= j < alloc[current].len() implies #[trigger] alloc[current][j]
        == 0 by {
        assert(!(ss[j] matches Some(sm) && held_units(sm.holders@, current) != 0));
    }
    crate::deadlock::lemma_idle_task_can_finish(
        semaphore_available(ss),
        alloc,
        semaphore_need(ss, p.task_count as int, current, req),
        p.task_count as int,
        ss.len() as int,
        current,
    );
}

// ---------------------------------------------------------------------------
// What the tables say of a task, read directly.

/// Task `b` owns mutex `j`.
pub open spec fn owns_mutex(p: ProcessSync, b: int, j: int) -> bool {
    &&& 0 <= j < p.mutex_list@.len()
    &&& p.mutex_list@[j] matches Some(mx)
    &&& mx.owner == Some(b as usize)
}

/// Mutex `j` is owned by a task of `group`.
pub open spec fn mutex_owned_within(p: ProcessSync, j: int, group: Set<int>) -> bool {
    &&& 0 <= j < p.mutex_list@.len()
    &&& p.mutex_list@[j] matches Some(mx)
    &&& mx.owner matches Some(o)
    &&& group.contains(o as int)
}

/// Task `b` is queued, at any place, on mutex `j`.
pub open spec fn queued_on_mutex(p: ProcessSync, b: int, j: int) -> bool {
    &&& 0 <= j < p.mutex_list@.len()
    &&& p.mutex_list@[j] matches Some(mx)
    &&& mx.waiters@.contains(b as usize)
}

/// Task `b` has an entry with some units in the holder list of semaphore `j`.
pub open spec fn holds_semaphore_units(p: ProcessSync, b: int, j: int) -> bool {
    &&& 0 <= j < p.semaphore_list@.len()
    &&& p.semaphore_list@[j] matches Some(sm)
    &&& exists|k: int|
        0 <= k < sm.holders@.len() && #[trigger] sm.holders@[k].0 == b && sm.holders@[k].1 > 0
}

/// Semaphore `j` has no free unit and every entry of its holder list is a
/// task of `group`.
pub open spec fn semaphore_held_within(p: ProcessSync, j: int, group: Set<int>) -> bool {
    &&& 0 <= j < p.semaphore_list@.len()
    &&& p.semaphore_list@[j] matches Some(sm)
    &&& sm.count <= 0
    &&& forall|k: int| 0 <= k < sm.holders@.len() ==> group.contains(#[trigger] sm.holders@[k].0 as int)
}

/// Task `b` is queued, at any place, on semaphore `j`.
pub open spec fn queued_on_semaphore(p: ProcessSync, b: int, j: int) -> bool {
    &&& 0 <= j < p.semaphore_list@.len()
    &&& p.semaphore_list@[j] matches Some(sm)
    &&& sm.waiters@.contains(b as usize)
}

// ---------------------------------------------------------------------------
// Laws of the deadlock checks.

/// A holder list with distinct tids records, for the tid of each entry, the
/// units of that entry, wherever it stands in the list.
pub proof fn lemma_held_units_entry(holders: Seq<(usize, usize)>, k: int)
    requires
        0 <= k < holders.len(),
        forall|a: int, b: int| 0 <= a < b < holders.len() ==> holders[a].0 != holders[b].0,
    ensures
        held_units(holders, holders[k].0 as int) == holders[k].1,
    decreases holders.len(),
{
    if k < holders.len() - 1 {
        assert(holders.last().0 != holders[k].0);
        lemma_held_units_entry(holders.drop_last(), k);
    }
}

/// A task with no entry in a holder list holds no unit of it.
pub proof fn lemma_held_units_absent(holders: Seq<(usize, usize)>, t: int)
    requires
        forall|k: int| 0 <= k < holders.len() ==> holders[k].0 != t,
    ensures
        held_units(holders, t) == 0,
    decreases holders.len(),
{
    if holders.len() > 0 {
        lemma_held_units_absent(holders.drop_last(), t);
    }
}

proof fn lemma_mutex_owner_not_idle(p: ProcessSync, b: int, j: int)
    requires
        0 <= b < p.task_count,
        owns_mutex(p, b, j),
    ensures
        !holds_nothing(mutex_allocation(p.mutex_list@, p.task_count as int), b),
{
    let alloc = mutex_allocation(p.mutex_list@, p.task_count as int);
    assert(alloc[b][j] == 1);
}

proof fn lemma_mutex_awaited_blocks(p: ProcessSync, current: int, req: int, group: Set<int>, b: int, j: int)
    requires
        0 <= b < p.task_count,
        0 <= req < p.mutex_list@.len(),
        mutex_owned_within(p, j, group),
        (b == current && j == req) || queued_on_mutex(p, b, j),
    ensures
        mutex_need(p.mutex_list@, p.task_count as int, current, req)[b][j] > 0,
        mutex_available(p.mutex_list@)[j] == 0,
{
}

proof fn lemma_mutex_outside_holds_none(p: ProcessSync, group: Set<int>, u: int, j: int)
    requires
        0 <= u < p.task_count,
        !group.contains(u),
        mutex_owned_within(p, j, group),
    ensures
        mutex_allocation(p.mutex_list@, p.task_count as int)[u][j] == 0,
{
}

/// A circular wait on mutexes is refused: when every task of `group` owns
/// some mutex and waits (queued at any place, or by the request itself) for
/// a mutex owned within the group, the request cannot be served.
pub proof fn lemma_mutex_wait_cycle_deadlocks(
    p: ProcessSync,
    current: int,
    req: int,
    group: Set<int>,
    owned: spec_fn(int) -> int,
    awaited: spec_fn(int) -> int,
)
    requires
        group.contains(current),
        0 <= req < p.mutex_list@.len(),
        forall|b: int| #[trigger] group.contains(b) ==> 0 <= b < p.task_count,
        forall|b: int| #[trigger] group.contains(b) ==> owns_mutex(p, b, owned(b)),
        forall|b: int| #[trigger] group.contains(b) ==> mutex_owned_within(p, awaited(b), group),
        forall|b: int|
            #[trigger] group.contains(b) ==> (b == current && awaited(b) == req) || queued_on_mutex(
                p,
                b,
                awaited(b),
            ),
    ensures
        mutex_deadlock(p, current, req),
{
    let ms = p.mutex_list@;
    let n = p.task_count as int;
    let avail = mutex_available(ms);
    let alloc = mutex_allocation(ms, n);
    let need = mutex_need(ms, n, current, req);
    assert forall|b: int| #[trigger] group.contains(b) implies 0 <= b < n && !holds_nothing(alloc, b) by {
        lemma_mutex_owner_not_idle(p, b, owned(b));
    }
    assert forall|b: int| #[trigger] group.contains(b) implies 0 <= awaited(b) < ms.len() && need[b][awaited(b)]
        > 0 && avail[awaited(b)] == 0 by {
        lemma_mutex_awaited_blocks(p, current, req, group, b, awaited(b));
    }
    assert forall|b: int, u: int|
        #[trigger] group.contains(b) && 0 <= u < n && !group.contains(u) implies #[trigger] alloc[u][awaited(b)]
        == 0 by {
        lemma_mutex_outside_holds_none(p, group, u, awaited(b));
    }
    crate::deadlock::lemma_stuck_group_cannot_finish(
        avail,
        alloc,
        need,
        n,
        ms.len() as int,
        group,
        awaited,
        current,
    );
}

/// A task that asks again for a mutex it already owns is refused: it would
/// wait for itself.
pub proof fn lemma_relocking_owned_mutex_deadlocks(p: ProcessSync, c: int, r: int)
    requires
        0 <= c < p.task_count,
        owns_mutex(p, c, r),
    ensures
        mutex_deadlock(p, c, r),
{
    let group = Set::<int>::empty().insert(c);
    let at = |b: int| r;
    lemma_mutex_wait_cycle_deadlocks(p, c, r, group, at, at);
}

/// Two tasks that each own a mutex the other waits for are stuck: task `a`
/// asking for mutex `y` of task `b`, while `b` is queued (at any place) on
/// mutex `x` of `a`, is refused.
pub proof fn lemma_mutex_two_task_cycle_deadlocks(p: ProcessSync, a: int, b: int, x: int, y: int)
    requires
        0 <= a < p.task_count,
        0 <= b < p.task_count,
        a != b,
        owns_mutex(p, a, x),
        owns_mutex(p, b, y),
        queued_on_mutex(p, b, x),
    ensures
        mutex_deadlock(p, a, y),
{
    let group = Set::<int>::empty().insert(a).insert(b);
    let owned = |t: int| if t == a { x } else { y };
    let awaited = |t: int| if t == a { y } else { x };
    assert(mutex_owned_within(p, x, group));
    assert(mutex_owned_within(p, y, group));
    lemma_mutex_wait_cycle_deadlocks(p, a, y, group, owned, awaited);
}

/// A request for a free mutex, by a task queued on no mutex, is granted.
pub proof fn lemma_free_mutex_request_is_granted(p: ProcessSync, c: int, r: int)
    requires
        0 <= c < p.task_count,
        0 <= r < p.mutex_list@.len(),
        p.mutex_list@[r] matches Some(mx) && mx.owner is None,
        forall|j: int| !queued_on_mutex(p, c, j),
    ensures
        !mutex_deadlock(p, c, r),
{
    let ms = p.mutex_list@;
    let n = p.task_count as int;
    let avail = mutex_available(ms);
    let need = mutex_need(ms, n, c, r);
    assert forall|j: int| 0 <= j < ms.len() implies need[c][j] <= avail[j] by {
        assert(!queued_on_mutex(p, c, j));
    }
    crate::deadlock::lemma_covered_need_can_finish(
        avail,
        mutex_allocation(ms, n),
        need,
        n,
        ms.len() as int,
        c,
    );
}

/// A circular wait on semaphores is refused: when every task of `group`
/// holds units of some semaphore and waits (queued at any place, or by the
/// request itself) for a semaphore with no free unit whose holders all lie in
/// the group, the request cannot be served.
pub proof fn lemma_semaphore_wait_cycle_deadlocks(
    p: ProcessSync,
    current: int,
    req: int,
    group: Set<int>,
    held: spec_fn(int) -> int,
    awaited: spec_fn(int) -> int,
)
    requires
        p.holders_distinct(),
        group.contains(current),
        0 <= req < p.semaphore_list@.len(),
        forall|b: int| #[trigger] group.contains(b) ==> 0 <= b < p.task_count,
        forall|b: int| #[trigger] group.contains(b) ==> holds_semaphore_units(p, b, held(b)),
        forall|b: int| #[trigger] group.contains(b) ==> semaphore_held_within(p, awaited(b), group),
        forall|b: int|
            #[trigger] group.contains(b) ==> (b == current && awaited(b) == req) || queued_on_semaphore(
                p,
                b,
                awaited(b),
            ),
    ensures
        semaphore_deadlock(p, current, req),
{
    let ss = p.semaphore_list@;
    let n = p.task_count as int;
    let avail = semaphore_available(ss);
    let alloc = semaphore_allocation(ss, n);
    let need = semaphore_need(ss, n, current, req);
    assert forall|b: int| #[trigger] group.contains(b) implies 0 <= b < n && !holds_nothing(alloc, b) by {
        assert(holds_semaphore_units(p, b, held(b)));
        let j = held(b);
        let sm = ss[j]->Some_0;
        assert(sm.holders_distinct());
        let k = choose|k: int|
            0 <= k < sm.holders@.len() && #[trigger] sm.holders@[k].0 == b && sm.holders@[k].1 > 0;
        assert forall|x: int, y: int| 0 <= x < y < sm.holders@.len() implies sm.holders@[x].0
            != sm.holders@[y].0 by {
            assert(sm.holders@[x] == sm.holders@[x]);
        }
        lemma_held_units_entry(sm.holders@, k);
        assert(alloc[b][j] > 0);
    }
    assert forall|b: int| #[trigger] group.contains(b) implies 0 <= awaited(b) < ss.len() && need[b][awaited(b)]
        > 0 && avail[awaited(b)] == 0 by {
        assert(semaphore_held_within(p, awaited(b), group));
        if !(b == current && awaited(b) == req) {
            assert(queued_on_semaphore(p, b, awaited(b)));
        }
    }
    assert forall|b: int, u: int|
        #[trigger] group.contains(b) && 0 <= u < n && !group.contains(u) implies #[trigger] alloc[u][awaited(b)]
        == 0 by {
        assert(semaphore_held_within(p, awaited(b), group));
        let sm = ss[awaited(b)]->Some_0;
        assert forall|k: int| 0 <= k < sm.holders@.len() implies sm.holders@[k].0 != u by {
            assert(group.contains(sm.holders@[k].0 as int));
        }
        lemma_held_units_absent(sm.holders@, u);
    }
    crate::deadlock::lemma_stuck_group_cannot_finish(
        avail,
        alloc,
        need,
        n,
        ss.len() as int,
        group,
        awaited,
        current,
    );
}

/// A request for a semaphore with a free unit, by a task queued on no
/// semaphore, is granted.
pub proof fn lemma_free_semaphore_request_is_granted(p: ProcessSync, c: int, r: int)
    requires
        0 <= c < p.task_count,
        0 <= r < p.semaphore_list@.len(),
        p.semaphore_list@[r] matches Some(sm) && sm.count >= 1,
        forall|j: int| !queued_on_semaphore(p, c, j),
    ensures
        !semaphore_deadlock(p, c, r),
{
    let ss = p.semaphore_list@;
    let n = p.task_count as int;
    let avail = semaphore_available(ss);
    let need = semaphore_need(ss, n, c, r);
    assert forall|j: int| 0 <= j < ss.len() implies need[c][j] <= avail[j] by {
        assert(!queued_on_semaphore(p, c, j));
    }
    crate::deadlock::lemma_covered_need_can_finish(
        avail,
        semaphore_allocation(ss, n),
        need,
        n,
        ss.len() as int,
        c,
    );
}

} // verus!
