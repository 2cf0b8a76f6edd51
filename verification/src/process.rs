//! What the synchronisation syscalls see of a process: its tables of
//! mutexes, semaphores and condition variables, the length of its task list
//! and whether deadlock detection is on.
//!
//! Each table entry holds, as plain values, the state of a primitive that the
//! deadlock checks read: who owns a mutex and who waits for it; the count,
//! the holders and the waiters of a semaphore. Tasks are named by their tid,
//! their index in the process's task list.

use vstd::prelude::*;

verus! {

/// A mutex of the process.
#[derive(Debug)]
pub struct MutexState {
    /// A blocking mutex puts waiters to sleep; a spinning one makes them retry.
    pub blocking: bool,
    /// The tid of the task that holds the mutex, if any.
    pub owner: Option<usize>,
    /// The tids of the tasks queued on the mutex.
    pub waiters: Vec<usize>,
}

/// A counting semaphore of the process.
#[derive(Debug)]
pub struct SemaphoreState {
    /// Free units; a negative count is the number of tasks waiting.
    pub count: isize,
    /// For each task that holds units, its tid and how many units it holds;
    /// a tid appears at most once (see `holders_distinct`).
    pub holders: Vec<(usize, usize)>,
    /// The tids of the tasks queued on the semaphore.
    pub waiters: Vec<usize>,
}

/// A condition variable of the process.
#[derive(Debug)]
pub struct CondvarState {
    /// The tids of the tasks queued on the condition variable.
    pub waiters: Vec<usize>,
}

/// The synchronisation state of one process.
#[derive(Debug)]
pub struct ProcessSync {
    /// Mutex table, indexed by mutex id; `None` marks a free slot.
    pub mutex_list: Vec<Option<MutexState>>,
    /// Semaphore table, indexed by semaphore id; `None` marks a free slot.
    pub semaphore_list: Vec<Option<SemaphoreState>>,
    /// Condition variable table, indexed by id; `None` marks a free slot.
    pub condvar_list: Vec<Option<CondvarState>>,
    /// The length of the process's task list; tids lie below it.
    pub task_count: usize,
    /// Whether lock and down requests are checked for deadlock first.
    pub deadlock_detect_enabled: bool,
}

impl ProcessSync {
    /// Every semaphore of the process lists each holder once.
    pub open spec fn holders_distinct(&self) -> bool {
        forall|j: int|
            0 <= j < self.semaphore_list@.len() ==> (#[trigger] self.semaphore_list@[j] matches Some(
                sm,
            ) ==> sm.holders_distinct())
    }
}

impl MutexState {
    /// A fresh mutex: nobody holds it and nobody waits.
    pub fn new(blocking: bool) -> (m: Self)
        ensures
            m.blocking == blocking,
            m.owner is None,
            m.waiters@ == Seq::<usize>::empty(),
    {
        MutexState { blocking, owner: None, waiters: Vec::new() }
    }
}

impl SemaphoreState {
    /// No tid appears twice in the holder list: it maps each holder to its
    /// units.
    pub open spec fn holders_distinct(&self) -> bool {
        forall|a: int, b: int|
            0 <= a < b < self.holders@.len() ==> (#[trigger] self.holders@[a]).0 != (
            #[trigger] self.holders@[b]).0
    }

    /// A fresh semaphore with `res_count` free units, no holder and no waiter.
    pub fn new(res_count: usize) -> (s: Self)
        ensures
            s.count == res_count as isize,
            s.holders@ == Seq::<(usize, usize)>::empty(),
            s.waiters@ == Seq::<usize>::empty(),
            s.holders_distinct(),
    {
        SemaphoreState { count: res_count as isize, holders: Vec::new(), waiters: Vec::new() }
    }
}

impl CondvarState {
    /// A fresh condition variable with nobody waiting.
    pub fn new() -> (c: Self)
        ensures
            c.waiters@ == Seq::<usize>::empty(),
    {
        CondvarState { waiters: Vec::new() }
    }
}

/// `id` is the slot that a new entry takes in a table that was `before`: the
/// first free slot, or a new slot at the end when none is free.
pub open spec fn first_free_slot<T>(before: Seq<Option<T>>, id: int) -> bool {
    &&& 0 <= id <= before.len()
    &&& forall|k: int| 0 <= k < id ==> (#[trigger] before[k]) is Some
    &&& id < before.len() ==> before[id] is None
}

/// The slot that a new entry takes in a table that was `before`.
pub open spec fn free_slot<T>(before: Seq<Option<T>>) -> int {
    choose|id: int| first_free_slot(before, id)
}

/// The table `after` is `before` with a new entry put into the slot
/// `free_slot(before)`.
pub open spec fn filled_free_slot<T>(before: Seq<Option<T>>, after: Seq<Option<T>>) -> bool {
    let id = free_slot(before);
    &&& first_free_slot(before, id)
    &&& id < after.len()
    &&& after[id] is Some
    &&& after == placed(before, id, after[id]->Some_0)
}

/// Only one slot is the first free slot.
pub proof fn lemma_free_slot_unique<T>(before: Seq<Option<T>>, id: int)
    requires
        first_free_slot(before, id),
    ensures
        free_slot(before) == id,
{
    let other = free_slot(before);
    assert(first_free_slot(before, other));
    if other < id {
        assert(before[other] is Some);
    } else if id < other {
        assert(before[id] is Some);
    }
}

/// Slots are handed out in increasing order, and an entry stays where it
/// was put: when two entries are added one after the other, the second takes
/// a higher slot than the first, and the first slot still holds the first
/// entry.
pub proof fn lemma_slots_handed_out_in_order<T>(
    before: Seq<Option<T>>,
    middle: Seq<Option<T>>,
    after: Seq<Option<T>>,
)
    requires
        filled_free_slot(before, middle),
        filled_free_slot(middle, after),
    ensures
        free_slot(middle) > free_slot(before),
        after[free_slot(before)] == middle[free_slot(before)],
{
    let id = free_slot(before);
    let next = free_slot(middle);
    assert(first_free_slot(middle, next)) by {
        let w = lowest_free(middle, middle.len() as int);
        lemma_lowest_free(middle, middle.len() as int);
        assert(first_free_slot(middle, w));
    }
    if next <= id {
        if next < id {
            assert(before[next] is Some);
            assert(middle[next] == before[next]);
        }
        assert(middle[next] is Some);
    }
}

/// The lowest free slot among the first `k`, or `k` when they are all taken.
spec fn lowest_free<T>(s: Seq<Option<T>>, k: int) -> int
    decreases k,
{
    if k <= 0 {
        0
    } else if lowest_free(s, k - 1) < k - 1 {
        lowest_free(s, k - 1)
    } else if s[k - 1] is None {
        k - 1
    } else {
        k
    }
}

proof fn lemma_lowest_free<T>(s: Seq<Option<T>>, k: int)
    requires
        0 <= k <= s.len(),
    ensures
        0 <= lowest_free(s, k) <= k,
        forall|l: int| 0 <= l < lowest_free(s, k) ==> (#[trigger] s[l]) is Some,
        lowest_free(s, k) < k ==> s[lowest_free(s, k)] is None,
    decreases k,
{
    if k > 0 {
        lemma_lowest_free(s, k - 1);
    }
}

/// The table after `item` was put into slot `id`.
pub open spec fn placed<T>(before: Seq<Option<T>>, id: int, item: T) -> Seq<Option<T>> {
    if id < before.len() {
        before.update(id, Some(item))
    } else {
        before.push(Some(item))
    }
}

/// Puts `item` into the first free slot of `list`, or at its end when every
/// slot is taken, and returns the slot's index.
pub fn insert_into_free_slot<T>(list: &mut Vec<Option<T>>, item: T) -> (id: usize)
    ensures
        first_free_slot(old(list)@, id as int),
        id == free_slot(old(list)@),
        final(list)@ == placed(old(list)@, id as int, item),
        filled_free_slot(old(list)@, final(list)@),
{
    let mut i: usize = 0;
    while i < list.len()
        invariant
            i <= list.len(),
            list@ == old(list)@,
            forall|k: int| 0 <= k < i ==> (#[trigger] list@[k]) is Some,
        decreases list.len() - i,
    {
        if list[i].is_none() {
            list.set(i, Some(item));
            proof {
                lemma_free_slot_unique(old(list)@, i as int);
            }
            return i;
        }
        i = i + 1;
    }
    list.push(Some(item));
    proof {
        lemma_free_slot_unique(old(list)@, i as int);
    }
    i
}

} // verus!
