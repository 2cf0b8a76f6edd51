//! The ready queues of the task manager: a FIFO scheduler and the stride
//! scheduler that the kernel runs.
//!
//! A task carries its stride bookkeeping. The stride scheduler queues a task
//! with its saved stride (a new task with the stride of the task fetched
//! last), and hands out the queued task whose stride lags furthest behind;
//! that task's saved stride then advances by its pass.

use core::cmp::Ordering;
use std::collections::VecDeque;
use vstd::prelude::*;
use crate::stride::{compare_strides, in_window, offset_from, ranks_above, stride_order, stride_ranks_above};

verus! {

/// The stride bookkeeping of a task.
#[derive(Clone, Copy, Debug, PartialEq, Eq)]
pub struct StrideTaskInfo {
    pub priority: usize,
    /// How far the stride advances each time the task is scheduled.
    pub pass: usize,
    /// The stride with which the task is queued next time.
    pub saved_stride: usize,
    /// The task has not been queued yet.
    pub is_new_task: bool,
}

impl StrideTaskInfo {
    /// The default priority of a task.
    pub const DEFAULT_PRIORITY: usize = 16;

    /// The stride that a task of priority 1 advances by per time slice.
    pub const BIG_STRIDE: usize = usize::MAX;

    /// A new task: default priority, the pass that goes with it, stride 0.
    pub fn new() -> (info: Self)
        ensures
            info.priority == Self::DEFAULT_PRIORITY,
            info.pass == Self::BIG_STRIDE / Self::DEFAULT_PRIORITY,
            info.saved_stride == 0,
            info.is_new_task,
    {
        StrideTaskInfo {
            priority: Self::DEFAULT_PRIORITY,
            pass: Self::BIG_STRIDE / Self::DEFAULT_PRIORITY,
            saved_stride: 0,
            is_new_task: true,
        }
    }

    /// Sets the priority and the pass that goes with it, `BIG_STRIDE /
    /// priority`.
    pub fn set_priority(&mut self, priority: usize)
        requires
            priority != 0,
        ensures
            *final(self) == (StrideTaskInfo {
                priority,
                pass: (Self::BIG_STRIDE / priority) as usize,
                ..*old(self)
            }),
    {
        self.priority = priority;
        self.pass = Self::BIG_STRIDE / priority;
    }
}

/// A higher priority never gives a longer pass, and a task's pass times its
/// priority never exceeds `BIG_STRIDE`: over the same span of strides, a
/// task of priority `p` is scheduled about `p` times as often as one of
/// priority 1.
pub proof fn lemma_pass_shrinks_with_priority(p1: usize, p2: usize)
    requires
        0 < p1 <= p2,
    ensures
        StrideTaskInfo::BIG_STRIDE / p2 <= StrideTaskInfo::BIG_STRIDE / p1,
        (StrideTaskInfo::BIG_STRIDE / p1) * p1 <= StrideTaskInfo::BIG_STRIDE,
{
    vstd::arithmetic::div_mod::lemma_div_is_ordered_by_denominator(
        StrideTaskInfo::BIG_STRIDE as int,
        p1 as int,
        p2 as int,
    );
    vstd::arithmetic::div_mod::lemma_remainder_lower(StrideTaskInfo::BIG_STRIDE as int, p1 as int);
}

/// A schedulable task: its id and its stride bookkeeping.
#[derive(Clone, Copy, Debug, PartialEq, Eq)]
pub struct Task {
    pub tid: usize,
    pub stride_info: StrideTaskInfo,
}

/// A queued task with the stride it was queued with.
#[derive(Clone, Copy, Debug)]
pub struct StrideItem {
    pub stride: usize,
    pub task: Task,
}

impl StrideItem {
    /// Two queued tasks are equal for the queue when their strides are.
    pub fn eq(&self, other: &Self) -> (r: bool)
        ensures
            r == (self.stride == other.stride),
    {
        self.stride == other.stride
    }

    /// The queue's order on queued tasks: that of their strides.
    pub fn cmp(&self, other: &Self) -> (r: Ordering)
        ensures
            r == stride_order(self.stride, other.stride),
    {
        compare_strides(self.stride, other.stride)
    }

    /// The queue's order, always defined.
    pub fn partial_cmp(&self, other: &Self) -> (r: Option<Ordering>)
        ensures
            r == Some(stride_order(self.stride, other.stride)),
    {
        Some(self.cmp(other))
    }
}

/// A first-in first-out ready queue.
pub struct FifoScheduler {
    ready_queue: VecDeque<Task>,
}

impl FifoScheduler {
    /// The tasks in the queue, first to run first.
    pub closed spec fn queue(&self) -> Seq<Task> {
        self.ready_queue@
    }

    /// An empty queue.
    pub fn new() -> (s: Self)
        ensures
            s.queue() == Seq::<Task>::empty(),
    {
        FifoScheduler { ready_queue: VecDeque::new() }
    }

    /// Puts `task` at the back of the queue.
    pub fn add(&mut self, task: Task)
        ensures
            final(self).queue() == old(self).queue().push(task),
    {
        self.ready_queue.push_back(task);
    }

    /// Takes the task at the front of the queue, if any.
    pub fn fetch(&mut self) -> (r: Option<Task>)
        ensures
            old(self).queue().len() == 0 ==> r is None && final(self).queue() == old(self).queue(),
            old(self).queue().len() > 0 ==> r == Some(old(self).queue()[0]) && final(self).queue()
                == old(self).queue().drop_first(),
    {
        self.ready_queue.pop_front()
    }
}

/// The stride with which `task` is queued when the last fetched stride was
/// `min_stride`.
pub open spec fn queued_stride(min_stride: usize, task: Task) -> usize {
    if task.stride_info.is_new_task {
        min_stride
    } else {
        task.stride_info.saved_stride
    }
}

/// A new task joins the queue at the stride of the task fetched last, and a
/// task that has run before at the stride it saved.
pub proof fn lemma_queued_stride_source(last_stride: usize, task: Task)
    ensures
        task.stride_info.is_new_task ==> queued_stride(last_stride, task) == last_stride,
        !task.stride_info.is_new_task ==> queued_stride(last_stride, task)
            == task.stride_info.saved_stride,
{
}

/// `task` as it sits in the queue: no longer new.
pub open spec fn queued_task(task: Task) -> Task {
    Task { stride_info: StrideTaskInfo { is_new_task: false, ..task.stride_info }, ..task }
}

/// Which queued task the stride scheduler hands out: scanning the queue in
/// order, a later task replaces the one kept so far when the queue's order
/// puts it strictly above.
pub open spec fn pick(items: Seq<StrideItem>) -> int
    decreases items.len(),
{
    if items.len() <= 1 {
        0
    } else {
        let b = pick(items.drop_last());
        if ranks_above(items.last().stride, items[b].stride) {
            items.len() - 1
        } else {
            b
        }
    }
}

/// Every queued stride lies in the half-range window that starts at `base`.
pub open spec fn all_in_window(items: Seq<StrideItem>, base: usize) -> bool {
    forall|k: int| 0 <= k < items.len() ==> in_window(base, #[trigger] items[k].stride)
}

/// The queued task at `i` lags furthest behind, counted from `base`.
pub open spec fn lags_most(items: Seq<StrideItem>, base: usize, i: int) -> bool {
    forall|k: int|
        0 <= k < items.len() ==> offset_from(base, items[i].stride) <= offset_from(
            base,
            #[trigger] items[k].stride,
        )
}

/// The task `fetch` hands out for the queued `item`: its saved stride has
/// advanced by its pass, wrapping.
pub open spec fn scheduled_task(item: StrideItem) -> Task {
    Task {
        stride_info: StrideTaskInfo {
            saved_stride: vstd::wrapping::usize_specs::wrapping_add(
                item.stride,
                item.task.stride_info.pass,
            ),
            ..item.task.stride_info
        },
        ..item.task
    }
}

/// When every queued stride lies in one half-range window, the task that
/// the scheduler picks is one whose stride lags furthest behind.
pub proof fn lemma_pick_lags_most(items: Seq<StrideItem>, base: usize)
    requires
        items.len() > 0,
        all_in_window(items, base),
    ensures
        0 <= pick(items) < items.len(),
        lags_most(items, base, pick(items)),
    decreases items.len(),
{
    if items.len() > 1 {
        let front = items.drop_last();
        assert(all_in_window(front, base)) by {
            assert forall|k: int| 0 <= k < front.len() implies in_window(
                base,
                #[trigger] front[k].stride,
            ) by {
                assert(front[k] == items[k]);
            }
        }
        lemma_pick_lags_most(front, base);
        let b = pick(front);
        assert(items[b] == front[b]);
        assert(in_window(base, items.last().stride));
        assert(in_window(base, items[b].stride));
        crate::stride::lemma_stride_order_in_window(base, items.last().stride, items[b].stride);
        assert forall|k: int| 0 <= k < items.len() implies offset_from(
            base,
            items[pick(items)].stride,
        ) <= offset_from(base, #[trigger] items[k].stride) by {
            if k < items.len() - 1 {
                assert(items[k] == front[k]);
            }
        }
    }
}

/// A task added to an empty stride queue is the task that fetch hands out
/// next: the same task, no longer new, queued with its saved stride (or the
/// last fetched stride when it is new), that saved stride then advanced by
/// its pass; the queue is empty again afterwards.
pub proof fn lemma_lone_task_comes_back(last_stride: usize, task: Task)
    ensures
        ({
            let queue = Seq::<StrideItem>::empty().push(
                StrideItem { stride: queued_stride(last_stride, task), task: queued_task(task) },
            );
            &&& pick(queue) == 0
            &&& queue.remove(0) == Seq::<StrideItem>::empty()
            &&& scheduled_task(queue[0]).tid == task.tid
            &&& scheduled_task(queue[0]).stride_info.priority == task.stride_info.priority
            &&& scheduled_task(queue[0]).stride_info.pass == task.stride_info.pass
            &&& !scheduled_task(queue[0]).stride_info.is_new_task
            &&& scheduled_task(queue[0]).stride_info.saved_stride
                == vstd::wrapping::usize_specs::wrapping_add(
                queued_stride(last_stride, task),
                task.stride_info.pass,
            )
        }),
{
    let queue = Seq::<StrideItem>::empty().push(
        StrideItem { stride: queued_stride(last_stride, task), task: queued_task(task) },
    );
    assert(queue.remove(0) =~= Seq::<StrideItem>::empty());
}

/// No queued task is marked new: a task stops being new when it is queued.
pub open spec fn no_new_tasks(items: Seq<StrideItem>) -> bool {
    forall|k: int| 0 <= k < items.len() ==> !(#[trigger] items[k]).task.stride_info.is_new_task
}

/// Each time a task runs, its stride advances by exactly its pass: the task
/// that fetch hands out for a queued (so no longer new) item is queued again
/// by add with the item's stride plus its pass, wrapping, and stays as it is.
pub proof fn lemma_run_advances_by_pass(last_stride: usize, item: StrideItem)
    requires
        !item.task.stride_info.is_new_task,
    ensures
        queued_stride(last_stride, scheduled_task(item)) == vstd::wrapping::usize_specs::wrapping_add(
            item.stride,
            item.task.stride_info.pass,
        ),
        queued_task(scheduled_task(item)) == scheduled_task(item),
{
}

/// The stride scheduler's ready queue.
pub struct StrideScheduler {
    ready_heap: Vec<StrideItem>,
    min_stride: usize,
}

impl StrideScheduler {
    /// The queue never holds a task marked new.
    #[verifier::type_invariant]
    spec fn queued_not_new(&self) -> bool {
        no_new_tasks(self.ready_heap@)
    }

    /// The queued tasks, in the order they were queued.
    pub closed spec fn items(&self) -> Seq<StrideItem> {
        self.ready_heap@
    }

    /// The stride of the task fetched last, with which new tasks are queued.
    pub closed spec fn last_stride(&self) -> usize {
        self.min_stride
    }

    /// An empty queue; new tasks start at stride 0.
    pub fn new() -> (s: Self)
        ensures
            s.items() == Seq::<StrideItem>::empty(),
            s.last_stride() == 0,
            no_new_tasks(s.items()),
    {
        StrideScheduler { ready_heap: Vec::new(), min_stride: 0 }
    }

    /// Queues `task` with its saved stride, or, when it is new, with the
    /// stride of the task fetched last; the task is no longer new.
    pub fn add(&mut self, task: Task)
        ensures
            final(self).items() == old(self).items().push(
                StrideItem {
                    stride: queued_stride(old(self).last_stride(), task),
                    task: queued_task(task),
                },
            ),
            final(self).last_stride() == old(self).last_stride(),
            no_new_tasks(final(self).items()),
            task.stride_info.is_new_task ==> final(self).items().last().stride == old(
                self,
            ).last_stride(),
            !task.stride_info.is_new_task ==> final(self).items().last().stride
                == task.stride_info.saved_stride,
            final(self).items().last().task.tid == task.tid,
            final(self).items().last().task.stride_info.pass == task.stride_info.pass,
            !final(self).items().last().task.stride_info.is_new_task,
    {
        proof {
            use_type_invariant(&*self);
        }
        let mut task = task;
        let stride = if task.stride_info.is_new_task {
            task.stride_info.is_new_task = false;
            self.min_stride
        } else {
            task.stride_info.saved_stride
        };
        let mut heap: Vec<StrideItem> = Vec::new();
        std::mem::swap(&mut heap, &mut self.ready_heap);
        heap.push(StrideItem { stride, task });
        proof {
            assert(no_new_tasks(heap@)) by {
                assert forall|k: int| 0 <= k < heap@.len() implies !(
                #[trigger] heap@[k]).task.stride_info.is_new_task by {
                    if k < old(self).ready_heap@.len() {
                        assert(heap@[k] == old(self).ready_heap@[k]);
                    }
                }
            }
        }
        self.ready_heap = heap;
    }

    /// The index of the queued task to hand out next.
    fn pick_index(&self) -> (i: usize)
        requires
            self.items().len() > 0,
        ensures
            i == pick(self.items()),
            i < self.items().len(),
    {
        let items = &self.ready_heap;
        let mut best: usize = 0;
        let mut k: usize = 1;
        proof {
            assert(items@.take(1).len() == 1);
        }
        while k < items.len()
            invariant
                1 <= k <= items.len(),
                best < k,
                best == pick(items@.take(k as int)),
            decreases items.len() - k,
        {
            proof {
                assert(items@.take(k + 1).drop_last() =~= items@.take(k as int));
                assert(items@.take(k + 1)[best as int] == items@[best as int]);
            }
            if stride_ranks_above(items[k].stride, items[best].stride) {
                best = k;
            }
            k = k + 1;
        }
        proof {
            assert(items@.take(k as int) =~= items@);
        }
        best
    }

    /// Hands out the queued task that the queue's order puts first — the one
    /// whose stride lags furthest behind, whenever the queued strides lie in
    /// one half-range window; its saved stride advances by its pass, and its
    /// stride becomes the one new tasks are queued with. An empty queue hands
    /// out nothing and stays as it is. A queued task is never new.
    pub fn fetch(&mut self) -> (r: Option<Task>)
        ensures
            no_new_tasks(old(self).items()),
            no_new_tasks(final(self).items()),
            r matches Some(t) ==> !t.stride_info.is_new_task,
            old(self).items().len() == 0 ==> r is None && final(self).items() == old(self).items()
                && final(self).last_stride() == old(self).last_stride(),
            old(self).items().len() > 0 ==> {
                let i = pick(old(self).items());
                &&& 0 <= i < old(self).items().len()
                &&& r == Some(scheduled_task(old(self).items()[i]))
                &&& final(self).items() == old(self).items().remove(i)
                &&& final(self).last_stride() == old(self).items()[i].stride
                &&& forall|base: usize|
                    all_in_window(old(self).items(), base) ==> #[trigger] lags_most(
                        old(self).items(),
                        base,
                        i,
                    )
            },
    {
        proof {
            use_type_invariant(&*self);
        }
        if self.ready_heap.len() == 0 {
            return None;
        }
        let i = self.pick_index();
        proof {
            assert forall|base: usize|
                all_in_window(old(self).items(), base) implies #[trigger] lags_most(
                old(self).items(),
                base,
                i as int,
            ) by {
                lemma_pick_lags_most(old(self).items(), base);
            }
        }
        let mut heap: Vec<StrideItem> = Vec::new();
        std::mem::swap(&mut heap, &mut self.ready_heap);
        let item = heap.remove(i);
        proof {
            assert(no_new_tasks(heap@)) by {
                assert forall|k: int| 0 <= k < heap@.len() implies !(
                #[trigger] heap@[k]).task.stride_info.is_new_task by {
                    if k < i {
                        assert(heap@[k] == old(self).ready_heap@[k]);
                    } else {
                        assert(heap@[k] == old(self).ready_heap@[k + 1]);
                    }
                }
            }
        }
        self.ready_heap = heap;
        let mut task = item.task;
        task.stride_info.saved_stride = item.stride.wrapping_add(task.stride_info.pass);
        self.min_stride = item.stride;
        Some(task)
    }
}

} // verus!
