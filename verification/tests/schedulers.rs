use std::cmp::Ordering;

use os_sync::manager::{
    FifoScheduler, StrideItem, StrideScheduler, StrideTaskInfo, Task,
};
use os_sync::stride::{compare_strides, stride_ranks_above};

fn task(tid: usize) -> Task {
    Task { tid, stride_info: StrideTaskInfo::new() }
}

#[test]
fn stride_task_info_defaults() {
    let info = StrideTaskInfo::new();
    assert_eq!(info.priority, 16);
    assert_eq!(StrideTaskInfo::DEFAULT_PRIORITY, 16);
    assert_eq!(StrideTaskInfo::BIG_STRIDE, usize::MAX);
    assert_eq!(info.pass, usize::MAX / 16);
    assert_eq!(info.saved_stride, 0);
    assert!(info.is_new_task);
}

#[test]
fn set_priority_sets_pass() {
    let mut info = StrideTaskInfo::new();
    info.saved_stride = 42;
    info.set_priority(4);
    assert_eq!(info.priority, 4);
    assert_eq!(info.pass, usize::MAX / 4);
    assert_eq!(info.saved_stride, 42);
    assert!(info.is_new_task);
    info.set_priority(1);
    assert_eq!(info.pass, usize::MAX);
    let mut hi = StrideTaskInfo::new();
    hi.set_priority(32);
    assert!(hi.pass <= info.pass);
}

#[test]
fn stride_compare_plain_and_wrapping() {
    assert_eq!(compare_strides(7, 7), Ordering::Equal);
    // The stride that lags behind ranks above.
    assert_eq!(compare_strides(10, 3), Ordering::Less);
    assert_eq!(compare_strides(3, 10), Ordering::Greater);
    // 5 lies 11 ahead of usize::MAX - 5 once strides wrap.
    assert_eq!(compare_strides(5, usize::MAX - 5), Ordering::Less);
    assert_eq!(compare_strides(usize::MAX - 5, 5), Ordering::Greater);
    assert!(stride_ranks_above(usize::MAX - 5, 5));
    assert!(!stride_ranks_above(5, usize::MAX - 5));
}

#[test]
fn stride_compare_half_range_apart() {
    let half = usize::MAX / 2 + 1;
    assert_eq!(compare_strides(half, 0), Ordering::Greater);
    assert_eq!(compare_strides(0, half), Ordering::Greater);
    assert_eq!(compare_strides(usize::MAX / 2, 0), Ordering::Less);
    assert_eq!(compare_strides(0, usize::MAX / 2), Ordering::Greater);
}

#[test]
fn stride_item_order() {
    let a = StrideItem { stride: 10, task: task(0) };
    let b = StrideItem { stride: 3, task: task(1) };
    let c = StrideItem { stride: 10, task: task(2) };
    assert_eq!(a.cmp(&b), Ordering::Less);
    assert_eq!(a.partial_cmp(&b), Some(Ordering::Less));
    assert!(a.eq(&c));
    assert!(!a.eq(&b));
}

#[test]
fn stride_empty_fetch_is_none() {
    let mut s = StrideScheduler::new();
    assert!(s.fetch().is_none());
}

#[test]
fn stride_lone_task_comes_back() {
    let mut s = StrideScheduler::new();
    s.add(task(9));
    let t = s.fetch().unwrap();
    assert_eq!(t.tid, 9);
    assert!(!t.stride_info.is_new_task);
    assert_eq!(t.stride_info.saved_stride, usize::MAX / 16);
    assert!(s.fetch().is_none());
}

#[test]
fn stride_fetch_picks_lagging_stride() {
    let mut s = StrideScheduler::new();
    let mut a = task(1);
    a.stride_info.is_new_task = false;
    a.stride_info.saved_stride = 300;
    let mut b = task(2);
    b.stride_info.is_new_task = false;
    b.stride_info.saved_stride = 100;
    let mut c = task(3);
    c.stride_info.is_new_task = false;
    c.stride_info.saved_stride = 200;
    s.add(a);
    s.add(b);
    s.add(c);
    assert_eq!(s.fetch().unwrap().tid, 2);
    assert_eq!(s.fetch().unwrap().tid, 3);
    assert_eq!(s.fetch().unwrap().tid, 1);
}

#[test]
fn stride_new_task_starts_at_last_fetched_stride() {
    let mut s = StrideScheduler::new();
    let mut a = task(1);
    a.stride_info.is_new_task = false;
    a.stride_info.saved_stride = 500;
    s.add(a);
    let a = s.fetch().unwrap();
    assert_eq!(a.stride_info.saved_stride, 500 + usize::MAX / 16);
    // A new task is queued at 500, the stride fetched last, and runs before a
    // task queued at 600.
    let mut late = task(2);
    late.stride_info.is_new_task = false;
    late.stride_info.saved_stride = 600;
    s.add(late);
    s.add(task(3));
    assert_eq!(s.fetch().unwrap().tid, 3);
    assert_eq!(s.fetch().unwrap().tid, 2);
}

#[test]
fn stride_higher_priority_runs_more_often() {
    let mut s = StrideScheduler::new();
    let mut fast = task(1);
    fast.stride_info.set_priority(8);
    let mut slow = task(2);
    slow.stride_info.set_priority(2);
    s.add(fast);
    s.add(slow);
    let mut fast_runs = 0;
    let mut slow_runs = 0;
    for _ in 0..40 {
        let t = s.fetch().unwrap();
        if t.tid == 1 {
            fast_runs += 1;
        } else {
            slow_runs += 1;
        }
        s.add(t);
    }
    assert!(fast_runs >= 3 * slow_runs);
}

#[test]
fn stride_saved_stride_wraps() {
    let mut s = StrideScheduler::new();
    let mut a = task(1);
    a.stride_info.is_new_task = false;
    a.stride_info.saved_stride = usize::MAX - 1;
    a.stride_info.pass = 5;
    s.add(a);
    let a = s.fetch().unwrap();
    assert_eq!(a.stride_info.saved_stride, 3);
}

#[test]
fn stride_fetch_across_wraparound() {
    let mut s = StrideScheduler::new();
    let mut ahead = task(1);
    ahead.stride_info.is_new_task = false;
    ahead.stride_info.saved_stride = 5;
    let mut behind = task(2);
    behind.stride_info.is_new_task = false;
    behind.stride_info.saved_stride = usize::MAX - 5;
    s.add(ahead);
    s.add(behind);
    assert_eq!(s.fetch().unwrap().tid, 2);
    assert_eq!(s.fetch().unwrap().tid, 1);
}

#[test]
fn fifo_keeps_order() {
    let mut f = FifoScheduler::new();
    assert!(f.fetch().is_none());
    f.add(task(1));
    f.add(task(2));
    f.add(task(3));
    assert_eq!(f.fetch().unwrap().tid, 1);
    f.add(task(4));
    assert_eq!(f.fetch().unwrap().tid, 2);
    assert_eq!(f.fetch().unwrap().tid, 3);
    assert_eq!(f.fetch().unwrap().tid, 4);
    assert!(f.fetch().is_none());
}

#[test]
fn stride_each_run_advances_by_pass() {
    let mut s = StrideScheduler::new();
    let mut t = task(1);
    t.stride_info.set_priority(4);
    let pass = t.stride_info.pass;
    s.add(t);
    let mut expected = 0usize;
    for _ in 0..5 {
        let t = s.fetch().unwrap();
        expected = expected.wrapping_add(pass);
        assert_eq!(t.stride_info.saved_stride, expected);
        assert!(!t.stride_info.is_new_task);
        s.add(t);
    }
}
