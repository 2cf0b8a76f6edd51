//! The wrapping order on strides that the stride scheduler's ready queue uses.
//!
//! Strides grow without bound and wrap around `usize::MAX`. Two strides are
//! compared by their wrapping distance: a stride that lies less than half the
//! range ahead of another is "less" than it, so that a max-first queue hands
//! out the stride that lags behind.

use core::cmp::Ordering;
use vstd::prelude::*;

verus! {

/// The wrapping distance from `b` forward to `a`.
pub open spec fn stride_distance(a: usize, b: usize) -> usize {
    vstd::wrapping::usize_specs::wrapping_sub(a, b)
}

/// How the ready queue orders the stride `a` against the stride `b`: `Equal`
/// when they are the same, `Less` when `a` lies ahead of `b` by at most half
/// the range, `Greater` otherwise.
pub open spec fn stride_order(a: usize, b: usize) -> Ordering {
    let distance = stride_distance(a, b);
    if distance == 0 {
        Ordering::Equal
    } else if distance <= usize::MAX / 2 {
        Ordering::Less
    } else {
        Ordering::Greater
    }
}

/// The order with its two sides swapped.
pub open spec fn reversed(o: Ordering) -> Ordering {
    match o {
        Ordering::Less => Ordering::Greater,
        Ordering::Equal => Ordering::Equal,
        Ordering::Greater => Ordering::Less,
    }
}

/// How far `s` lies ahead of `base`, counted forward with wrapping.
pub open spec fn offset_from(base: usize, s: usize) -> int {
    stride_distance(s, base) as int
}

/// `s` lies in the half-range window that starts at `base`.
pub open spec fn in_window(base: usize, s: usize) -> bool {
    offset_from(base, s) <= usize::MAX / 2
}

/// Compares two strides as the ready queue does.
pub fn compare_strides(a: usize, b: usize) -> (r: Ordering)
    ensures
        r == stride_order(a, b),
{
    let distance = a.wrapping_sub(b);
    if distance == 0 {
        Ordering::Equal
    } else if distance <= usize::MAX / 2 {
        Ordering::Less
    } else {
        Ordering::Greater
    }
}

/// The queue's order puts stride `a` strictly above stride `b`: `b` lies
/// ahead of `a` by at most half the range.
pub open spec fn ranks_above(a: usize, b: usize) -> bool {
    stride_order(a, b) == Ordering::Greater
}

/// Whether the queue's order puts stride `a` strictly above stride `b`.
pub fn stride_ranks_above(a: usize, b: usize) -> (r: bool)
    ensures
        r == ranks_above(a, b),
{
    match compare_strides(a, b) {
        Ordering::Greater => true,
        _ => false,
    }
}

/// Two strides compare `Equal` exactly when they are the same stride.
pub proof fn lemma_stride_order_equal(a: usize, b: usize)
    ensures
        stride_order(a, b) == Ordering::Equal <==> a == b,
{
}

/// Swapping the two strides reverses the order, except for two strides that
/// lie exactly half the range apart (wrapping distance `usize::MAX / 2 + 1`),
/// which each compare `Greater` than the other.
pub proof fn lemma_stride_order_antisymmetric(a: usize, b: usize)
    ensures
        stride_distance(a, b) != usize::MAX / 2 + 1 ==> stride_order(b, a) == reversed(
            stride_order(a, b),
        ),
        stride_distance(a, b) == usize::MAX / 2 + 1 ==> stride_order(a, b) == Ordering::Greater
            && stride_order(b, a) == Ordering::Greater,
{
}

/// Within a half-range window the wrapping order is the plain order of the
/// offsets from the window's start, reversed: the stride that lags behind is
/// the greater one.
pub proof fn lemma_stride_order_in_window(base: usize, a: usize, b: usize)
    requires
        in_window(base, a),
        in_window(base, b),
    ensures
        stride_order(a, b) == Ordering::Less <==> offset_from(base, a) > offset_from(base, b),
        stride_order(a, b) == Ordering::Equal <==> offset_from(base, a) == offset_from(base, b),
        stride_order(a, b) == Ordering::Greater <==> offset_from(base, a) < offset_from(base, b),
{
}

} // verus!
