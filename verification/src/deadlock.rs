//! Deadlock detection over the resources of one process.
//!
//! Tasks are numbered `0..n`, resources `0..m`. `available[j]` is how many
//! units of resource `j` are free, `allocation[t][j]` how many task `t`
//! holds, and `need[t][j]` how many more it waits for; only the first `n`
//! rows and first `m` columns count, except that a task holds nothing only
//! when its whole allocation row is zero.
//!
//! Two equivalent readings of "task `t` can finish" are stated:
//! - `can_finish`: `t` belongs to every *closed* set of tasks, one that holds
//!   every task that holds nothing and every task whose need is covered by
//!   what is free plus what the tasks of the set hold;
//! - `finishable`: `t` holds nothing, or some order of distinct tasks ending
//!   with `t` lets each task in turn be served by what is free plus what the
//!   tasks before it hold.
//! The detection algorithm reports a deadlock for a task exactly when it
//! cannot finish, in either reading.

use vstd::prelude::*;

verus! {

/// Units of resource `j` that the tasks of `s` among the first `k` tasks hold.
pub open spec fn held_by(allocation: Seq<Seq<usize>>, s: Set<int>, j: int, k: int) -> int
    decreases k,
{
    if k <= 0 {
        0
    } else {
        held_by(allocation, s, j, k - 1) + if s.contains(k - 1) {
            allocation[k - 1][j] as int
        } else {
            0
        }
    }
}

/// Units of resource `j` that the first `k` tasks hold altogether.
pub open spec fn held_in_total(allocation: Seq<Seq<usize>>, j: int, k: int) -> int
    decreases k,
{
    if k <= 0 {
        0
    } else {
        held_in_total(allocation, j, k - 1) + allocation[k - 1][j] as int
    }
}

/// Units of resource `j` there would be once every task of `s` among the
/// first `n` has finished and given back what it holds.
pub open spec fn work_after(
    available: Seq<usize>,
    allocation: Seq<Seq<usize>>,
    n: int,
    s: Set<int>,
    j: int,
) -> int {
    available[j] + held_by(allocation, s, j, n)
}

/// Units of resource `j` that exist: free ones and those the first `n` tasks
/// hold.
pub open spec fn column_total(
    available: Seq<usize>,
    allocation: Seq<Seq<usize>>,
    n: int,
    j: int,
) -> int {
    available[j] + held_in_total(allocation, j, n)
}

/// No count of the first `m` resources overflows `usize` when every unit
/// comes back.
pub open spec fn totals_fit(available: Seq<usize>, allocation: Seq<Seq<usize>>, n: int, m: int) -> bool {
    forall|j: int| 0 <= j < m ==> #[trigger] column_total(available, allocation, n, j) <= usize::MAX
}

/// Task `t` holds no unit of anything: its whole allocation row is zero.
pub open spec fn holds_nothing(allocation: Seq<Seq<usize>>, t: int) -> bool {
    forall|j: int| 0 <= j < allocation[t].len() ==> #[trigger] allocation[t][j] == 0
}

/// What task `t` waits for is covered once the tasks of `s` have finished.
pub open spec fn need_covered(
    available: Seq<usize>,
    allocation: Seq<Seq<usize>>,
    need: Seq<Seq<usize>>,
    n: int,
    m: int,
    s: Set<int>,
    t: int,
) -> bool {
    forall|j: int| 0 <= j < m ==> #[trigger] need[t][j] <= work_after(available, allocation, n, s, j)
}

/// `s` holds every task that holds nothing and every task whose need the
/// tasks of `s` cover by finishing.
pub open spec fn closed_set(
    available: Seq<usize>,
    allocation: Seq<Seq<usize>>,
    need: Seq<Seq<usize>>,
    n: int,
    m: int,
    s: Set<int>,
) -> bool {
    forall|t: int|
        0 <= t < n && (holds_nothing(allocation, t) || need_covered(
            available,
            allocation,
            need,
            n,
            m,
            s,
            t,
        )) ==> #[trigger] s.contains(t)
}

/// Task `t` belongs to every closed set.
pub open spec fn can_finish(
    available: Seq<usize>,
    allocation: Seq<Seq<usize>>,
    need: Seq<Seq<usize>>,
    n: int,
    m: int,
    t: int,
) -> bool {
    forall|s: Set<int>| #[trigger] closed_set(available, allocation, need, n, m, s) ==> s.contains(t)
}

/// Units of resource `j` that the first `k` tasks of `order` hold.
pub open spec fn held_along(allocation: Seq<Seq<usize>>, order: Seq<int>, j: int, k: int) -> int
    decreases k,
{
    if k <= 0 {
        0
    } else {
        held_along(allocation, order, j, k - 1) + allocation[order[k - 1]][j] as int
    }
}

/// `order` lists distinct tasks among the first `n`, each of which can be
/// served from what is free plus what the tasks before it hold.
pub open spec fn safe_order(
    available: Seq<usize>,
    allocation: Seq<Seq<usize>>,
    need: Seq<Seq<usize>>,
    n: int,
    m: int,
    order: Seq<int>,
) -> bool {
    &&& order.no_duplicates()
    &&& forall|p: int| 0 <= p < order.len() ==> 0 <= #[trigger] order[p] < n
    &&& forall|p: int, j: int|
        0 <= p < order.len() && 0 <= j < m ==> #[trigger] need[order[p]][j] <= available[j]
            + held_along(allocation, order, j, p)
}

/// Task `t` holds nothing, or a safe order ends with it.
pub open spec fn finishable(
    available: Seq<usize>,
    allocation: Seq<Seq<usize>>,
    need: Seq<Seq<usize>>,
    n: int,
    m: int,
    t: int,
) -> bool {
    holds_nothing(allocation, t) || exists|order: Seq<int>|
        #[trigger] safe_order(available, allocation, need, n, m, order) && order.len() > 0
            && order.last() == t
}

/// `available` has at least `m` entries and the matrices at least `n` rows
/// of at least `m` entries.
pub open spec fn covers_shape(
    available: Seq<usize>,
    allocation: Seq<Seq<usize>>,
    need: Seq<Seq<usize>>,
    n: int,
    m: int,
) -> bool {
    &&& 0 <= m <= available.len()
    &&& 0 <= n <= allocation.len()
    &&& n <= need.len()
    &&& forall|t: int| 0 <= t < n ==> (#[trigger] allocation[t]).len() >= m
    &&& forall|t: int| 0 <= t < n ==> (#[trigger] need[t]).len() >= m
}

/// `pi` lists each of `0..n` exactly once.
pub open spec fn is_permutation(pi: Seq<int>, n: int) -> bool {
    &&& pi.len() == n
    &&& pi.no_duplicates()
    &&& forall|i: int| 0 <= i < n ==> 0 <= #[trigger] pi[i] < n
    &&& forall|y: int| 0 <= y < n ==> pi.contains(y)
}

// ---------------------------------------------------------------------------
// Sums.

proof fn lemma_held_by_monotone(allocation: Seq<Seq<usize>>, s: Set<int>, c: Set<int>, j: int, k: int)
    requires
        s.subset_of(c),
    ensures
        held_by(allocation, s, j, k) <= held_by(allocation, c, j, k),
    decreases k,
{
    if k > 0 {
        lemma_held_by_monotone(allocation, s, c, j, k - 1);
    }
}

proof fn lemma_held_by_at_most_total(allocation: Seq<Seq<usize>>, s: Set<int>, j: int, k: int)
    ensures
        held_by(allocation, s, j, k) <= held_in_total(allocation, j, k),
    decreases k,
{
    if k > 0 {
        lemma_held_by_at_most_total(allocation, s, j, k - 1);
    }
}

proof fn lemma_held_by_insert(allocation: Seq<Seq<usize>>, s: Set<int>, i: int, j: int, k: int)
    requires
        0 <= i < k,
        !s.contains(i),
    ensures
        held_by(allocation, s.insert(i), j, k) == held_by(allocation, s, j, k) + allocation[i][j],
    decreases k,
{
    if k - 1 == i {
        lemma_held_by_unchanged(allocation, s, s.insert(i), j, k - 1);
    } else {
        lemma_held_by_insert(allocation, s, i, j, k - 1);
    }
}

proof fn lemma_held_by_unchanged(allocation: Seq<Seq<usize>>, s: Set<int>, c: Set<int>, j: int, k: int)
    requires
        forall|t: int| 0 <= t < k ==> (s.contains(t) <==> c.contains(t)),
    ensures
        held_by(allocation, s, j, k) == held_by(allocation, c, j, k),
    decreases k,
{
    if k > 0 {
        lemma_held_by_unchanged(allocation, s, c, j, k - 1);
    }
}

proof fn lemma_held_by_nothing(allocation: Seq<Seq<usize>>, s: Set<int>, j: int, k: int)
    requires
        forall|t: int| 0 <= t < k && s.contains(t) ==> allocation[t][j] == 0,
    ensures
        held_by(allocation, s, j, k) == 0,
    decreases k,
{
    if k > 0 {
        lemma_held_by_nothing(allocation, s, j, k - 1);
    }
}

/// Sums along two orders agree when their first `k` tasks have the same rows.
proof fn lemma_held_along_same_rows(
    alloc_a: Seq<Seq<usize>>,
    order_a: Seq<int>,
    alloc_b: Seq<Seq<usize>>,
    order_b: Seq<int>,
    j: int,
    k: int,
)
    requires
        forall|q: int| 0 <= q < k ==> alloc_a[order_a[q]] == alloc_b[order_b[q]],
    ensures
        held_along(alloc_a, order_a, j, k) == held_along(alloc_b, order_b, j, k),
    decreases k,
{
    if k > 0 {
        lemma_held_along_same_rows(alloc_a, order_a, alloc_b, order_b, j, k - 1);
        assert(alloc_a[order_a[k - 1]] == alloc_b[order_b[k - 1]]);
    }
}

/// The tasks among the first `p` of `order`.
spec fn prefix_set(order: Seq<int>, p: int) -> Set<int> {
    order.take(p).to_set()
}

proof fn lemma_held_along_is_held_by(allocation: Seq<Seq<usize>>, order: Seq<int>, j: int, p: int, n: int)
    requires
        order.no_duplicates(),
        forall|q: int| 0 <= q < order.len() ==> 0 <= #[trigger] order[q] < n,
        0 <= p <= order.len(),
    ensures
        held_along(allocation, order, j, p) == held_by(allocation, prefix_set(order, p), j, n),
    decreases p,
{
    if p == 0 {
        lemma_held_by_nothing(allocation, prefix_set(order, 0), j, n);
    } else {
        lemma_held_along_is_held_by(allocation, order, j, p - 1, n);
        let before = prefix_set(order, p - 1);
        let x = order[p - 1];
        let pre = order.take(p - 1);
        let cur = order.take(p);
        assert(cur =~= pre.push(x));
        assert(prefix_set(order, p) =~= before.insert(x)) by {
            assert forall|y: int| cur.to_set().contains(y) <==> pre.to_set().insert(x).contains(y) by {
                if cur.contains(y) {
                    let q = choose|q: int| 0 <= q < cur.len() && #[trigger] cur[q] == y;
                    if q < pre.len() {
                        assert(pre[q] == y);
                    }
                }
                if pre.contains(y) {
                    let q = choose|q: int| 0 <= q < pre.len() && #[trigger] pre[q] == y;
                    assert(cur[q] == y);
                }
                if y == x {
                    assert(cur[p - 1] == y);
                }
            }
        }
        assert(!before.contains(x)) by {
            if pre.contains(x) {
                let q = choose|q: int| 0 <= q < pre.len() && #[trigger] pre[q] == x;
                assert(order[q] == order[p - 1]);
            }
        }
        lemma_held_by_insert(allocation, before, x, j, n);
    }
}

/// In any closed set lie all tasks of a safe order.
proof fn lemma_safe_order_in_closed(
    available: Seq<usize>,
    allocation: Seq<Seq<usize>>,
    need: Seq<Seq<usize>>,
    n: int,
    m: int,
    order: Seq<int>,
    c: Set<int>,
    p: int,
)
    requires
        safe_order(available, allocation, need, n, m, order),
        closed_set(available, allocation, need, n, m, c),
        0 <= p <= order.len(),
    ensures
        forall|q: int| 0 <= q < p ==> c.contains(#[trigger] order[q]),
    decreases p,
{
    if p > 0 {
        lemma_safe_order_in_closed(available, allocation, need, n, m, order, c, p - 1);
        let x = order[p - 1];
        assert(prefix_set(order, p - 1).subset_of(c)) by {
            let pre = order.take(p - 1);
            assert forall|y: int| prefix_set(order, p - 1).contains(y) implies c.contains(y) by {
                let q = choose|q: int| 0 <= q < pre.len() && #[trigger] pre[q] == y;
                assert(order[q] == y);
            }
        }
        assert forall|j: int| 0 <= j < m implies #[trigger] need[x][j] <= work_after(
            available,
            allocation,
            n,
            c,
            j,
        ) by {
            lemma_held_along_is_held_by(allocation, order, j, p - 1, n);
            lemma_held_by_monotone(allocation, prefix_set(order, p - 1), c, j, n);
            assert(need[order[p - 1]][j] <= available[j] + held_along(allocation, order, j, p - 1));
        }
        assert(0 <= x < n);
        assert(need_covered(available, allocation, need, n, m, c, x));
    }
}

/// Both readings of "can finish" agree one way: a finishable task belongs to
/// every closed set.
pub proof fn lemma_finishable_can_finish(
    available: Seq<usize>,
    allocation: Seq<Seq<usize>>,
    need: Seq<Seq<usize>>,
    n: int,
    m: int,
    t: int,
)
    requires
        0 <= t < n,
        finishable(available, allocation, need, n, m, t),
    ensures
        can_finish(available, allocation, need, n, m, t),
{
    assert forall|c: Set<int>| #[trigger] closed_set(available, allocation, need, n, m, c) implies c.contains(
        t,
    ) by {
        if !holds_nothing(allocation, t) {
            let order = choose|order: Seq<int>|
                #[trigger] safe_order(available, allocation, need, n, m, order) && order.len() > 0
                    && order.last() == t;
            lemma_safe_order_in_closed(
                available,
                allocation,
                need,
                n,
                m,
                order,
                c,
                order.len() as int,
            );
            assert(c.contains(order[order.len() - 1]));
        }
    }
}

/// A safe order carries over to another numbering of the same rows.
proof fn lemma_safe_order_transfer(
    available: Seq<usize>,
    alloc_a: Seq<Seq<usize>>,
    need_a: Seq<Seq<usize>>,
    order_a: Seq<int>,
    alloc_b: Seq<Seq<usize>>,
    need_b: Seq<Seq<usize>>,
    order_b: Seq<int>,
    n: int,
    m: int,
)
    requires
        safe_order(available, alloc_a, need_a, n, m, order_a),
        order_b.len() == order_a.len(),
        order_b.no_duplicates(),
        forall|q: int| 0 <= q < order_b.len() ==> 0 <= #[trigger] order_b[q] < n,
        forall|q: int|
            0 <= q < order_b.len() ==> alloc_b[#[trigger] order_b[q]] == alloc_a[order_a[q]]
                && need_b[order_b[q]] == need_a[order_a[q]],
    ensures
        safe_order(available, alloc_b, need_b, n, m, order_b),
{
    assert forall|p: int, j: int| 0 <= p < order_b.len() && 0 <= j < m implies #[trigger] need_b[order_b[p]][j]
        <= available[j] + held_along(alloc_b, order_b, j, p) by {
        lemma_held_along_same_rows(alloc_a, order_a, alloc_b, order_b, j, p);
        assert(need_a[order_a[p]][j] <= available[j] + held_along(alloc_a, order_a, j, p));
        assert(need_b[order_b[p]] == need_a[order_a[p]]);
    }
}

// ---------------------------------------------------------------------------
// Laws.

/// A group of tasks that are stuck together cannot finish: none of them
/// holds nothing, and each needs some resource `blocker(b)` of which no unit
/// is free and no task outside the group holds a unit.
pub proof fn lemma_stuck_group_cannot_finish(
    available: Seq<usize>,
    allocation: Seq<Seq<usize>>,
    need: Seq<Seq<usize>>,
    n: int,
    m: int,
    group: Set<int>,
    blocker: spec_fn(int) -> int,
    t: int,
)
    requires
        group.contains(t),
        forall|b: int| #[trigger] group.contains(b) ==> 0 <= b < n && !holds_nothing(allocation, b),
        forall|b: int|
            #[trigger] group.contains(b) ==> 0 <= blocker(b) < m && need[b][blocker(b)] > 0
                && available[blocker(b)] == 0,
        forall|b: int, u: int|
            #[trigger] group.contains(b) && 0 <= u < n && !group.contains(u) ==> #[trigger] allocation[u][blocker(b)]
                == 0,
    ensures
        !can_finish(available, allocation, need, n, m, t),
{
    let outside = Set::new(|u: int| 0 <= u < n && !group.contains(u));
    assert forall|u: int|
        0 <= u < n && (holds_nothing(allocation, u) || need_covered(
            available,
            allocation,
            need,
            n,
            m,
            outside,
            u,
        )) implies #[trigger] outside.contains(u) by {
        if group.contains(u) {
            let j = blocker(u);
            assert forall|v: int| 0 <= v < n && outside.contains(v) implies allocation[v][j] == 0 by {
                assert(allocation[v][blocker(u)] == 0);
            }
            lemma_held_by_nothing(allocation, outside, j, n);
            assert(need[u][j] > work_after(available, allocation, n, outside, j));
        }
    }
    assert(closed_set(available, allocation, need, n, m, outside));
    assert(!outside.contains(t));
}

/// A task that holds nothing can always finish, whatever the others hold and
/// need.
pub proof fn lemma_idle_task_can_finish(
    available: Seq<usize>,
    allocation: Seq<Seq<usize>>,
    need: Seq<Seq<usize>>,
    n: int,
    m: int,
    t: int,
)
    requires
        0 <= t < n,
        holds_nothing(allocation, t),
    ensures
        can_finish(available, allocation, need, n, m, t),
{
}

/// A task whose need the free units already cover can always finish.
pub proof fn lemma_covered_need_can_finish(
    available: Seq<usize>,
    allocation: Seq<Seq<usize>>,
    need: Seq<Seq<usize>>,
    n: int,
    m: int,
    t: int,
)
    requires
        0 <= t < n,
        forall|j: int| 0 <= j < m ==> need[t][j] <= available[j],
    ensures
        can_finish(available, allocation, need, n, m, t),
{
    assert forall|c: Set<int>| #[trigger] closed_set(available, allocation, need, n, m, c) implies c.contains(
        t,
    ) by {
        assert forall|j: int| 0 <= j < m implies #[trigger] need[t][j] <= work_after(
            available,
            allocation,
            n,
            c,
            j,
        ) by {
            lemma_held_by_nothing(allocation, Set::<int>::empty(), j, n);
            lemma_held_by_monotone(allocation, Set::<int>::empty(), c, j, n);
        }
        assert(need_covered(available, allocation, need, n, m, c, t));
    }
}

/// More free units and smaller needs never take away a task's ability to
/// finish.
pub proof fn lemma_more_available_less_need_can_finish(
    fewer: Seq<usize>,
    more: Seq<usize>,
    allocation: Seq<Seq<usize>>,
    need: Seq<Seq<usize>>,
    smaller_need: Seq<Seq<usize>>,
    n: int,
    m: int,
    t: int,
)
    requires
        forall|j: int| 0 <= j < m ==> fewer[j] <= more[j],
        forall|u: int, j: int| 0 <= u < n && 0 <= j < m ==> smaller_need[u][j] <= need[u][j],
        can_finish(fewer, allocation, need, n, m, t),
    ensures
        can_finish(more, allocation, smaller_need, n, m, t),
{
    assert forall|c: Set<int>| #[trigger] closed_set(more, allocation, smaller_need, n, m, c) implies c.contains(
        t,
    ) by {
        assert forall|u: int|
            0 <= u < n && (holds_nothing(allocation, u) || need_covered(
                fewer,
                allocation,
                need,
                n,
                m,
                c,
                u,
            )) implies #[trigger] c.contains(u) by {
            if !holds_nothing(allocation, u) {
                assert forall|j: int| 0 <= j < m implies #[trigger] smaller_need[u][j] <= work_after(
                    more,
                    allocation,
                    n,
                    c,
                    j,
                ) by {
                    assert(need[u][j] <= work_after(fewer, allocation, n, c, j));
                }
                assert(need_covered(more, allocation, smaller_need, n, m, c, u));
            }
        }
        assert(closed_set(fewer, allocation, need, n, m, c));
    }
}

/// Renumbering the tasks does not change which of them can finish: when
/// task `i` becomes task `pi[i]`, task `pi[t]` is finishable after exactly
/// when task `t` was before.
pub proof fn lemma_renumbering_keeps_finishable(
    available: Seq<usize>,
    allocation: Seq<Seq<usize>>,
    need: Seq<Seq<usize>>,
    renumbered_allocation: Seq<Seq<usize>>,
    renumbered_need: Seq<Seq<usize>>,
    n: int,
    m: int,
    pi: Seq<int>,
    t: int,
)
    requires
        is_permutation(pi, n),
        0 <= t < n,
        forall|i: int|
            0 <= i < n ==> renumbered_allocation[#[trigger] pi[i]] == allocation[i]
                && renumbered_need[pi[i]] == need[i],
    ensures
        finishable(available, renumbered_allocation, renumbered_need, n, m, pi[t]) == finishable(
            available,
            allocation,
            need,
            n,
            m,
            t,
        ),
{
    assert(renumbered_allocation[pi[t]] == allocation[t]);
    if finishable(available, allocation, need, n, m, t) && !holds_nothing(allocation, t) {
        let order = choose|order: Seq<int>|
            #[trigger] safe_order(available, allocation, need, n, m, order) && order.len() > 0
                && order.last() == t;
        let moved = Seq::new(order.len(), |q: int| pi[order[q]]);
        assert(moved.no_duplicates()) by {
            assert forall|a: int, b: int| 0 <= a < moved.len() && 0 <= b < moved.len() && a != b implies moved[a]
                != moved[b] by {
                assert(order[a] != order[b]);
                assert(0 <= order[a] < n && 0 <= order[b] < n);
            }
        }
        assert forall|q: int| 0 <= q < moved.len() implies 0 <= #[trigger] moved[q] < n by {
            assert(0 <= order[q] < n);
        }
        assert forall|q: int| 0 <= q < moved.len() implies renumbered_allocation[#[trigger] moved[q]]
            == allocation[order[q]] && renumbered_need[moved[q]] == need[order[q]] by {
            assert(0 <= order[q] < n);
        }
        lemma_safe_order_transfer(
            available,
            allocation,
            need,
            order,
            renumbered_allocation,
            renumbered_need,
            moved,
            n,
            m,
        );
        assert(moved.last() == pi[t]);
    }
    if finishable(available, renumbered_allocation, renumbered_need, n, m, pi[t]) && !holds_nothing(
        renumbered_allocation,
        pi[t],
    ) {
        let order = choose|order: Seq<int>|
            #[trigger] safe_order(
                available,
                renumbered_allocation,
                renumbered_need,
                n,
                m,
                order,
            ) && order.len() > 0 && order.last() == pi[t];
        let back = Seq::new(order.len(), |q: int| choose|i: int| 0 <= i < n && pi[i] == order[q]);
        assert forall|q: int| 0 <= q < back.len() implies 0 <= #[trigger] back[q] < n && pi[back[q]]
            == order[q] by {
            assert(0 <= order[q] < n);
            assert(pi.contains(order[q]));
        }
        assert(back.no_duplicates()) by {
            assert forall|a: int, b: int| 0 <= a < back.len() && 0 <= b < back.len() && a != b implies back[a]
                != back[b] by {
                assert(pi[back[a]] == order[a]);
                assert(pi[back[b]] == order[b]);
            }
        }
        assert forall|q: int| 0 <= q < back.len() implies allocation[#[trigger] back[q]]
            == renumbered_allocation[order[q]] && need[back[q]] == renumbered_need[order[q]] by {
            assert(0 <= back[q] < n && pi[back[q]] == order[q]);
        }
        lemma_safe_order_transfer(
            available,
            renumbered_allocation,
            renumbered_need,
            order,
            allocation,
            need,
            back,
            n,
            m,
        );
        let last = back[back.len() - 1];
        assert(pi[last] == pi[t]);
        assert(last == t) by {
            assert(0 <= last < n);
        }
    }
}

// ---------------------------------------------------------------------------
// The algorithm.

/// The tasks marked finished.
spec fn marked(finish: Seq<bool>) -> Set<int> {
    Set::new(|t: int| 0 <= t < finish.len() && finish[t])
}

/// How many tasks are not marked finished.
spec fn unmarked_count(finish: Seq<bool>) -> nat
    decreases finish.len(),
{
    if finish.len() == 0 {
        0
    } else {
        unmarked_count(finish.drop_last()) + if finish.last() {
            0nat
        } else {
            1nat
        }
    }
}

proof fn lemma_unmarked_count_mark(finish: Seq<bool>, i: int)
    requires
        0 <= i < finish.len(),
        !finish[i],
    ensures
        unmarked_count(finish.update(i, true)) + 1 == unmarked_count(finish),
    decreases finish.len(),
{
    let f2 = finish.update(i, true);
    if i == finish.len() - 1 {
        assert(f2.drop_last() =~= finish.drop_last());
    } else {
        assert(f2.drop_last() =~= finish.drop_last().update(i, true));
        lemma_unmarked_count_mark(finish.drop_last(), i);
    }
}

/// Whether every entry of `row` is zero.
fn row_is_zero(row: &Vec<usize>) -> (r: bool)
    ensures
        r <==> forall|j: int| 0 <= j < row.len() ==> row[j] == 0,
{
    for j in 0..row.len()
        invariant
            forall|k: int| 0 <= k < j ==> row[k] == 0,
    {
        if row[j] != 0 {
            return false;
        }
    }
    true
}

/// Whether `need_row[j] <= work[j]` for every `j < m`.
fn need_fits(need_row: &Vec<usize>, work: &Vec<usize>, m: usize) -> (r: bool)
    requires
        need_row.len() >= m,
        work.len() >= m,
    ensures
        r <==> forall|j: int| 0 <= j < m ==> need_row[j] <= work[j],
{
    for j in 0..m
        invariant
            need_row.len() >= m,
            work.len() >= m,
            forall|k: int| 0 <= k < j ==> need_row[k] <= work[k],
    {
        if need_row[j] > work[j] {
            return false;
        }
    }
    true
}

/// The first unfinished task whose need `work` covers, if there is one.
fn find_runnable(
    finish: &Vec<bool>,
    need: &Vec<Vec<usize>>,
    work: &Vec<usize>,
    n: usize,
    m: usize,
) -> (r: Option<usize>)
    requires
        finish.len() == n,
        need.len() >= n,
        work.len() >= m,
        forall|t: int| 0 <= t < n ==> (#[trigger] need[t]).len() >= m,
    ensures
        match r {
            Some(i) => {
                &&& i < n
                &&& !finish[i as int]
                &&& forall|j: int| 0 <= j < m ==> need[i as int][j] <= work[j]
                &&& forall|t: int|
                    0 <= t < i ==> finish[t] || exists|j: int|
                        0 <= j < m && #[trigger] need[t][j] > work[j]
            },
            None => forall|t: int|
                0 <= t < n ==> finish[t] || exists|j: int|
                    0 <= j < m && #[trigger] need[t][j] > work[j],
        },
{
    for i in 0..n
        invariant
            finish.len() == n,
            need.len() >= n,
            work.len() >= m,
            forall|t: int| 0 <= t < n ==> (#[trigger] need[t]).len() >= m,
            forall|t: int|
                0 <= t < i ==> finish[t] || exists|j: int|
                    0 <= j < m && #[trigger] need[t][j] > work[j],
    {
        if !finish[i] && need_fits(&need[i], work, m) {
            return Some(i);
        }
    }
    None
}

/// Adds the first `m` entries of `row` to `work`.
fn give_back(work: &mut Vec<usize>, row: &Vec<usize>, m: usize)
    requires
        old(work).len() >= m,
        row.len() >= m,
        forall|j: int| 0 <= j < m ==> old(work)[j] + row[j] <= usize::MAX,
    ensures
        final(work).len() == old(work).len(),
        forall|j: int| 0 <= j < m ==> final(work)[j] == old(work)[j] + row[j],
        forall|j: int| m <= j < old(work).len() ==> final(work)[j] == old(work)[j],
{
    for j in 0..m
        invariant
            work.len() == old(work).len(),
            old(work).len() >= m,
            row.len() >= m,
            forall|k: int| 0 <= k < m ==> old(work)[k] + row[k] <= usize::MAX,
            forall|k: int| 0 <= k < j ==> work[k] == old(work)[k] + row[k],
            forall|k: int| j <= k < old(work).len() ==> work[k] == old(work)[k],
    {
        let v = work[j] + row[j];
        work.set(j, v);
    }
}

/// Runs the detection algorithm on the first `n` tasks and first `m`
/// resources: starting from the tasks that hold nothing, it marks finished,
/// one at a time, the first unfinished task whose need is covered by what is
/// free plus what the marked tasks would give back, until none is left;
/// `current_tid` is deadlocked when it is not marked at the end.
pub fn run_detection_algorithm(
    n: usize,
    m: usize,
    available: Vec<usize>,
    allocation: Vec<Vec<usize>>,
    need: Vec<Vec<usize>>,
    current_tid: usize,
) -> (deadlocked: bool)
    requires
        covers_shape(available@, allocation.deep_view(), need.deep_view(), n as int, m as int),
        totals_fit(available@, allocation.deep_view(), n as int, m as int),
        current_tid < n,
    ensures
        deadlocked == !can_finish(
            available@,
            allocation.deep_view(),
            need.deep_view(),
            n as int,
            m as int,
            current_tid as int,
        ),
        deadlocked == !finishable(
            available@,
            allocation.deep_view(),
            need.deep_view(),
            n as int,
            m as int,
            current_tid as int,
        ),
{
    let ghost avail = available@;
    let ghost alloc = allocation.deep_view();
    let ghost nd = need.deep_view();
    assert forall|t: int| 0 <= t < n implies alloc[t] == allocation@[t]@ && nd[t] == need@[t]@ by {
        assert(alloc[t] =~= allocation@[t]@);
        assert(nd[t] =~= need@[t]@);
    }

    let mut work = available;
    let mut finish: Vec<bool> = Vec::new();
    for i in 0..n
        invariant
            n <= allocation.len(),
            covers_shape(avail, alloc, nd, n as int, m as int),
            finish.len() == i,
            forall|t: int| 0 <= t < n ==> alloc[t] == allocation@[t]@,
            forall|t: int| 0 <= t < i ==> (finish[t] <==> holds_nothing(alloc, t)),
    {
        let z = row_is_zero(&allocation[i]);
        finish.push(z);
        proof {
            assert(alloc[i as int] == allocation@[i as int]@);
        }
    }
    let ghost mut order: Seq<int> = Seq::empty();
    proof {
        let s0 = marked(finish@);
        assert forall|j: int| 0 <= j < m implies work@[j] == work_after(avail, alloc, n as int, s0, j) by {
            assert forall|t: int| 0 <= t < n && s0.contains(t) implies alloc[t][j] == 0 by {
                assert(holds_nothing(alloc, t));
                assert(alloc[t].len() >= m);
            }
            lemma_held_by_nothing(alloc, s0, j, n as int);
        }
        assert forall|t: int| 0 <= t < n implies (#[trigger] need@[t]).len() >= m && allocation@[t].len() >= m by {
            assert(nd[t].len() >= m);
            assert(alloc[t].len() >= m);
        }
        assert forall|c: Set<int>| closed_set(avail, alloc, nd, n as int, m as int, c) implies s0.subset_of(c) by {
            assert forall|t: int| s0.contains(t) implies c.contains(t) by {
                assert(holds_nothing(alloc, t));
            }
        }
    }

    loop
        invariant
            covers_shape(avail, alloc, nd, n as int, m as int),
            totals_fit(avail, alloc, n as int, m as int),
            n <= allocation.len(),
            n <= need.len(),
            forall|t: int| 0 <= t < n ==> alloc[t] == allocation@[t]@ && nd[t] == need@[t]@,
            forall|t: int| 0 <= t < n ==> (#[trigger] need@[t]).len() >= m && allocation@[t].len() >= m,
            finish.len() == n,
            work.len() == avail.len(),
            forall|j: int| 0 <= j < m ==> work@[j] == work_after(avail, alloc, n as int, marked(finish@), j),
            forall|j: int| 0 <= j < m ==> work@[j] == avail[j] + held_along(alloc, order, j, order.len() as int),
            forall|t: int| 0 <= t < n ==> (finish@[t] <==> (holds_nothing(alloc, t) || order.contains(t))),
            safe_order(avail, alloc, nd, n as int, m as int, order),
            forall|c: Set<int>|
                closed_set(avail, alloc, nd, n as int, m as int, c) ==> #[trigger] marked(finish@).subset_of(c),
        ensures
            closed_set(avail, alloc, nd, n as int, m as int, marked(finish@)),
        decreases unmarked_count(finish@),
    {
        let found = find_runnable(&finish, &need, &work, n, m);
        match found {
            None => {
                proof {
                    let s = marked(finish@);
                    assert forall|t: int|
                        0 <= t < n && (holds_nothing(alloc, t) || need_covered(
                            avail,
                            alloc,
                            nd,
                            n as int,
                            m as int,
                            s,
                            t,
                        )) implies #[trigger] s.contains(t) by {
                        if !finish@[t] && need_covered(avail, alloc, nd, n as int, m as int, s, t) {
                            let j = choose|j: int| 0 <= j < m && #[trigger] need[t][j] > work[j];
                            assert(nd[t][j] <= work_after(avail, alloc, n as int, s, j));
                            assert(nd[t] == need@[t]@);
                        }
                    }
                }
                break ;
            },
            Some(i) => {
                let ghost s = marked(finish@);
                let ghost w0 = work@;
                let ghost old_order = order;
                proof {
                    assert(alloc[i as int] == allocation@[i as int]@);
                    assert(nd[i as int] == need@[i as int]@);
                    assert forall|j: int| 0 <= j < m implies work@[j] + allocation@[i as int]@[j]
                        <= usize::MAX by {
                        lemma_held_by_insert(alloc, s, i as int, j, n as int);
                        lemma_held_by_at_most_total(alloc, s.insert(i as int), j, n as int);
                        assert(column_total(avail, alloc, n as int, j) <= usize::MAX);
                    }
                }
                give_back(&mut work, &allocation[i], m);
                let ghost old_finish = finish@;
                finish.set(i, true);
                proof {
                    order = old_order.push(i as int);
                    let s2 = marked(finish@);
                    assert(s2 =~= s.insert(i as int));
                    assert(!old_order.contains(i as int));
                    assert forall|j: int| 0 <= j < m implies work@[j] == work_after(
                        avail,
                        alloc,
                        n as int,
                        s2,
                        j,
                    ) by {
                        lemma_held_by_insert(alloc, s, i as int, j, n as int);
                    }
                    assert forall|j: int| 0 <= j < m implies work@[j] == avail[j] + held_along(
                        alloc,
                        order,
                        j,
                        order.len() as int,
                    ) by {
                        lemma_held_along_same_rows(alloc, order, alloc, old_order, j, old_order.len() as int);
                    }
                    assert(safe_order(avail, alloc, nd, n as int, m as int, order)) by {
                        assert forall|p: int, j: int| 0 <= p < order.len() && 0 <= j < m implies #[trigger] nd[order[p]][j]
                            <= avail[j] + held_along(alloc, order, j, p) by {
                            lemma_held_along_same_rows(alloc, order, alloc, old_order, j, p);
                            if p == old_order.len() {
                                assert(need@[i as int]@[j] <= w0[j]);
                            } else {
                                assert(order[p] == old_order[p]);
                            }
                        }
                        assert forall|p: int| 0 <= p < order.len() implies 0 <= #[trigger] order[p] < n by {
                            if p < old_order.len() {
                                assert(order[p] == old_order[p]);
                            }
                        }
                    }
                    assert forall|t: int| 0 <= t < n implies (finish@[t] <==> (holds_nothing(alloc, t)
                        || order.contains(t))) by {
                        if old_order.contains(t) {
                            let q = choose|q: int| 0 <= q < old_order.len() && old_order[q] == t;
                            assert(order[q] == t);
                        }
                        if order.contains(t) && t != i {
                            let q = choose|q: int| 0 <= q < order.len() && order[q] == t;
                            assert(old_order[q] == t);
                        }
                        if t == i {
                            assert(order[old_order.len() as int] == t);
                        }
                    }
                    assert forall|c: Set<int>| closed_set(avail, alloc, nd, n as int, m as int, c) implies s2.subset_of(
                        c,
                    ) by {
                        assert(s.subset_of(c));
                        assert forall|j: int| 0 <= j < m implies nd[i as int][j] <= work_after(
                            avail,
                            alloc,
                            n as int,
                            c,
                            j,
                        ) by {
                            lemma_held_by_monotone(alloc, s, c, j, n as int);
                            assert(need@[i as int]@[j] <= w0[j]);
                        }
                        assert(need_covered(avail, alloc, nd, n as int, m as int, c, i as int));
                    }
                    lemma_unmarked_count_mark(old_finish, i as int);
                }
            },
        }
    }
    proof {
        let s = marked(finish@);
        let ct = current_tid as int;
        if finish@[ct] {
            assert forall|c: Set<int>| #[trigger] closed_set(avail, alloc, nd, n as int, m as int, c) implies c.contains(
                ct,
            ) by {
                assert(s.subset_of(c));
            }
            if !holds_nothing(alloc, ct) {
                let p = choose|p: int| 0 <= p < order.len() && order[p] == ct;
                let prefix = order.take(p + 1);
                assert(prefix.no_duplicates()) by {
                    assert forall|a: int, b: int| 0 <= a < prefix.len() && 0 <= b < prefix.len() && a != b implies prefix[a]
                        != prefix[b] by {
                        assert(order[a] != order[b]);
                    }
                }
                assert forall|q: int| 0 <= q < prefix.len() implies 0 <= #[trigger] prefix[q] < n by {
                    assert(prefix[q] == order[q]);
                }
                assert forall|q: int| 0 <= q < prefix.len() implies alloc[#[trigger] prefix[q]] == alloc[order[q]]
                    && nd[prefix[q]] == nd[order[q]] by {
                    assert(prefix[q] == order[q]);
                }
                assert forall|p2: int, j: int| 0 <= p2 < prefix.len() && 0 <= j < m implies #[trigger] nd[prefix[p2]][j]
                    <= avail[j] + held_along(alloc, prefix, j, p2) by {
                    lemma_held_along_same_rows(alloc, order, alloc, prefix, j, p2);
                    assert(prefix[p2] == order[p2]);
                }
                assert(safe_order(avail, alloc, nd, n as int, m as int, prefix));
                assert(prefix.last() == ct);
            }
        } else {
            assert(closed_set(avail, alloc, nd, n as int, m as int, s));
            assert(!s.contains(ct));
            if finishable(avail, alloc, nd, n as int, m as int, ct) {
                lemma_finishable_can_finish(avail, alloc, nd, n as int, m as int, ct);
            }
        }
    }
    !finish[current_tid]
}

} // verus!
