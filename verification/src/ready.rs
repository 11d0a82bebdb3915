//! Pools of processes: the order in which they are queued, who has arrived
//! at a given time, and sums over a pool.

use crate::policy::distinct_ids;
use crate::process::{Process, ProcessView, views};
use vstd::prelude::*;

verus! {

/// The sum of `f` over the processes of `s`.
pub open spec fn tally(s: Seq<ProcessView>, f: spec_fn(ProcessView) -> int) -> int
    decreases s.len(),
{
    if s.len() == 0 {
        0
    } else {
        tally(s.drop_last(), f) + f(s.last())
    }
}

/// The weight that counts a process by its burst time.
pub open spec fn by_burst() -> spec_fn(ProcessView) -> int {
    |p: ProcessView| p.burst_time
}

/// The weight that counts the processes called `id`.
pub open spec fn by_id(id: Seq<char>) -> spec_fn(ProcessView) -> int {
    |p: ProcessView|
        if p.id == id {
            1int
        } else {
            0int
        }
}

/// The CPU time that the processes of `s` still need, all together.
pub open spec fn work(s: Seq<ProcessView>) -> int {
    tally(s, by_burst())
}

/// How many processes of `s` are called `id`.
pub open spec fn occurrences(s: Seq<ProcessView>, id: Seq<char>) -> int {
    tally(s, by_id(id))
}

/// A process added at the end adds its weight to the sum.
pub proof fn lemma_tally_push(s: Seq<ProcessView>, x: ProcessView, f: spec_fn(ProcessView) -> int)
    ensures
        tally(s.push(x), f) == tally(s, f) + f(x),
{
    assert(s.push(x).drop_last() =~= s);
}

/// The sum over two pools put together is the sum of their sums.
pub proof fn lemma_tally_add(a: Seq<ProcessView>, b: Seq<ProcessView>, f: spec_fn(ProcessView) -> int)
    ensures
        tally(a + b, f) == tally(a, f) + tally(b, f),
    decreases b.len(),
{
    if b.len() == 0 {
        assert(a + b =~= a);
    } else {
        lemma_tally_add(a, b.drop_last(), f);
        assert((a + b).drop_last() =~= a + b.drop_last());
    }
}

/// A process taken out takes its weight out of the sum.
pub proof fn lemma_tally_remove(s: Seq<ProcessView>, i: int, f: spec_fn(ProcessView) -> int)
    requires
        0 <= i < s.len(),
    ensures
        tally(s.remove(i), f) == tally(s, f) - f(s[i]),
    decreases s.len(),
{
    if i == s.len() - 1 {
        assert(s.remove(i) =~= s.drop_last());
    } else {
        lemma_tally_remove(s.drop_last(), i, f);
        assert(s.remove(i).drop_last() =~= s.drop_last().remove(i));
        assert(s.remove(i).last() == s.last());
    }
}

/// A sum of weights that are never negative is at least the weight of each
/// of its members.
pub proof fn lemma_tally_bounds(s: Seq<ProcessView>, f: spec_fn(ProcessView) -> int)
    requires
        forall|i: int| 0 <= i < s.len() ==> f(#[trigger] s[i]) >= 0,
    ensures
        tally(s, f) >= 0,
        forall|i: int| 0 <= i < s.len() ==> tally(s, f) >= f(#[trigger] s[i]),
    decreases s.len(),
{
    if s.len() > 0 {
        let front = s.drop_last();
        assert forall|i: int| 0 <= i < front.len() implies f(#[trigger] front[i]) >= 0 by {
            assert(front[i] == s[i]);
        }
        lemma_tally_bounds(front, f);
        assert forall|i: int| 0 <= i < s.len() implies tally(s, f) >= f(#[trigger] s[i]) by {
            if i < s.len() - 1 {
                assert(front[i] == s[i]);
            }
        }
    }
}

/// A sum of weights that are all zero is zero.
pub proof fn lemma_tally_zero(s: Seq<ProcessView>, f: spec_fn(ProcessView) -> int)
    requires
        forall|i: int| 0 <= i < s.len() ==> f(#[trigger] s[i]) == 0,
    ensures
        tally(s, f) == 0,
    decreases s.len(),
{
    if s.len() > 0 {
        let front = s.drop_last();
        assert forall|i: int| 0 <= i < front.len() implies f(#[trigger] front[i]) == 0 by {
            assert(front[i] == s[i]);
        }
        lemma_tally_zero(front, f);
    }
}

/// A process of the pool is counted under its own id.
pub proof fn lemma_member_occurs(s: Seq<ProcessView>, i: int)
    requires
        0 <= i < s.len(),
    ensures
        occurrences(s, s[i].id) >= 1,
{
    lemma_tally_bounds(s, by_id(s[i].id));
}

/// Where no two processes share an id, no id is counted twice.
pub proof fn lemma_distinct_occurs_once(s: Seq<ProcessView>, id: Seq<char>)
    requires
        distinct_ids(s),
    ensures
        0 <= occurrences(s, id) <= 1,
    decreases s.len(),
{
    if s.len() > 0 {
        let front = s.drop_last();
        assert forall|i: int, j: int| 0 <= i < j < front.len() implies (#[trigger] front[i]).id != (
        #[trigger] front[j]).id by {
            assert(front[i] == s[i] && front[j] == s[j]);
        }
        lemma_distinct_occurs_once(front, id);
        if s.last().id == id {
            assert forall|i: int| 0 <= i < front.len() implies by_id(id)(#[trigger] front[i]) == 0 by {
                assert(front[i] == s[i]);
                assert(s[i].id != s[s.len() - 1].id);
            }
            lemma_tally_zero(front, by_id(id));
        }
    }
}

/// The processes of `pending` that have arrived by time `t`, in their order.
pub open spec fn arrived(pending: Seq<ProcessView>, t: int) -> Seq<ProcessView>
    decreases pending.len(),
{
    if pending.len() == 0 {
        Seq::empty()
    } else if pending.last().arrival_time <= t {
        arrived(pending.drop_last(), t).push(pending.last())
    } else {
        arrived(pending.drop_last(), t)
    }
}

/// The processes of `pending` that arrive after time `t`, in their order.
pub open spec fn waiting(pending: Seq<ProcessView>, t: int) -> Seq<ProcessView>
    decreases pending.len(),
{
    if pending.len() == 0 {
        Seq::empty()
    } else if pending.last().arrival_time <= t {
        waiting(pending.drop_last(), t)
    } else {
        waiting(pending.drop_last(), t).push(pending.last())
    }
}

/// The earliest arrival time among `pending`; 0 for an empty pool.
pub open spec fn earliest_arrival(pending: Seq<ProcessView>) -> int
    decreases pending.len(),
{
    if pending.len() == 0 {
        0
    } else if pending.len() == 1 {
        pending[0].arrival_time
    } else {
        let e = earliest_arrival(pending.drop_last());
        if pending.last().arrival_time < e {
            pending.last().arrival_time
        } else {
            e
        }
    }
}

/// Splitting a pool by arrival shares out its sum.
pub proof fn lemma_tally_split(pending: Seq<ProcessView>, t: int, f: spec_fn(ProcessView) -> int)
    ensures
        tally(arrived(pending, t), f) + tally(waiting(pending, t), f) == tally(pending, f),
    decreases pending.len(),
{
    if pending.len() > 0 {
        lemma_tally_split(pending.drop_last(), t, f);
        if pending.last().arrival_time <= t {
            lemma_tally_push(arrived(pending.drop_last(), t), pending.last(), f);
        } else {
            lemma_tally_push(waiting(pending.drop_last(), t), pending.last(), f);
        }
    }
}

/// Each process that has arrived by `t` is one of the pool and arrives no
/// later than `t`; each that waits is one of the pool and arrives later.
pub proof fn lemma_split_members(pending: Seq<ProcessView>, t: int)
    ensures
        forall|i: int|
            0 <= i < arrived(pending, t).len() ==> pending.contains(#[trigger] arrived(pending, t)[i])
                && arrived(pending, t)[i].arrival_time <= t,
        forall|i: int|
            0 <= i < waiting(pending, t).len() ==> pending.contains(#[trigger] waiting(pending, t)[i])
                && waiting(pending, t)[i].arrival_time > t,
    decreases pending.len(),
{
    if pending.len() > 0 {
        let front = pending.drop_last();
        lemma_split_members(front, t);
        assert(pending.last() == pending[pending.len() - 1]);
        assert forall|i: int| 0 <= i < arrived(pending, t).len() implies pending.contains(
            #[trigger] arrived(pending, t)[i],
        ) && arrived(pending, t)[i].arrival_time <= t by {
            if i < arrived(front, t).len() {
                let x = arrived(front, t)[i];
                assert(front.contains(x));
                let j = choose|j: int| 0 <= j < front.len() && front[j] == x;
                assert(pending[j] == x);
            }
        }
        assert forall|i: int| 0 <= i < waiting(pending, t).len() implies pending.contains(
            #[trigger] waiting(pending, t)[i],
        ) && waiting(pending, t)[i].arrival_time > t by {
            if i < waiting(front, t).len() {
                let x = waiting(front, t)[i];
                assert(front.contains(x));
                let j = choose|j: int| 0 <= j < front.len() && front[j] == x;
                assert(pending[j] == x);
            }
        }
    }
}

/// The earliest arrival is the arrival of some process of the pool, and no
/// process arrives before it.
pub proof fn lemma_earliest_arrival(pending: Seq<ProcessView>)
    requires
        pending.len() > 0,
    ensures
        exists|i: int| 0 <= i < pending.len() && (#[trigger] pending[i]).arrival_time == earliest_arrival(pending),
        forall|i: int| 0 <= i < pending.len() ==> (#[trigger] pending[i]).arrival_time >= earliest_arrival(pending),
    decreases pending.len(),
{
    if pending.len() == 1 {
        assert(pending[0].arrival_time == earliest_arrival(pending));
    } else {
        let front = pending.drop_last();
        lemma_earliest_arrival(front);
        let i = choose|i: int| 0 <= i < front.len() && (#[trigger] front[i]).arrival_time == earliest_arrival(front);
        assert(front[i] == pending[i]);
        if pending.last().arrival_time < earliest_arrival(front) {
            assert(pending[pending.len() - 1].arrival_time == earliest_arrival(pending));
        } else {
            assert(pending[i].arrival_time == earliest_arrival(pending));
        }
        assert forall|k: int| 0 <= k < pending.len() implies (#[trigger] pending[k]).arrival_time
            >= earliest_arrival(pending) by {
            if k < front.len() {
                assert(front[k] == pending[k]);
            }
        }
    }
}

/// Once a process of the pool has arrived, the arrived part is not empty.
pub proof fn lemma_arrived_nonempty(pending: Seq<ProcessView>, t: int, i: int)
    requires
        0 <= i < pending.len(),
        pending[i].arrival_time <= t,
    ensures
        arrived(pending, t).len() > 0,
    decreases pending.len(),
{
    if i < pending.len() - 1 {
        lemma_arrived_nonempty(pending.drop_last(), t, i);
    }
}

/// Whether `a` must be queued before `b`: it arrives earlier, or, where
/// priority counts, at the same time with a lower priority value.
pub open spec fn precedes(a: ProcessView, b: ProcessView, by_priority: bool) -> bool {
    a.arrival_time < b.arrival_time || (by_priority && a.arrival_time == b.arrival_time && a.priority
        < b.priority)
}

/// `s` with `p` put in behind every process that it need not precede.
pub open spec fn insert_ordered(s: Seq<ProcessView>, p: ProcessView, by_priority: bool) -> Seq<ProcessView>
    decreases s.len(),
{
    if s.len() > 0 && precedes(p, s.last(), by_priority) {
        insert_ordered(s.drop_last(), p, by_priority).push(s.last())
    } else {
        s.push(p)
    }
}

/// The processes in the order in which they are queued: by arrival time,
/// then (where it counts) by priority value, and otherwise as they were
/// given.
pub open spec fn arrival_order(s: Seq<ProcessView>, by_priority: bool) -> Seq<ProcessView>
    decreases s.len(),
{
    if s.len() == 0 {
        Seq::empty()
    } else {
        insert_ordered(arrival_order(s.drop_last(), by_priority), s.last(), by_priority)
    }
}

/// Putting a process in keeps those that were there, adds the new one and
/// nothing else, and adds its weight to every sum.
pub proof fn lemma_insert_ordered(s: Seq<ProcessView>, p: ProcessView, by_priority: bool, f: spec_fn(ProcessView) -> int)
    ensures
        insert_ordered(s, p, by_priority).len() == s.len() + 1,
        tally(insert_ordered(s, p, by_priority), f) == tally(s, f) + f(p),
        forall|i: int|
            0 <= i < s.len() + 1 ==> s.contains(#[trigger] insert_ordered(s, p, by_priority)[i])
                || insert_ordered(s, p, by_priority)[i] == p,
    decreases s.len(),
{
    let r = insert_ordered(s, p, by_priority);
    if s.len() > 0 && precedes(p, s.last(), by_priority) {
        let front = s.drop_last();
        lemma_insert_ordered(front, p, by_priority, f);
        let inner = insert_ordered(front, p, by_priority);
        lemma_tally_push(inner, s.last(), f);
        assert forall|i: int| 0 <= i < s.len() + 1 implies s.contains(#[trigger] r[i]) || r[i] == p by {
            if i < s.len() {
                if inner[i] != p {
                    assert(front.contains(inner[i]));
                    let j = choose|j: int| 0 <= j < front.len() && front[j] == inner[i];
                    assert(s[j] == r[i]);
                }
            } else {
                assert(r[i] == s[s.len() - 1]);
            }
        }
    } else {
        lemma_tally_push(s, p, f);
        assert forall|i: int| 0 <= i < s.len() + 1 implies s.contains(#[trigger] r[i]) || r[i] == p by {
            if i < s.len() {
                assert(s[i] == r[i]);
            }
        }
    }
}

/// Ordering keeps the processes: as many as before, each one of those given,
/// and every sum over them unchanged.
pub proof fn lemma_arrival_order(s: Seq<ProcessView>, by_priority: bool, f: spec_fn(ProcessView) -> int)
    ensures
        arrival_order(s, by_priority).len() == s.len(),
        tally(arrival_order(s, by_priority), f) == tally(s, f),
        forall|i: int| 0 <= i < s.len() ==> s.contains(#[trigger] arrival_order(s, by_priority)[i]),
    decreases s.len(),
{
    if s.len() > 0 {
        let front = s.drop_last();
        let sorted = arrival_order(front, by_priority);
        lemma_arrival_order(front, by_priority, f);
        lemma_insert_ordered(sorted, s.last(), by_priority, f);
        let r = arrival_order(s, by_priority);
        assert forall|i: int| 0 <= i < s.len() implies s.contains(#[trigger] r[i]) by {
            if r[i] == s.last() {
                assert(s[s.len() - 1] == r[i]);
            } else {
                assert(sorted.contains(r[i]));
                let j = choose|j: int| 0 <= j < sorted.len() && sorted[j] == r[i];
                assert(front.contains(sorted[j]));
                let k = choose|k: int| 0 <= k < front.len() && front[k] == sorted[j];
                assert(s[k] == r[i]);
            }
        }
    }
}

/// Whether no process stands behind one that it must precede.
pub open spec fn queued_in_order(s: Seq<ProcessView>, by_priority: bool) -> bool {
    forall|i: int, j: int| 0 <= i < j < s.len() ==> !precedes(#[trigger] s[j], #[trigger] s[i], by_priority)
}

/// A process put into a sorted queue leaves it sorted.
pub proof fn lemma_insert_ordered_in_order(s: Seq<ProcessView>, p: ProcessView, by_priority: bool)
    requires
        queued_in_order(s, by_priority),
    ensures
        queued_in_order(insert_ordered(s, p, by_priority), by_priority),
    decreases s.len(),
{
    let r = insert_ordered(s, p, by_priority);
    if s.len() > 0 && precedes(p, s.last(), by_priority) {
        let front = s.drop_last();
        let inner = insert_ordered(front, p, by_priority);
        assert forall|i: int, j: int| 0 <= i < j < front.len() implies !precedes(
            #[trigger] front[j],
            #[trigger] front[i],
            by_priority,
        ) by {
            assert(front[i] == s[i] && front[j] == s[j]);
        }
        lemma_insert_ordered_in_order(front, p, by_priority);
        lemma_insert_ordered(front, p, by_priority, by_burst());
        assert forall|i: int, j: int| 0 <= i < j < r.len() implies !precedes(
            #[trigger] r[j],
            #[trigger] r[i],
            by_priority,
        ) by {
            assert(r[i] == inner[i]);
            if j < inner.len() {
                assert(r[j] == inner[j]);
            } else if inner[i] != p {
                assert(front.contains(inner[i]));
                let k = choose|k: int| 0 <= k < front.len() && front[k] == inner[i];
                assert(s[k] == inner[i]);
                assert(!precedes(s[s.len() - 1], s[k], by_priority));
            }
        }
    } else {
        assert forall|i: int, j: int| 0 <= i < j < r.len() implies !precedes(
            #[trigger] r[j],
            #[trigger] r[i],
            by_priority,
        ) by {
            assert(r[i] == s[i]);
            if j < s.len() {
                assert(r[j] == s[j]);
            } else {
                assert(!precedes(s[s.len() - 1], s[i], by_priority) || i == s.len() - 1);
            }
        }
    }
}

/// The queueing order is sorted: no process stands behind one that arrives
/// later or, where priority counts, that arrives with it at a higher
/// priority value.
pub proof fn lemma_arrival_order_in_order(s: Seq<ProcessView>, by_priority: bool)
    ensures
        queued_in_order(arrival_order(s, by_priority), by_priority),
    decreases s.len(),
{
    if s.len() > 0 {
        lemma_arrival_order_in_order(s.drop_last(), by_priority);
        lemma_insert_ordered_in_order(arrival_order(s.drop_last(), by_priority), s.last(), by_priority);
    }
}

/// The earliest arrival time among `pending`.
pub fn find_earliest_arrival(pending: &Vec<Process>) -> (e: i32)
    requires
        pending.len() > 0,
    ensures
        e == earliest_arrival(views(pending@)),
{
    let ghost all = views(pending@);
    let mut e: i32 = pending[0].arrival_time;
    let mut i: usize = 1;
    assert(all.take(1)[0] == pending@[0]@);
    while i < pending.len()
        invariant
            1 <= i <= pending.len(),
            all == views(pending@),
            e == earliest_arrival(all.take(i as int)),
        decreases pending.len() - i,
    {
        proof {
            let next = all.take(i + 1);
            assert(next.drop_last() =~= all.take(i as int));
            assert(next.last() == pending@[i as int]@);
        }
        if pending[i].arrival_time < e {
            e = pending[i].arrival_time;
        }
        i += 1;
    }
    assert(all.take(i as int) =~= all);
    e
}

/// Moves the processes of `pending` that have arrived by `clock` to the back
/// of `queue`, in their order.
pub fn enqueue_arrivals(pending: &mut Vec<Process>, queue: &mut Vec<Process>, clock: i32)
    ensures
        views(final(queue)@) == views(old(queue)@) + arrived(views(old(pending)@), clock as int),
        views(final(pending)@) == waiting(views(old(pending)@), clock as int),
{
    let ghost all = views(pending@);
    let ghost before = views(queue@);
    let mut rest: Vec<Process> = Vec::new();
    let mut i: usize = 0;
    assert(views(queue@) =~= before + arrived(all.take(0), clock as int));
    assert(views(rest@) =~= waiting(all.take(0), clock as int));
    while i < pending.len()
        invariant
            i <= pending.len(),
            all == views(pending@),
            views(queue@) == before + arrived(all.take(i as int), clock as int),
            views(rest@) == waiting(all.take(i as int), clock as int),
        decreases pending.len() - i,
    {
        let p = pending[i].clone();
        proof {
            let next = all.take(i + 1);
            assert(next.drop_last() =~= all.take(i as int));
            assert(next.last() == p@);
        }
        let ghost q0 = views(queue@);
        let ghost r0 = views(rest@);
        if p.arrival_time <= clock {
            queue.push(p);
            assert(views(queue@) =~= q0.push(p@));
            assert(views(queue@) =~= before + arrived(all.take(i + 1), clock as int));
        } else {
            rest.push(p);
            assert(views(rest@) =~= r0.push(p@));
        }
        i += 1;
    }
    assert(all.take(i as int) =~= all);
    *pending = rest;
}

/// The processes in the order in which they are queued.
pub fn sort_by_arrival(processes: &Vec<Process>, by_priority: bool) -> (sorted: Vec<Process>)
    ensures
        views(sorted@) == arrival_order(views(processes@), by_priority),
{
    let ghost all = views(processes@);
    let mut sorted: Vec<Process> = Vec::new();
    let mut i: usize = 0;
    assert(views(sorted@) =~= arrival_order(all.take(0), by_priority));
    while i < processes.len()
        invariant
            i <= processes.len(),
            all == views(processes@),
            views(sorted@) == arrival_order(all.take(i as int), by_priority),
        decreases processes.len() - i,
    {
        let p = processes[i].clone();
        let ghost s = views(sorted@);
        proof {
            let next = all.take(i + 1);
            assert(next.drop_last() =~= all.take(i as int));
            assert(next.last() == p@);
        }
        let mut j: usize = sorted.len();
        assert(s.take(j as int) =~= s);
        assert(insert_ordered(s, p@, by_priority) =~= insert_ordered(s.take(j as int), p@, by_priority) + s.skip(j as int));
        while j > 0 && (p.arrival_time < sorted[j - 1].arrival_time || (by_priority && p.arrival_time
            == sorted[j - 1].arrival_time && p.priority < sorted[j - 1].priority))
            invariant
                j <= sorted.len(),
                s == views(sorted@),
                insert_ordered(s, p@, by_priority) == insert_ordered(s.take(j as int), p@, by_priority)
                    + s.skip(j as int),
            decreases j,
        {
            proof {
                let head = s.take(j as int);
                assert(head.last() == sorted@[j - 1]@);
                assert(precedes(p@, head.last(), by_priority));
                assert(head.drop_last() =~= s.take(j - 1));
                assert(insert_ordered(head.drop_last(), p@, by_priority).push(head.last()) + s.skip(j as int)
                    =~= insert_ordered(s.take(j - 1), p@, by_priority) + s.skip(j - 1));
            }
            j -= 1;
        }
        proof {
            let head = s.take(j as int);
            if j > 0 {
                assert(head.last() == sorted@[j - 1]@);
                assert(!precedes(p@, head.last(), by_priority));
            }
            assert(insert_ordered(head, p@, by_priority) == head.push(p@));
            assert(head.push(p@) + s.skip(j as int) =~= s.insert(j as int, p@));
        }
        sorted.insert(j, p);
        assert(views(sorted@) =~= s.insert(j as int, p@));
        i += 1;
    }
    assert(all.take(i as int) =~= all);
    sorted
}

} // verus!
