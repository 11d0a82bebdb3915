//! The simulation itself: the state of a run, one dispatch, and the slices
//! of CPU time that a whole run hands out.

use crate::policy::{
    is_preemptive, lemma_select_first_best, orders_by_priority, Policy, positive_bursts, quantum_ok, rejection,
    ScheduleError, select, slice_len,
};
use crate::process::{completed, ProcessView};
use crate::ready::{
    arrival_order, arrived, by_burst, earliest_arrival, lemma_arrived_nonempty, lemma_earliest_arrival,
    lemma_split_members, lemma_tally_add, lemma_tally_bounds, lemma_tally_push, lemma_tally_remove,
    lemma_tally_split, tally, waiting, work,
};
use crate::timeline::{last_end, SegmentView, timeline_from};
use vstd::prelude::*;

verus! {

/// The state of a run between two dispatches.
pub struct State {
    /// The processes that have not arrived yet, in queueing order.
    pub pending: Seq<ProcessView>,
    /// The processes that are ready to run, the oldest first. Their burst
    /// time is what they still need.
    pub queue: Seq<ProcessView>,
    /// The process that Round Robin took off the CPU at the last dispatch.
    /// It joins the queue behind those that arrived during its turn.
    pub carried: Option<ProcessView>,
    /// The simulated time.
    pub clock: int,
}

/// The carried process as a pool of its own.
pub open spec fn carried_pool(st: State) -> Seq<ProcessView> {
    match st.carried {
        Some(c) => seq![c],
        None => Seq::empty(),
    }
}

/// Every process that has not finished.
pub open spec fn members(st: State) -> Seq<ProcessView> {
    st.pending + st.queue + carried_pool(st)
}

/// Whether every process has finished.
pub open spec fn is_done(st: State) -> bool {
    st.pending.len() == 0 && st.queue.len() == 0 && st.carried is None
}

/// The time of the next dispatch. While a process is ready it is now;
/// otherwise the CPU idles until the next process arrives.
pub open spec fn dispatch_time(st: State) -> int {
    if st.queue.len() == 0 && st.carried is None && st.pending.len() > 0 && earliest_arrival(st.pending)
        > st.clock {
        earliest_arrival(st.pending)
    } else {
        st.clock
    }
}

/// The ready queue at the next dispatch: those that were ready, then those
/// that have arrived by then, then the carried process.
pub open spec fn ready_queue(st: State) -> Seq<ProcessView> {
    st.queue + arrived(st.pending, dispatch_time(st)) + carried_pool(st)
}

/// The process that runs at the next dispatch.
pub open spec fn chosen(policy: Policy, st: State) -> ProcessView {
    ready_queue(st)[select(policy, ready_queue(st))]
}

/// The slice of CPU time that the next dispatch hands out.
pub open spec fn next_slice(policy: Policy, st: State) -> SegmentView {
    SegmentView {
        id: chosen(policy, st).id,
        start: dispatch_time(st),
        end: dispatch_time(st) + slice_len(policy, chosen(policy, st)),
    }
}

/// Whether the process that runs next finishes in its turn.
pub open spec fn finishes(policy: Policy, st: State) -> bool {
    slice_len(policy, chosen(policy, st)) >= chosen(policy, st).burst_time
}

/// The chosen process after its turn, with what it still needs.
pub open spec fn leftover(policy: Policy, st: State) -> ProcessView {
    ProcessView {
        burst_time: chosen(policy, st).burst_time - slice_len(policy, chosen(policy, st)),
        ..chosen(policy, st)
    }
}

/// The state after the next dispatch. A process that is not finished goes
/// back to the end of the queue; under Round Robin it is carried instead.
pub open spec fn advance(policy: Policy, st: State) -> State {
    let rest = ready_queue(st).remove(select(policy, ready_queue(st)));
    State {
        pending: waiting(st.pending, dispatch_time(st)),
        queue: if !finishes(policy, st) && !(policy is RoundRobin) {
            rest.push(leftover(policy, st))
        } else {
            rest
        },
        carried: if !finishes(policy, st) && policy is RoundRobin {
            Some(leftover(policy, st))
        } else {
            None
        },
        clock: next_slice(policy, st).end,
    }
}

/// A run can go on: the quantum and every remaining burst are positive.
pub open spec fn runnable(policy: Policy, st: State) -> bool {
    quantum_ok(policy) && positive_bursts(members(st))
}

/// The slices of CPU time handed out from `st` on, in order, until every
/// process has finished.
pub open spec fn slices(policy: Policy, st: State) -> Seq<SegmentView>
    decreases work(members(st)),
    when runnable(policy, st)
    via slices_decreases
{
    if is_done(st) {
        Seq::empty()
    } else {
        seq![next_slice(policy, st)] + slices(policy, advance(policy, st))
    }
}

#[via_fn]
proof fn slices_decreases(policy: Policy, st: State) {
    if !is_done(st) {
        lemma_dispatch(policy, st);
        lemma_advance_tally(policy, st, by_burst());
        lemma_tally_bounds(members(advance(policy, st)), by_burst());
    }
}

/// What holds of a dispatch: a process is ready, the chosen one is in the
/// queue, its turn is at least one unit and no longer than what it needs,
/// and the run can go on afterwards.
pub proof fn lemma_dispatch(policy: Policy, st: State)
    requires
        runnable(policy, st),
        !is_done(st),
    ensures
        dispatch_time(st) >= st.clock,
        0 <= select(policy, ready_queue(st)) < ready_queue(st).len(),
        forall|i: int| 0 <= i < ready_queue(st).len() ==> members(st).contains(#[trigger] ready_queue(st)[i]),
        chosen(policy, st).burst_time >= 1,
        1 <= slice_len(policy, chosen(policy, st)) <= chosen(policy, st).burst_time,
        policy is RoundRobin ==> slice_len(policy, chosen(policy, st)) <= policy->quantum,
        finishes(policy, st) <==> slice_len(policy, chosen(policy, st)) == chosen(policy, st).burst_time,
        !finishes(policy, st) && policy is RoundRobin ==> slice_len(policy, chosen(policy, st)) == policy->quantum,
        forall|i: int|
            0 <= i < members(advance(policy, st)).len() ==> members(st).contains(
                #[trigger] members(advance(policy, st))[i],
            ) || (!finishes(policy, st) && members(advance(policy, st))[i] == leftover(policy, st)),
        runnable(policy, advance(policy, st)),
{
    let t = dispatch_time(st);
    let ready = ready_queue(st);
    let all = members(st);
    let came = arrived(st.pending, t);
    lemma_split_members(st.pending, t);
    if st.queue.len() == 0 && st.carried is None {
        lemma_earliest_arrival(st.pending);
        let j = choose|j: int| 0 <= j < st.pending.len() && (#[trigger] st.pending[j]).arrival_time == earliest_arrival(st.pending);
        lemma_arrived_nonempty(st.pending, t, j);
    }
    lemma_select_first_best(policy, ready);
    assert forall|i: int| 0 <= i < ready.len() implies all.contains(#[trigger] ready[i]) by {
        if i < st.queue.len() {
            assert(all[st.pending.len() + i] == ready[i]);
        } else if i < st.queue.len() + came.len() {
            let x = came[i - st.queue.len()];
            assert(x == ready[i]);
            assert(st.pending.contains(x));
            let j = choose|j: int| 0 <= j < st.pending.len() && st.pending[j] == x;
            assert(all[j] == x);
        } else {
            assert(all[all.len() - 1] == ready[i]);
        }
    }
    let p = chosen(policy, st);
    assert(all.contains(p));
    let next = advance(policy, st);
    let rest = ready.remove(select(policy, ready));
    assert forall|i: int| 0 <= i < members(next).len() implies all.contains(#[trigger] members(next)[i]) || (
    !finishes(policy, st) && members(next)[i] == leftover(policy, st)) by {
        let x = members(next)[i];
        if i < next.pending.len() {
            assert(x == next.pending[i]);
            assert(st.pending.contains(x));
            let j = choose|j: int| 0 <= j < st.pending.len() && st.pending[j] == x;
            assert(all[j] == x);
        } else if i < next.pending.len() + rest.len() {
            let r = i - next.pending.len();
            assert(x == rest[r]);
            if r < select(policy, ready) {
                assert(x == ready[r]);
            } else {
                assert(x == ready[r + 1]);
            }
        } else {
            assert(x == leftover(policy, st));
        }
    }
    assert forall|i: int| 0 <= i < members(next).len() implies (#[trigger] members(next)[i]).burst_time >= 1 by {
        let x = members(next)[i];
        if all.contains(x) {
            let j = choose|j: int| 0 <= j < all.len() && all[j] == x;
            assert(all[j].burst_time >= 1);
        }
    }
}

/// A dispatch takes the chosen process out of every sum over the unfinished
/// processes and, unless it finishes, puts what is left of it back.
pub proof fn lemma_advance_tally(policy: Policy, st: State, f: spec_fn(ProcessView) -> int)
    requires
        runnable(policy, st),
        !is_done(st),
    ensures
        tally(members(st), f) == tally(st.pending, f) + tally(st.queue, f) + tally(carried_pool(st), f),
        tally(ready_queue(st), f) + tally(waiting(st.pending, dispatch_time(st)), f) == tally(members(st), f),
        tally(members(advance(policy, st)), f) == tally(members(st), f) - f(chosen(policy, st)) + if finishes(
            policy,
            st,
        ) {
            0
        } else {
            f(leftover(policy, st))
        },
{
    lemma_dispatch(policy, st);
    let t = dispatch_time(st);
    let ready = ready_queue(st);
    let came = arrived(st.pending, t);
    let next = advance(policy, st);
    let rest = ready.remove(select(policy, ready));
    lemma_tally_add(st.pending, st.queue, f);
    lemma_tally_add(st.pending + st.queue, carried_pool(st), f);
    lemma_tally_add(st.queue, came, f);
    lemma_tally_add(st.queue + came, carried_pool(st), f);
    lemma_tally_split(st.pending, t, f);
    lemma_tally_remove(ready, select(policy, ready), f);
    lemma_tally_add(next.pending, next.queue, f);
    lemma_tally_add(next.pending + next.queue, carried_pool(next), f);
    if !finishes(policy, st) {
        if policy is RoundRobin {
            lemma_tally_push(Seq::empty(), leftover(policy, st), f);
            assert(carried_pool(next) =~= Seq::<ProcessView>::empty().push(leftover(policy, st)));
        } else {
            lemma_tally_push(rest, leftover(policy, st), f);
        }
    }
}

/// The state in which a run starts: nobody has arrived, the clock is at 0.
pub open spec fn initial(policy: Policy, given: Seq<ProcessView>) -> State {
    State {
        pending: arrival_order(given, orders_by_priority(policy)),
        queue: Seq::empty(),
        carried: None,
        clock: 0,
    }
}

/// Every slice of CPU time that a run of `policy` over the given processes
/// hands out, in order.
pub open spec fn all_slices(policy: Policy, given: Seq<ProcessView>) -> Seq<SegmentView> {
    slices(policy, initial(policy, given))
}

/// The Gantt timeline of a run of `policy` over the given processes. A
/// preemptive policy shows the consecutive time units of one process as one
/// segment; the others show each turn.
pub open spec fn timeline_of(policy: Policy, given: Seq<ProcessView>) -> Seq<SegmentView> {
    timeline_from(all_slices(policy, given), is_preemptive(policy))
}

/// Whether the run ends within the time that a 32-bit clock can hold.
pub open spec fn fits_clock(policy: Policy, given: Seq<ProcessView>) -> bool {
    forall|j: int| 0 <= j < all_slices(policy, given).len() ==> (#[trigger] all_slices(policy, given)[j]).end <= i32::MAX
}

/// The given processes, each with the metrics of its completion at the end
/// of its last segment in `timeline`.
pub open spec fn with_metrics(given: Seq<ProcessView>, timeline: Seq<SegmentView>) -> Seq<ProcessView> {
    Seq::new(given.len(), |k: int| completed(given[k], last_end(timeline, given[k].id)))
}

/// What a run of `policy` over the given processes returns: the reason for
/// which the input is refused, or the timeline, or `Overflow` where the
/// run does not fit the clock.
pub open spec fn outcome(policy: Policy, given: Seq<ProcessView>) -> Result<Seq<SegmentView>, ScheduleError> {
    match rejection(policy, given) {
        Some(e) => Err(e),
        None => if fits_clock(policy, given) {
            Ok(timeline_of(policy, given))
        } else {
            Err(ScheduleError::Overflow)
        },
    }
}

/// The processes as a run of `policy` leaves them: with their metrics where
/// the run succeeds, untouched where it does not.
pub open spec fn final_records(policy: Policy, given: Seq<ProcessView>) -> Seq<ProcessView> {
    if outcome(policy, given) is Ok {
        with_metrics(given, timeline_of(policy, given))
    } else {
        given
    }
}

} // verus!
