//! What a run keeps true from one dispatch to the next, and what follows
//! from it once every process has finished.

use crate::engine::{
    advance, all_slices, chosen, dispatch_time, finishes, fits_clock, initial, is_done, lemma_advance_tally,
    lemma_dispatch, members, next_slice, ready_queue, runnable, slices, State, timeline_of, with_metrics,
};
use crate::policy::{is_preemptive, orders_by_priority, Policy, rejection, select, slice_len};
use crate::process::{completed, lemma_position_of, metrics_fit, position_of, ProcessView};
use crate::ready::{
    arrived, by_burst, by_id, lemma_arrival_order, lemma_distinct_occurs_once, lemma_member_occurs,
    lemma_split_members, lemma_tally_bounds, occurrences, work,
};
use crate::timeline::{
    in_order, last_end, lemma_append_slice_duration, lemma_append_slice_last_end, lemma_coalesce_duration,
    lemma_coalesce_in_order, lemma_coalesce_last_end, SegmentView, timeline_from, total_duration,
};
use vstd::prelude::*;

verus! {

/// Whether `w` is what is left of the given process `g` at time `clock`:
/// the same process, with no more to do than at the start, and, once it has
/// run, at a time late enough for the work it has done since it arrived.
pub open spec fn is_rest_of(g: ProcessView, w: ProcessView, clock: int) -> bool {
    &&& g.id == w.id
    &&& g.arrival_time == w.arrival_time
    &&& 1 <= w.burst_time <= g.burst_time
    &&& (w.burst_time == g.burst_time || w.arrival_time + g.burst_time - w.burst_time <= clock)
}

/// Whether `w` is what is left of one of the given processes.
pub open spec fn origin(given: Seq<ProcessView>, w: ProcessView, clock: int) -> bool {
    exists|k: int| 0 <= k < given.len() && is_rest_of(#[trigger] given[k], w, clock)
}

/// How many unfinished processes are called `id`.
pub open spec fn live(st: State, id: Seq<char>) -> int {
    occurrences(members(st), id)
}

/// The length of a segment.
pub open spec fn duration(x: SegmentView) -> int {
    x.end - x.start
}

/// Whether the process of segment `j` never runs again after it.
pub open spec fn is_last_turn(tl: Seq<SegmentView>, j: int) -> bool {
    forall|later: int| j < later < tl.len() ==> (#[trigger] tl[later]).id != tl[j].id
}

/// No turn is longer than the quantum, and a shorter one is the last turn of
/// its process.
pub open spec fn within_quantum(tl: Seq<SegmentView>, quantum: int) -> bool {
    forall|j: int|
        0 <= j < tl.len() ==> 1 <= duration(#[trigger] tl[j]) <= quantum && (duration(tl[j]) < quantum
            ==> is_last_turn(tl, j))
}

/// Whether `after` is the process `given` with the metrics of a finished
/// process: it completed no earlier than its arrival plus its burst, its
/// turnaround is the time from arrival to completion, and its waiting time
/// is the turnaround less the burst, neither negative.
pub open spec fn settled(given: ProcessView, after: ProcessView) -> bool {
    &&& after.id == given.id
    &&& after.arrival_time == given.arrival_time
    &&& after.burst_time == given.burst_time
    &&& after.priority == given.priority
    &&& after.completion_time >= given.arrival_time + given.burst_time
    &&& after.turnaround_time == after.completion_time - given.arrival_time
    &&& after.waiting_time == after.turnaround_time - given.burst_time
    &&& after.turnaround_time >= 0
    &&& after.waiting_time >= 0
}

/// The record of the given process `g` in a run that has handed out the
/// slices `raw` and stands at `st`: its metrics once it has finished, and
/// the process as given until then.
pub open spec fn recorded(g: ProcessView, raw: Seq<SegmentView>, st: State) -> ProcessView {
    if live(st, g.id) == 0 {
        completed(g, last_end(raw, g.id))
    } else {
        g
    }
}

/// The records after the next dispatch: where the chosen process finishes,
/// the first record with its id gets its metrics.
pub open spec fn records_after(policy: Policy, st: State, records: Seq<ProcessView>) -> Seq<ProcessView> {
    if finishes(policy, st) {
        records.update(
            position_of(records, chosen(policy, st).id),
            completed(records[position_of(records, chosen(policy, st).id)], next_slice(policy, st).end),
        )
    } else {
        records
    }
}

/// What holds between two dispatches of a run of `policy` over the `given`
/// processes that has handed out the slices `raw`, stands at `st` and keeps
/// the `records`.
#[verifier::opaque]
pub open spec fn consistent(
    policy: Policy,
    given: Seq<ProcessView>,
    raw: Seq<SegmentView>,
    st: State,
    records: Seq<ProcessView>,
) -> bool {
    &&& runnable(policy, st)
    &&& st.clock >= 0
    &&& forall|id: Seq<char>| #[trigger] live(st, id) <= 1
    &&& forall|i: int| 0 <= i < members(st).len() ==> origin(given, #[trigger] members(st)[i], st.clock)
    &&& forall|i: int| 0 <= i < st.queue.len() ==> (#[trigger] st.queue[i]).arrival_time <= st.clock
    &&& (st.carried matches Some(c) ==> c.arrival_time <= st.clock)
    &&& total_duration(raw) + work(members(st)) == work(given)
    &&& forall|j: int| 0 <= j < raw.len() ==> (#[trigger] raw[j]).end <= st.clock
    &&& in_order(raw)
    &&& records.len() == given.len()
    &&& forall|k: int| 0 <= k < given.len() ==> #[trigger] records[k] == recorded(given[k], raw, st)
    &&& forall|k: int|
        0 <= k < given.len() && live(st, (#[trigger] given[k]).id) == 0 ==> last_end(raw, given[k].id)
            >= given[k].arrival_time + given[k].burst_time
    &&& (policy matches Policy::RoundRobin { quantum } ==> within_quantum(raw, quantum as int) && forall|j: int|
        0 <= j < raw.len() && duration(#[trigger] raw[j]) < quantum ==> live(st, raw[j].id) == 0)
}

/// A dispatch leaves the number of unfinished processes called `id` as it
/// is, or takes the chosen one away when it finishes.
pub proof fn lemma_live_step(policy: Policy, st: State, id: Seq<char>)
    requires
        runnable(policy, st),
        !is_done(st),
    ensures
        live(st, chosen(policy, st).id) >= 1,
        live(st, id) >= 0,
        live(advance(policy, st), id) >= 0,
        live(advance(policy, st), id) == live(st, id) - if finishes(policy, st) && chosen(policy, st).id == id {
            1int
        } else {
            0int
        },
{
    lemma_dispatch(policy, st);
    lemma_advance_tally(policy, st, by_id(id));
    let all = members(st);
    let p = chosen(policy, st);
    assert(all.contains(p));
    let j = choose|j: int| 0 <= j < all.len() && all[j] == p;
    lemma_member_occurs(all, j);
    lemma_tally_bounds(all, by_id(id));
    lemma_tally_bounds(members(advance(policy, st)), by_id(id));
}

/// Every process in the ready queue has arrived by the time of the dispatch.
pub proof fn lemma_ready_arrived(policy: Policy, st: State)
    requires
        runnable(policy, st),
        !is_done(st),
        forall|i: int| 0 <= i < st.queue.len() ==> (#[trigger] st.queue[i]).arrival_time <= st.clock,
        st.carried matches Some(c) ==> c.arrival_time <= st.clock,
    ensures
        forall|i: int|
            0 <= i < ready_queue(st).len() ==> (#[trigger] ready_queue(st)[i]).arrival_time <= dispatch_time(st),
        chosen(policy, st).arrival_time <= dispatch_time(st),
{
    lemma_dispatch(policy, st);
    let t = dispatch_time(st);
    let ready = ready_queue(st);
    let came = arrived(st.pending, t);
    lemma_split_members(st.pending, t);
    assert forall|i: int| 0 <= i < ready.len() implies (#[trigger] ready[i]).arrival_time <= t by {
        if i < st.queue.len() {
            assert(ready[i] == st.queue[i]);
        } else if i < st.queue.len() + came.len() {
            assert(ready[i] == came[i - st.queue.len()]);
        } else {
            assert(ready[i] == st.carried->0);
        }
    }
}

/// A run starts in a consistent state.
pub proof fn lemma_initial(policy: Policy, given: Seq<ProcessView>)
    requires
        rejection(policy, given) is None,
    ensures
        consistent(policy, given, Seq::empty(), initial(policy, given), given),
{
    reveal(consistent);
    let st = initial(policy, given);
    let sorted = st.pending;
    assert(members(st) =~= sorted);
    lemma_arrival_order(given, orders_by_priority(policy), by_burst());
    assert forall|i: int| 0 <= i < sorted.len() implies (#[trigger] sorted[i]).burst_time >= 1 && origin(
        given,
        sorted[i],
        0,
    ) by {
        assert(given.contains(sorted[i]));
        let k = choose|k: int| 0 <= k < given.len() && given[k] == sorted[i];
        assert(is_rest_of(given[k], sorted[i], 0));
    }
    assert forall|id: Seq<char>| #[trigger] live(st, id) <= 1 by {
        lemma_arrival_order(given, orders_by_priority(policy), by_id(id));
        lemma_distinct_occurs_once(given, id);
    }
    assert forall|k: int| 0 <= k < given.len() implies live(st, (#[trigger] given[k]).id) >= 1 by {
        lemma_arrival_order(given, orders_by_priority(policy), by_id(given[k].id));
        lemma_member_occurs(given, k);
    }
}

/// A dispatch keeps a run consistent. Where the chosen process finishes,
/// its record is found, and its metrics fit 32 bits if the clock does.
pub proof fn lemma_step(
    policy: Policy,
    given: Seq<ProcessView>,
    raw: Seq<SegmentView>,
    st: State,
    records: Seq<ProcessView>,
)
    requires
        rejection(policy, given) is None,
        consistent(policy, given, raw, st, records),
        !is_done(st),
    ensures
        position_of(records, chosen(policy, st).id) < records.len(),
        finishes(policy, st) && next_slice(policy, st).end <= i32::MAX ==> metrics_fit(
            records[position_of(records, chosen(policy, st).id)],
            next_slice(policy, st).end,
        ),
        consistent(
            policy,
            given,
            raw.push(next_slice(policy, st)),
            advance(policy, st),
            records_after(policy, st, records),
        ),
{
    reveal(consistent);
    let next = advance(policy, st);
    let seg = next_slice(policy, st);
    let after = raw.push(seg);
    let p = chosen(policy, st);
    let t = dispatch_time(st);
    let all = members(st);
    lemma_dispatch(policy, st);
    lemma_ready_arrived(policy, st);
    lemma_advance_tally(policy, st, by_burst());
    lemma_append_slice_duration(raw, seg, false);
    lemma_live_step(policy, st, p.id);

    // the chosen process and the given one it stems from
    assert(all.contains(p));
    let at = choose|j: int| 0 <= j < all.len() && all[j] == p;
    assert(origin(given, all[at], st.clock));
    let home = choose|k: int| 0 <= k < given.len() && is_rest_of(#[trigger] given[k], p, st.clock);
    assert(seg.end >= given[home].arrival_time + given[home].burst_time - (p.burst_time - slice_len(policy, p)));

    assert forall|id: Seq<char>| #[trigger] live(next, id) <= 1 by {
        lemma_live_step(policy, st, id);
    }
    assert forall|i: int| 0 <= i < members(next).len() implies origin(
        given,
        #[trigger] members(next)[i],
        next.clock,
    ) by {
        let x = members(next)[i];
        if all.contains(x) {
            let j = choose|j: int| 0 <= j < all.len() && all[j] == x;
            assert(origin(given, all[j], st.clock));
            let k = choose|k: int| 0 <= k < given.len() && is_rest_of(#[trigger] given[k], x, st.clock);
            assert(is_rest_of(given[k], x, next.clock));
        } else {
            assert(is_rest_of(given[home], x, next.clock));
        }
    }
    assert forall|i: int| 0 <= i < next.queue.len() implies (#[trigger] next.queue[i]).arrival_time
        <= next.clock by {
        let ready = ready_queue(st);
        let s = select(policy, ready);
        let rest = ready.remove(s);
        if i < rest.len() {
            if i < s {
                assert(next.queue[i] == ready[i]);
            } else {
                assert(next.queue[i] == ready[i + 1]);
            }
        }
    }
    assert forall|j: int| 0 <= j < after.len() implies 0 <= (#[trigger] after[j]).start < after[j].end
        <= next.clock by {
        if j < raw.len() {
            assert(after[j] == raw[j]);
        }
    }
    assert forall|i: int, j: int| 0 <= i < j < after.len() implies (#[trigger] after[i]).end <= (
    #[trigger] after[j]).start by {
        assert(after[i] == raw[i]);
        if j < raw.len() {
            assert(after[j] == raw[j]);
        }
    }

    // the records
    let pos = position_of(records, p.id);
    lemma_position_of(records, p.id);
    assert(records[home] == recorded(given[home], raw, st));
    assert(records[home] == given[home]);
    if pos < home {
        assert(records[pos] == recorded(given[pos], raw, st));
        assert(given[pos].id == given[home].id);
    }
    assert(pos == home);
    let kept = records_after(policy, st, records);
    assert forall|k: int| 0 <= k < given.len() implies #[trigger] kept[k] == recorded(given[k], after, next) && (
    live(next, given[k].id) == 0 ==> last_end(after, given[k].id) >= given[k].arrival_time
        + given[k].burst_time) by {
        lemma_live_step(policy, st, given[k].id);
        lemma_append_slice_last_end(raw, seg, false, given[k].id);
        assert(records[k] == recorded(given[k], raw, st));
        if given[k].id == p.id {
            if k < home {
                assert(given[k].id != given[home].id);
            }
            if home < k {
                assert(given[home].id != given[k].id);
            }
            assert(k == home);
        }
    }
    assert forall|k: int| 0 <= k < given.len() && live(next, (#[trigger] given[k]).id) == 0 implies last_end(
        after,
        given[k].id,
    ) >= given[k].arrival_time + given[k].burst_time by {
        assert(kept[k] == recorded(given[k], after, next));
    }
    if policy is RoundRobin {
        let quantum = policy->quantum as int;
        assert forall|j: int| 0 <= j < after.len() implies 1 <= duration(#[trigger] after[j]) <= quantum && (
        duration(after[j]) < quantum ==> is_last_turn(after, j) && live(next, after[j].id) == 0) by {
            if j < raw.len() {
                assert(after[j] == raw[j]);
                if duration(raw[j]) < quantum {
                    lemma_live_step(policy, st, raw[j].id);
                    assert(is_last_turn(raw, j));
                    assert forall|later: int| j < later < after.len() implies (#[trigger] after[later]).id
                        != after[j].id by {
                        if later < raw.len() {
                            assert(after[later] == raw[later]);
                        }
                    }
                }
            }
        }
    }
}

/// Whether `after` holds each given process with the metrics of a finished
/// process, in the order in which they were given.
pub open spec fn all_settled(given: Seq<ProcessView>, after: Seq<ProcessView>) -> bool {
    after.len() == given.len() && forall|k: int| 0 <= k < given.len() ==> settled(given[k], #[trigger] after[k])
}

/// Once every process has finished, the records hold the metrics of each,
/// taken from the timeline, the timeline hands out exactly the CPU time that
/// the given processes need, and under Round Robin its turns keep to the
/// quantum.
pub proof fn lemma_done(
    policy: Policy,
    given: Seq<ProcessView>,
    raw: Seq<SegmentView>,
    st: State,
    records: Seq<ProcessView>,
)
    requires
        rejection(policy, given) is None,
        consistent(policy, given, raw, st, records),
        is_done(st),
    ensures
        slices(policy, st) == Seq::<SegmentView>::empty(),
        records == with_metrics(given, timeline_from(raw, is_preemptive(policy))),
        total_duration(timeline_from(raw, is_preemptive(policy))) == work(given),
        all_settled(given, records),
        in_order(timeline_from(raw, is_preemptive(policy))),
        policy is RoundRobin ==> within_quantum(raw, policy->quantum as int),
        forall|j: int| 0 <= j < raw.len() ==> (#[trigger] raw[j]).end <= st.clock,
{
    reveal(consistent);
    let shown = timeline_from(raw, is_preemptive(policy));
    assert(members(st) =~= Seq::<ProcessView>::empty());
    lemma_coalesce_duration(raw);
    lemma_coalesce_in_order(raw);
    assert forall|k: int| 0 <= k < given.len() implies #[trigger] records[k] == completed(
        given[k],
        last_end(shown, given[k].id),
    ) && settled(given[k], records[k]) by {
        lemma_coalesce_last_end(raw, given[k].id);
        assert(live(st, given[k].id) == 0);
        assert(records[k] == recorded(given[k], raw, st));
    }
    assert(records =~= with_metrics(given, shown));
}

/// A consistent run can go on, and its clock is not negative.
pub proof fn lemma_consistent_runnable(
    policy: Policy,
    given: Seq<ProcessView>,
    raw: Seq<SegmentView>,
    st: State,
    records: Seq<ProcessView>,
)
    requires
        consistent(policy, given, raw, st, records),
    ensures
        runnable(policy, st),
        st.clock >= 0,
{
    reveal(consistent);
}

/// One turn of a run: what the scheduler relies on when it dispatches from
/// a consistent state, and what it has kept true afterwards.
pub proof fn lemma_turn(
    policy: Policy,
    given: Seq<ProcessView>,
    raw: Seq<SegmentView>,
    st: State,
    records: Seq<ProcessView>,
)
    requires
        rejection(policy, given) is None,
        consistent(policy, given, raw, st, records),
        !is_done(st),
        all_slices(policy, given) == raw + slices(policy, st),
    ensures
        runnable(policy, st),
        st.clock >= 0,
        dispatch_time(st) >= st.clock,
        0 <= select(policy, ready_queue(st)) < ready_queue(st).len(),
        1 <= slice_len(policy, chosen(policy, st)) <= chosen(policy, st).burst_time,
        finishes(policy, st) <==> slice_len(policy, chosen(policy, st)) >= chosen(policy, st).burst_time,
        position_of(records, chosen(policy, st).id) < records.len(),
        finishes(policy, st) && next_slice(policy, st).end <= i32::MAX ==> metrics_fit(
            records[position_of(records, chosen(policy, st).id)],
            next_slice(policy, st).end,
        ),
        next_slice(policy, st).end > i32::MAX ==> !fits_clock(policy, given),
        consistent(
            policy,
            given,
            raw.push(next_slice(policy, st)),
            advance(policy, st),
            records_after(policy, st, records),
        ),
        all_slices(policy, given) == raw.push(next_slice(policy, st)) + slices(policy, advance(policy, st)),
        0 <= work(members(advance(policy, st))) < work(members(st)),
{
    let seg = next_slice(policy, st);
    let next = advance(policy, st);
    lemma_consistent_runnable(policy, given, raw, st, records);
    lemma_dispatch(policy, st);
    lemma_step(policy, given, raw, st, records);
    lemma_advance_tally(policy, st, by_burst());
    lemma_tally_bounds(members(next), by_burst());
    assert(all_slices(policy, given)[raw.len() as int] == seg);
    assert(raw.push(seg) + slices(policy, next) =~= raw + slices(policy, st));
}

/// The end of a run: with every process finished, the slices handed out are
/// all there are, and the records and the timeline are those of the run.
pub proof fn lemma_finish(
    policy: Policy,
    given: Seq<ProcessView>,
    raw: Seq<SegmentView>,
    st: State,
    records: Seq<ProcessView>,
)
    requires
        rejection(policy, given) is None,
        consistent(policy, given, raw, st, records),
        is_done(st),
        all_slices(policy, given) == raw + slices(policy, st),
    ensures
        raw == all_slices(policy, given),
        st.clock <= i32::MAX ==> fits_clock(policy, given),
        records == with_metrics(given, timeline_of(policy, given)),
        total_duration(timeline_of(policy, given)) == work(given),
        all_settled(given, records),
        in_order(timeline_of(policy, given)),
        policy is RoundRobin ==> within_quantum(timeline_of(policy, given), policy->quantum as int),
{
    lemma_done(policy, given, raw, st, records);
    assert(raw + slices(policy, st) =~= raw);
}

/// A consistent run stays consistent until every process has finished; the
/// slices handed out on the way are those of `slices`.
pub proof fn lemma_run(
    policy: Policy,
    given: Seq<ProcessView>,
    raw: Seq<SegmentView>,
    st: State,
    records: Seq<ProcessView>,
) -> (end: (State, Seq<ProcessView>))
    requires
        rejection(policy, given) is None,
        consistent(policy, given, raw, st, records),
    ensures
        is_done(end.0),
        consistent(policy, given, raw + slices(policy, st), end.0, end.1),
    decreases work(members(st)),
{
    lemma_consistent_runnable(policy, given, raw, st, records);
    if is_done(st) {
        assert(raw + slices(policy, st) =~= raw);
        (st, records)
    } else {
        let seg = next_slice(policy, st);
        let next = advance(policy, st);
        lemma_step(policy, given, raw, st, records);
        lemma_dispatch(policy, st);
        lemma_advance_tally(policy, st, by_burst());
        lemma_tally_bounds(members(next), by_burst());
        let end = lemma_run(policy, given, raw.push(seg), next, records_after(policy, st, records));
        assert(raw.push(seg) + slices(policy, next) =~= raw + slices(policy, st));
        end
    }
}

} // verus!
