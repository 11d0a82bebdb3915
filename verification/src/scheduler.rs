//! The schedulers: one run of a policy over a list of processes.

use crate::bookkeeping::{
    all_settled, consistent, lemma_consistent_runnable, lemma_finish, lemma_initial, lemma_turn, within_quantum,
};
use crate::engine::{
    advance, all_slices, chosen, dispatch_time, final_records, initial, is_done, lemma_dispatch, members,
    next_slice, outcome, ready_queue, runnable, slices, State,
};
use crate::policy::{is_preemptive, Policy, rejection, ScheduleError, select, validate};
use crate::process::{Process, ProcessView, update_process_times, views};
use crate::ready::{enqueue_arrivals, find_earliest_arrival, sort_by_arrival, waiting, work};
use crate::timeline::{
    in_order, lemma_timeline_push, record_slice, Segment, segment_views, SegmentView, timeline_from, total_duration,
};
use vstd::prelude::*;

verus! {

/// The model of what a scheduler returns.
pub open spec fn timeline_result(r: Result<Vec<Segment>, ScheduleError>) -> Result<Seq<SegmentView>, ScheduleError> {
    match r {
        Ok(timeline) => Ok(segment_views(timeline@)),
        Err(e) => Err(e),
    }
}

/// The model of the carried process.
pub open spec fn carried_view(carried: Option<Process>) -> Option<ProcessView> {
    match carried {
        Some(c) => Some(c@),
        None => None,
    }
}

/// The state that the scheduler's variables stand for.
pub open spec fn state_of(pending: Seq<Process>, queue: Seq<Process>, carried: Option<Process>, clock: int) -> State {
    State { pending: views(pending), queue: views(queue), carried: carried_view(carried), clock }
}

/// What every successful run guarantees: each process has the metrics of a
/// finished process, the timeline hands out exactly the CPU time that the
/// processes need, and its segments follow each other in time.
pub open spec fn run_is_sound(given: Seq<ProcessView>, after: Seq<ProcessView>, r: Result<Vec<Segment>, ScheduleError>) -> bool {
    match r {
        Ok(timeline) => {
            &&& all_settled(given, after)
            &&& total_duration(segment_views(timeline@)) == work(given)
            &&& in_order(segment_views(timeline@))
        },
        Err(_) => true,
    }
}

/// Under Round Robin no turn of a successful run is longer than the
/// quantum, and a shorter one is the last turn of its process.
pub open spec fn run_keeps_quantum(r: Result<Vec<Segment>, ScheduleError>, quantum: int) -> bool {
    match r {
        Ok(timeline) => within_quantum(segment_views(timeline@), quantum),
        Err(_) => true,
    }
}

/// A copy of the processes.
pub fn copy_processes(processes: &Vec<Process>) -> (copy: Vec<Process>)
    ensures
        views(copy@) == views(processes@),
{
    let mut copy: Vec<Process> = Vec::new();
    let mut i: usize = 0;
    while i < processes.len()
        invariant
            i <= processes.len(),
            copy.len() == i,
            forall|k: int| 0 <= k < i ==> (#[trigger] copy@[k])@ == processes@[k]@,
        decreases processes.len() - i,
    {
        copy.push(processes[i].clone());
        i += 1;
    }
    assert(views(copy@) =~= views(processes@));
    copy
}

/// Makes the next dispatch: lets the CPU idle until a process is ready,
/// queues those that have arrived and then the carried process, and takes
/// the chosen process out of the queue. Returns it with the time of the
/// dispatch.
fn dispatch(
    pending: &mut Vec<Process>,
    queue: &mut Vec<Process>,
    carried: Option<Process>,
    clock: i32,
    policy: Policy,
) -> (r: (Process, i32))
    requires
        !is_done(state_of(old(pending)@, old(queue)@, carried, clock as int)),
        runnable(policy, state_of(old(pending)@, old(queue)@, carried, clock as int)),
    ensures
        r.1 == dispatch_time(state_of(old(pending)@, old(queue)@, carried, clock as int)),
        r.0@ == chosen(policy, state_of(old(pending)@, old(queue)@, carried, clock as int)),
        views(final(queue)@) == ready_queue(state_of(old(pending)@, old(queue)@, carried, clock as int)).remove(
            select(policy, ready_queue(state_of(old(pending)@, old(queue)@, carried, clock as int))),
        ),
        views(final(pending)@) == waiting(views(old(pending)@), r.1 as int),
{
    let ghost st = state_of(pending@, queue@, carried, clock as int);
    proof {
        lemma_dispatch(policy, st);
    }
    let mut now = clock;
    if queue.len() == 0 && carried.is_none() {
        let earliest = find_earliest_arrival(pending);
        if earliest > now {
            now = earliest;
        }
    }
    enqueue_arrivals(pending, queue, now);
    let ghost joined = views(queue@);
    match carried {
        Some(c) => {
            queue.push(c);
            assert(views(queue@) =~= joined.push(c@));
        },
        None => {},
    }
    assert(views(queue@) =~= ready_queue(st));
    let i = policy.select(queue);
    let p = queue.remove(i);
    assert(views(queue@) =~= ready_queue(st).remove(i as int));
    (p, now)
}

/// Runs `policy` over the processes until each has finished. Returns the
/// Gantt timeline and leaves each process with its completion, turnaround
/// and waiting time. An input that the policy refuses, or a run that does
/// not fit a 32-bit clock, gives the error and leaves the processes as they
/// are.
pub fn schedule(processes: &mut Vec<Process>, policy: Policy) -> (r: Result<Vec<Segment>, ScheduleError>)
    ensures
        timeline_result(r) == outcome(policy, views(old(processes)@)),
        views(final(processes)@) == final_records(policy, views(old(processes)@)),
        run_is_sound(views(old(processes)@), views(final(processes)@), r),
        policy is RoundRobin ==> run_keeps_quantum(r, policy->quantum as int),
{
    let ghost given = views(processes@);
    match validate(processes, policy) {
        Err(e) => {
            return Err(e);
        },
        Ok(_) => {},
    }
    let merge = policy.is_preemptive();
    let carries = match policy {
        Policy::RoundRobin { .. } => true,
        _ => false,
    };
    let mut pending: Vec<Process> = sort_by_arrival(processes, policy.orders_by_priority());
    let mut records: Vec<Process> = copy_processes(processes);
    let mut queue: Vec<Process> = Vec::new();
    let mut carried: Option<Process> = None;
    let mut clock: i32 = 0;
    let mut timeline: Vec<Segment> = Vec::new();
    let ghost mut st = initial(policy, given);
    let ghost mut raw: Seq<SegmentView> = Seq::empty();
    proof {
        lemma_initial(policy, given);
        lemma_consistent_runnable(policy, given, raw, st, given);
        assert(raw + slices(policy, st) =~= slices(policy, st));
        assert(views(queue@) =~= st.queue);
        assert(st == state_of(pending@, queue@, carried, clock as int));
        assert(segment_views(timeline@) =~= timeline_from(raw, merge));
    }
    while pending.len() > 0 || queue.len() > 0 || carried.is_some()
        invariant
            rejection(policy, given) is None,
            merge == is_preemptive(policy),
            carries == (policy is RoundRobin),
            views(processes@) == given,
            st == state_of(pending@, queue@, carried, clock as int),
            consistent(policy, given, raw, st, views(records@)),
            all_slices(policy, given) == raw + slices(policy, st),
            segment_views(timeline@) == timeline_from(raw, merge),
        decreases work(members(st)),
    {
        let ghost seg = next_slice(policy, st);
        let ghost next = advance(policy, st);
        proof {
            lemma_turn(policy, given, raw, st, views(records@));
        }
        let (mut p, now) = dispatch(&mut pending, &mut queue, carried, clock, policy);
        carried = None;
        let turn = policy.slice_len(&p);
        if turn > i32::MAX - now {
            return Err(ScheduleError::Overflow);
        }
        let end = now + turn;
        record_slice(&mut timeline, &p.id, now, end, merge);
        if turn >= p.burst_time {
            let found = update_process_times(&mut records, &p.id, end);
        } else {
            let ghost rest = views(queue@);
            p.burst_time = p.burst_time - turn;
            if carries {
                carried = Some(p);
            } else {
                queue.push(p);
                assert(views(queue@) =~= rest.push(p@));
            }
        }
        clock = end;
        proof {
            lemma_timeline_push(raw, seg, merge);
            raw = raw.push(seg);
            st = next;
        }
    }
    proof {
        lemma_finish(policy, given, raw, st, views(records@));
    }
    *processes = records;
    Ok(timeline)
}

/// Round Robin: the ready processes take turns of at most `quantum` time
/// units, in the order in which they arrived; a process whose turn ends
/// before it is done queues up again behind those that arrived meanwhile.
pub fn round_robin(processes: &mut Vec<Process>, quantum: i32) -> (r: Result<Vec<Segment>, ScheduleError>)
    ensures
        timeline_result(r) == outcome(round_robin_policy(quantum), views(old(processes)@)),
        views(final(processes)@) == final_records(round_robin_policy(quantum), views(old(processes)@)),
        run_is_sound(views(old(processes)@), views(final(processes)@), r),
        run_keeps_quantum(r, quantum as int),
{
    schedule(processes, Policy::RoundRobin { quantum })
}

/// The Round Robin policy with the given quantum.
pub open spec fn round_robin_policy(quantum: i32) -> Policy {
    Policy::RoundRobin { quantum }
}

/// Shortest Job First without preemption: whenever the CPU is free, the
/// arrived process with the shortest burst runs until it is done. Among
/// equal bursts the earliest arrival wins, then the order given.
pub fn non_preemptive_sjf(processes: &mut Vec<Process>) -> (r: Result<Vec<Segment>, ScheduleError>)
    ensures
        timeline_result(r) == outcome(Policy::ShortestJobFirst, views(old(processes)@)),
        views(final(processes)@) == final_records(Policy::ShortestJobFirst, views(old(processes)@)),
        run_is_sound(views(old(processes)@), views(final(processes)@), r),
{
    schedule(processes, Policy::ShortestJobFirst)
}

/// Shortest Job First with preemption: in each time unit the arrived
/// process with the least remaining burst runs. Among equal remainders the
/// earliest arrival wins, then the one that has waited in the queue longest.
pub fn preemptive_sjf(processes: &mut Vec<Process>) -> (r: Result<Vec<Segment>, ScheduleError>)
    ensures
        timeline_result(r) == outcome(Policy::ShortestRemainingTime, views(old(processes)@)),
        views(final(processes)@) == final_records(Policy::ShortestRemainingTime, views(old(processes)@)),
        run_is_sound(views(old(processes)@), views(final(processes)@), r),
{
    schedule(processes, Policy::ShortestRemainingTime)
}

/// Priority scheduling without preemption: whenever the CPU is free, the
/// arrived process with the lowest priority value runs until it is done.
/// Among equal priorities the earliest arrival wins, then the order given.
pub fn non_preemptive_priority(processes: &mut Vec<Process>) -> (r: Result<Vec<Segment>, ScheduleError>)
    ensures
        timeline_result(r) == outcome(Policy::Priority, views(old(processes)@)),
        views(final(processes)@) == final_records(Policy::Priority, views(old(processes)@)),
        run_is_sound(views(old(processes)@), views(final(processes)@), r),
{
    schedule(processes, Policy::Priority)
}

/// Priority scheduling with preemption: in each time unit the arrived
/// process with the lowest priority value runs. Among equal priorities the
/// earliest arrival wins, then the one that has waited in the queue longest.
pub fn preemptive_priority(processes: &mut Vec<Process>) -> (r: Result<Vec<Segment>, ScheduleError>)
    ensures
        timeline_result(r) == outcome(Policy::PreemptivePriority, views(old(processes)@)),
        views(final(processes)@) == final_records(Policy::PreemptivePriority, views(old(processes)@)),
        run_is_sound(views(old(processes)@), views(final(processes)@), r),
{
    schedule(processes, Policy::PreemptivePriority)
}

} // verus!
