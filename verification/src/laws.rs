//! What holds of every run, proved from the definition of a run.

use crate::bookkeeping::{all_settled, lemma_finish, lemma_initial, lemma_run, within_quantum};
use crate::engine::{all_slices, final_records, initial, outcome, timeline_of, with_metrics};
use crate::policy::{is_preemptive, Policy, rejection, ScheduleError};
use crate::process::ProcessView;
use crate::ready::work;
use crate::scheduler::round_robin_policy;
use crate::timeline::{in_order, is_joined, lemma_coalesce_joined, SegmentView, total_duration};
use vstd::prelude::*;

verus! {

/// Every process of an accepted input ends up with consistent metrics: its
/// turnaround is its completion less its arrival, its waiting time is its
/// turnaround less its burst as given, and neither is negative.
pub proof fn lemma_metrics_settled(policy: Policy, given: Seq<ProcessView>)
    requires
        rejection(policy, given) is None,
    ensures
        all_settled(given, with_metrics(given, timeline_of(policy, given))),
{
    lemma_initial(policy, given);
    let end = lemma_run(policy, given, Seq::empty(), initial(policy, given), given);
    assert(Seq::<SegmentView>::empty() + all_slices(policy, given) =~= all_slices(policy, given));
    lemma_finish(policy, given, all_slices(policy, given), end.0, end.1);
}

/// The segments of a timeline add up to the burst times of the processes:
/// idle time is no part of it, and joining the time units of a preemptive
/// run neither adds nor loses any.
pub proof fn lemma_cpu_time_conserved(policy: Policy, given: Seq<ProcessView>)
    requires
        rejection(policy, given) is None,
    ensures
        total_duration(timeline_of(policy, given)) == work(given),
{
    lemma_initial(policy, given);
    let end = lemma_run(policy, given, Seq::empty(), initial(policy, given), given);
    assert(Seq::<SegmentView>::empty() + all_slices(policy, given) =~= all_slices(policy, given));
    lemma_finish(policy, given, all_slices(policy, given), end.0, end.1);
}

/// The segments of a timeline follow each other in time: each has a
/// positive length, and none starts before the one before it has ended.
pub proof fn lemma_timeline_in_order(policy: Policy, given: Seq<ProcessView>)
    requires
        rejection(policy, given) is None,
    ensures
        in_order(timeline_of(policy, given)),
{
    lemma_initial(policy, given);
    let end = lemma_run(policy, given, Seq::empty(), initial(policy, given), given);
    assert(Seq::<SegmentView>::empty() + all_slices(policy, given) =~= all_slices(policy, given));
    lemma_finish(policy, given, all_slices(policy, given), end.0, end.1);
}

/// In the timeline of a preemptive policy no segment continues the one
/// before it: a process that keeps the CPU from one time unit to the next
/// has one segment for all of them.
pub proof fn lemma_preemptive_timeline_joined(policy: Policy, given: Seq<ProcessView>)
    requires
        is_preemptive(policy),
    ensures
        is_joined(timeline_of(policy, given)),
{
    lemma_coalesce_joined(all_slices(policy, given));
}

/// Under Round Robin no segment is longer than the quantum, and a segment
/// that is shorter is the last one of its process.
pub proof fn lemma_round_robin_keeps_quantum(given: Seq<ProcessView>, quantum: i32)
    requires
        rejection(round_robin_policy(quantum), given) is None,
    ensures
        within_quantum(timeline_of(round_robin_policy(quantum), given), quantum as int),
{
    let policy = round_robin_policy(quantum);
    lemma_initial(policy, given);
    let end = lemma_run(policy, given, Seq::empty(), initial(policy, given), given);
    assert(Seq::<SegmentView>::empty() + all_slices(policy, given) =~= all_slices(policy, given));
    lemma_finish(policy, given, all_slices(policy, given), end.0, end.1);
}

/// Two runs of one policy over the same processes give the same result and
/// leave the same records.
pub proof fn lemma_runs_agree(
    policy: Policy,
    given: Seq<ProcessView>,
    first: Result<Seq<SegmentView>, ScheduleError>,
    first_records: Seq<ProcessView>,
    second: Result<Seq<SegmentView>, ScheduleError>,
    second_records: Seq<ProcessView>,
)
    requires
        first == outcome(policy, given),
        first_records == final_records(policy, given),
        second == outcome(policy, given),
        second_records == final_records(policy, given),
    ensures
        first == second,
        first_records == second_records,
{
}

} // verus!
