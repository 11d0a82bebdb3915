//! Process records and their mathematical model.

use vstd::prelude::*;

verus! {

/// One simulated process: its inputs (arrival, burst, priority) and the
/// metrics computed when it finishes.
#[derive(Debug, PartialEq, Eq)]
pub struct Process {
    pub id: String,
    pub arrival_time: i32,
    pub burst_time: i32,
    pub priority: i32,
    pub completion_time: i32,
    pub turnaround_time: i32,
    pub waiting_time: i32,
}

/// The mathematical model of a [`Process`].
pub struct ProcessView {
    pub id: Seq<char>,
    pub arrival_time: int,
    pub burst_time: int,
    pub priority: int,
    pub completion_time: int,
    pub turnaround_time: int,
    pub waiting_time: int,
}

impl View for Process {
    type V = ProcessView;

    open spec fn view(&self) -> ProcessView {
        ProcessView {
            id: self.id@,
            arrival_time: self.arrival_time as int,
            burst_time: self.burst_time as int,
            priority: self.priority as int,
            completion_time: self.completion_time as int,
            turnaround_time: self.turnaround_time as int,
            waiting_time: self.waiting_time as int,
        }
    }
}

impl Clone for Process {
    fn clone(&self) -> (copy: Self)
        ensures
            copy@ == self@,
    {
        Process {
            id: self.id.clone(),
            arrival_time: self.arrival_time,
            burst_time: self.burst_time,
            priority: self.priority,
            completion_time: self.completion_time,
            turnaround_time: self.turnaround_time,
            waiting_time: self.waiting_time,
        }
    }
}

impl Process {
    /// A fresh process with zeroed metrics.
    pub fn new(id: String, arrival_time: i32, burst_time: i32, priority: i32) -> (p: Process)
        ensures
            p@ == (ProcessView {
                id: id@,
                arrival_time: arrival_time as int,
                burst_time: burst_time as int,
                priority: priority as int,
                completion_time: 0,
                turnaround_time: 0,
                waiting_time: 0,
            }),
    {
        Process {
            id,
            arrival_time,
            burst_time,
            priority,
            completion_time: 0,
            turnaround_time: 0,
            waiting_time: 0,
        }
    }
}

/// The models of a sequence of processes, element by element.
pub open spec fn views(ps: Seq<Process>) -> Seq<ProcessView> {
    Seq::new(ps.len(), |i: int| ps[i]@)
}

/// `p` with its metrics recorded for a completion at time `completion`.
pub open spec fn completed(p: ProcessView, completion: int) -> ProcessView {
    ProcessView {
        completion_time: completion,
        turnaround_time: completion - p.arrival_time,
        waiting_time: completion - p.arrival_time - p.burst_time,
        ..p
    }
}

/// Whether some process of `ps` at an index below `n` carries `id`.
pub open spec fn has_id_before(ps: Seq<ProcessView>, id: Seq<char>, n: int) -> bool {
    exists|i: int| 0 <= i < n && i < ps.len() && #[trigger] ps[i].id == id
}

/// The position of the first process of `ps` that carries `id`, or
/// `ps.len()` when none does.
pub open spec fn position_of(ps: Seq<ProcessView>, id: Seq<char>) -> int
    decreases ps.len(),
{
    if ps.len() == 0 {
        0
    } else if ps[0].id == id {
        0
    } else {
        1 + position_of(ps.drop_first(), id)
    }
}

/// `position_of` is the least index that carries `id`.
pub proof fn lemma_position_of(ps: Seq<ProcessView>, id: Seq<char>)
    ensures
        0 <= position_of(ps, id) <= ps.len(),
        position_of(ps, id) < ps.len() ==> ps[position_of(ps, id)].id == id,
        forall|i: int| 0 <= i < position_of(ps, id) ==> (#[trigger] ps[i]).id != id,
    decreases ps.len(),
{
    if ps.len() > 0 && ps[0].id != id {
        let rest = ps.drop_first();
        lemma_position_of(rest, id);
        assert forall|i: int| 0 <= i < position_of(ps, id) implies (#[trigger] ps[i]).id != id by {
            if i > 0 {
                assert(ps[i] == rest[i - 1]);
            }
        }
    }
}

/// Whether recording a completion at `completion` for `p` stays within the
/// 32-bit range of the metrics.
pub open spec fn metrics_fit(p: ProcessView, completion: int) -> bool {
    &&& i32::MIN <= completion - p.arrival_time <= i32::MAX
    &&& i32::MIN <= completion - p.arrival_time - p.burst_time <= i32::MAX
}

/// Records the completion of the process called `id` at `completion_time`:
/// the first process with that id gets its completion, turnaround and waiting
/// time. When no process carries the id, nothing changes and the result is
/// `false`.
pub fn update_process_times(processes: &mut Vec<Process>, id: &String, completion_time: i32) -> (found: bool)
    requires
        position_of(views(old(processes)@), id@) < old(processes).len() ==> metrics_fit(
            views(old(processes)@)[position_of(views(old(processes)@), id@)],
            completion_time as int,
        ),
    ensures
        found == (position_of(views(old(processes)@), id@) < old(processes).len()),
        found ==> views(final(processes)@) == views(old(processes)@).update(
            position_of(views(old(processes)@), id@),
            completed(
                views(old(processes)@)[position_of(views(old(processes)@), id@)],
                completion_time as int,
            ),
        ),
        !found ==> views(final(processes)@) == views(old(processes)@),
{
    let ghost before = views(processes@);
    proof {
        lemma_position_of(before, id@);
    }
    let mut i: usize = 0;
    while i < processes.len()
        invariant
            i <= processes.len(),
            views(processes@) == before,
            before == views(old(processes)@),
            position_of(before, id@) < before.len() ==> metrics_fit(
                before[position_of(before, id@)],
                completion_time as int,
            ),
            forall|j: int| 0 <= j < i ==> (#[trigger] before[j]).id != id@,
        decreases processes.len() - i,
    {
        if processes[i].id == *id {
            proof {
                lemma_position_of(before, id@);
                assert(before[i as int].id == id@);
                assert(position_of(before, id@) == i);
            }
            let arrival: i32 = processes[i].arrival_time;
            let burst: i32 = processes[i].burst_time;
            let turnaround: i32 = completion_time - arrival;
            let done = Process {
                id: processes[i].id.clone(),
                arrival_time: arrival,
                burst_time: burst,
                priority: processes[i].priority,
                completion_time,
                turnaround_time: turnaround,
                waiting_time: turnaround - burst,
            };
            processes.set(i, done);
            assert(views(processes@) =~= before.update(i as int, completed(before[i as int], completion_time as int)));
            return true;
        }
        assert(before[i as int].id != id@);
        i += 1;
    }
    proof {
        lemma_position_of(before, id@);
        if position_of(before, id@) < before.len() {
            assert(before[position_of(before, id@)].id == id@);
        }
    }
    false
}

} // verus!
