//! Totals of the metrics over a list of finished processes.

use crate::policy::ScheduleError;
use crate::process::{Process, ProcessView, views};
use crate::ready::tally;
use vstd::prelude::*;

verus! {

/// The sums from which the average turnaround and waiting time are taken:
/// each average is its total divided by the number of processes.
#[derive(Clone, Copy, Debug, PartialEq, Eq, Structural)]
pub struct Totals {
    pub total_turnaround_time: i64,
    pub total_waiting_time: i64,
    pub number_of_processes: usize,
}

/// The weight that counts a process by its turnaround time.
pub open spec fn by_turnaround() -> spec_fn(ProcessView) -> int {
    |p: ProcessView| p.turnaround_time
}

/// The weight that counts a process by its waiting time.
pub open spec fn by_waiting() -> spec_fn(ProcessView) -> int {
    |p: ProcessView| p.waiting_time
}

/// The sum of the turnaround times.
pub open spec fn total_turnaround(ps: Seq<ProcessView>) -> int {
    tally(ps, by_turnaround())
}

/// The sum of the waiting times.
pub open spec fn total_waiting(ps: Seq<ProcessView>) -> int {
    tally(ps, by_waiting())
}

/// Whether `x` fits a signed 64-bit integer.
pub open spec fn fits_i64(x: int) -> bool {
    i64::MIN <= x <= i64::MAX
}

/// Adds up the turnaround and the waiting times of the processes. An empty
/// list has no average and gives `EmptyInput`; totals beyond 64 bits give
/// `Overflow`.
pub fn calc_avg_times(processes: &Vec<Process>) -> (r: Result<Totals, ScheduleError>)
    ensures
        match r {
            Ok(totals) => {
                &&& processes.len() > 0
                &&& totals.number_of_processes == processes.len()
                &&& totals.total_turnaround_time == total_turnaround(views(processes@))
                &&& totals.total_waiting_time == total_waiting(views(processes@))
            },
            Err(e) => if processes.len() == 0 {
                e == ScheduleError::EmptyInput
            } else {
                e == ScheduleError::Overflow && !(fits_i64(total_turnaround(views(processes@))) && fits_i64(
                    total_waiting(views(processes@)),
                ))
            },
        },
{
    let ghost all = views(processes@);
    let n: usize = processes.len();
    if n == 0 {
        return Err(ScheduleError::EmptyInput);
    }
    let mut turnaround: i128 = 0;
    let mut waiting: i128 = 0;
    let mut i: usize = 0;
    while i < n
        invariant
            i <= n,
            n == processes.len(),
            all == views(processes@),
            turnaround == total_turnaround(all.take(i as int)),
            waiting == total_waiting(all.take(i as int)),
            -2147483648 * i <= turnaround <= 2147483648 * i,
            -2147483648 * i <= waiting <= 2147483648 * i,
        decreases n - i,
    {
        proof {
            let next = all.take(i + 1);
            assert(next.drop_last() =~= all.take(i as int));
            assert(next.last() == processes@[i as int]@);
        }
        turnaround = turnaround + processes[i].turnaround_time as i128;
        waiting = waiting + processes[i].waiting_time as i128;
        i += 1;
    }
    assert(all.take(n as int) =~= all);
    if turnaround < i64::MIN as i128 || turnaround > i64::MAX as i128 || waiting < i64::MIN as i128 || waiting
        > i64::MAX as i128 {
        return Err(ScheduleError::Overflow);
    }
    Ok(
        Totals {
            total_turnaround_time: turnaround as i64,
            total_waiting_time: waiting as i64,
            number_of_processes: n,
        },
    )
}

} // verus!
