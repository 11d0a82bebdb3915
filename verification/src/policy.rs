//! The scheduling policies, what they reject, and how each chooses the next
//! process and the length of its turn.

use crate::process::{Process, ProcessView, views};
use vstd::prelude::*;

verus! {

/// A scheduling discipline.
#[derive(Clone, Copy, Debug, PartialEq, Eq, Structural)]
pub enum Policy {
    /// First come, first served, in turns of at most `quantum` time units.
    RoundRobin { quantum: i32 },
    /// The shortest burst first; a process keeps the CPU until it is done.
    ShortestJobFirst,
    /// The shortest remaining burst first, chosen anew each time unit.
    ShortestRemainingTime,
    /// The lowest priority value first; a process keeps the CPU until it is
    /// done.
    Priority,
    /// The lowest priority value first, chosen anew each time unit.
    PreemptivePriority,
}

/// Why a simulation was refused.
#[derive(Clone, Copy, Debug, PartialEq, Eq, Structural)]
pub enum ScheduleError {
    /// There is no process to schedule.
    EmptyInput,
    /// The Round Robin quantum is zero or negative.
    NonPositiveQuantum,
    /// Some process has a burst time of zero or less.
    NonPositiveBurst,
    /// Some process arrives before time zero.
    NegativeArrival,
    /// Two processes carry the same id.
    DuplicateId,
    /// A time, or a sum of times, is larger than its integer type can hold.
    Overflow,
}

/// Every process needs at least one unit of CPU time.
pub open spec fn positive_bursts(ps: Seq<ProcessView>) -> bool {
    forall|i: int| 0 <= i < ps.len() ==> (#[trigger] ps[i]).burst_time >= 1
}

/// No process arrives before time zero.
pub open spec fn arrivals_non_negative(ps: Seq<ProcessView>) -> bool {
    forall|i: int| 0 <= i < ps.len() ==> (#[trigger] ps[i]).arrival_time >= 0
}

/// No two processes share an id.
pub open spec fn distinct_ids(ps: Seq<ProcessView>) -> bool {
    forall|i: int, j: int| 0 <= i < j < ps.len() ==> (#[trigger] ps[i]).id != (#[trigger] ps[j]).id
}

/// A Round Robin quantum is at least one time unit.
pub open spec fn quantum_ok(policy: Policy) -> bool {
    policy matches Policy::RoundRobin { quantum } ==> quantum >= 1
}

/// The reason for which `policy` refuses the processes `ps`, if there is one.
/// Where several apply, the first in this order is given: no process, a bad
/// quantum, a bad burst, a bad arrival, a repeated id.
pub open spec fn rejection(policy: Policy, ps: Seq<ProcessView>) -> Option<ScheduleError> {
    if ps.len() == 0 {
        Some(ScheduleError::EmptyInput)
    } else if !quantum_ok(policy) {
        Some(ScheduleError::NonPositiveQuantum)
    } else if !positive_bursts(ps) {
        Some(ScheduleError::NonPositiveBurst)
    } else if !arrivals_non_negative(ps) {
        Some(ScheduleError::NegativeArrival)
    } else if !distinct_ids(ps) {
        Some(ScheduleError::DuplicateId)
    } else {
        None
    }
}

/// Whether processes that arrive together are queued by ascending priority.
/// Otherwise they keep the order in which they were given.
pub open spec fn orders_by_priority(policy: Policy) -> bool {
    !(policy is ShortestJobFirst || policy is Priority)
}

/// Whether the running process can be interrupted after one time unit.
pub open spec fn is_preemptive(policy: Policy) -> bool {
    policy is ShortestRemainingTime || policy is PreemptivePriority
}

/// Whether `policy` strictly prefers `a` to `b`: a smaller burst (or
/// priority value), or the same and an earlier arrival. Round Robin prefers
/// nobody.
pub open spec fn better(policy: Policy, a: ProcessView, b: ProcessView) -> bool {
    match policy {
        Policy::RoundRobin { .. } => false,
        Policy::ShortestJobFirst | Policy::ShortestRemainingTime => a.burst_time < b.burst_time || (
        a.burst_time == b.burst_time && a.arrival_time < b.arrival_time),
        Policy::Priority | Policy::PreemptivePriority => a.priority < b.priority || (a.priority
            == b.priority && a.arrival_time < b.arrival_time),
    }
}

/// The position in the ready queue of the process that runs next: the first
/// one to which no other is preferred.
pub open spec fn select(policy: Policy, ready: Seq<ProcessView>) -> int
    decreases ready.len(),
{
    if ready.len() <= 1 {
        0
    } else {
        let i = select(policy, ready.drop_last());
        if better(policy, ready.last(), ready[i]) {
            ready.len() - 1
        } else {
            i
        }
    }
}

/// The length of the turn that `policy` gives to `p`.
pub open spec fn slice_len(policy: Policy, p: ProcessView) -> int {
    match policy {
        Policy::RoundRobin { quantum } => if p.burst_time <= quantum {
            p.burst_time
        } else {
            quantum as int
        },
        Policy::ShortestJobFirst | Policy::Priority => p.burst_time,
        Policy::ShortestRemainingTime | Policy::PreemptivePriority => 1,
    }
}

/// The selected process is one to which no process in the queue is
/// preferred, and it is preferred to every process that stands before it.
pub proof fn lemma_select_first_best(policy: Policy, ready: Seq<ProcessView>)
    requires
        ready.len() > 0,
    ensures
        0 <= select(policy, ready) < ready.len(),
        forall|j: int| 0 <= j < ready.len() ==> !better(policy, #[trigger] ready[j], ready[select(policy, ready)]),
        forall|j: int| 0 <= j < select(policy, ready) ==> better(policy, ready[select(policy, ready)], #[trigger] ready[j]),
    decreases ready.len(),
{
    if ready.len() > 1 {
        let front = ready.drop_last();
        lemma_select_first_best(policy, front);
        let i = select(policy, front);
        let s = select(policy, ready);
        assert forall|j: int| 0 <= j < ready.len() implies !better(policy, #[trigger] ready[j], ready[s]) by {
            if j < ready.len() - 1 {
                assert(ready[j] == front[j]);
                assert(!better(policy, front[j], front[i]));
            }
        }
        assert forall|j: int| 0 <= j < s implies better(policy, ready[s], #[trigger] ready[j]) by {
            assert(ready[j] == front[j]);
            if s == i {
                assert(better(policy, front[i], front[j]));
            } else {
                assert(!better(policy, front[j], front[i]));
            }
        }
    }
}

impl Policy {
    /// Whether processes that arrive together are queued by priority.
    pub fn orders_by_priority(&self) -> (b: bool)
        ensures
            b == orders_by_priority(*self),
    {
        match self {
            Policy::ShortestJobFirst | Policy::Priority => false,
            _ => true,
        }
    }

    /// Whether the running process can be interrupted after one time unit.
    pub fn is_preemptive(&self) -> (b: bool)
        ensures
            b == is_preemptive(*self),
    {
        match self {
            Policy::ShortestRemainingTime | Policy::PreemptivePriority => true,
            _ => false,
        }
    }

    /// Whether this policy strictly prefers `a` to `b`.
    pub fn prefers(&self, a: &Process, b: &Process) -> (r: bool)
        ensures
            r == better(*self, a@, b@),
    {
        match self {
            Policy::RoundRobin { .. } => false,
            Policy::ShortestJobFirst | Policy::ShortestRemainingTime => a.burst_time < b.burst_time
                || (a.burst_time == b.burst_time && a.arrival_time < b.arrival_time),
            Policy::Priority | Policy::PreemptivePriority => a.priority < b.priority || (a.priority
                == b.priority && a.arrival_time < b.arrival_time),
        }
    }

    /// The length of the turn given to `p`.
    pub fn slice_len(&self, p: &Process) -> (d: i32)
        ensures
            d == slice_len(*self, p@),
    {
        match self {
            Policy::RoundRobin { quantum } => if p.burst_time <= *quantum {
                p.burst_time
            } else {
                *quantum
            },
            Policy::ShortestJobFirst | Policy::Priority => p.burst_time,
            Policy::ShortestRemainingTime | Policy::PreemptivePriority => 1,
        }
    }

    /// The position in `ready` of the process that runs next.
    pub fn select(&self, ready: &Vec<Process>) -> (chosen: usize)
        requires
            ready.len() > 0,
        ensures
            chosen == select(*self, views(ready@)),
            chosen < ready.len(),
    {
        let ghost all = views(ready@);
        let mut chosen: usize = 0;
        let mut i: usize = 1;
        assert(all.take(1).len() <= 1);
        while i < ready.len()
            invariant
                1 <= i <= ready.len(),
                chosen < i,
                all == views(ready@),
                chosen == select(*self, all.take(i as int)),
            decreases ready.len() - i,
        {
            proof {
                let next = all.take(i + 1);
                assert(next.drop_last() =~= all.take(i as int));
                assert(next.last() == ready@[i as int]@);
                assert(next[chosen as int] == ready@[chosen as int]@);
            }
            if self.prefers(&ready[i], &ready[chosen]) {
                chosen = i;
            }
            i += 1;
        }
        assert(all.take(i as int) =~= all);
        chosen
    }
}

/// Checks the processes against what `policy` accepts.
#[verifier::loop_isolation(false)]
pub fn validate(processes: &Vec<Process>, policy: Policy) -> (r: Result<(), ScheduleError>)
    ensures
        r == match rejection(policy, views(processes@)) {
            Some(e) => Err::<(), ScheduleError>(e),
            None => Ok(()),
        },
{
    let ghost ps = views(processes@);
    let n: usize = processes.len();
    if n == 0 {
        return Err(ScheduleError::EmptyInput);
    }
    if let Policy::RoundRobin { quantum } = policy {
        if quantum <= 0 {
            return Err(ScheduleError::NonPositiveQuantum);
        }
    }
    let mut i: usize = 0;
    while i < n
        invariant
            i <= n,
            n == processes.len(),
            ps == views(processes@),
            forall|k: int| 0 <= k < i ==> (#[trigger] ps[k]).burst_time >= 1,
        decreases n - i,
    {
        if processes[i].burst_time <= 0 {
            assert(ps[i as int].burst_time < 1);
            return Err(ScheduleError::NonPositiveBurst);
        }
        i += 1;
    }
    i = 0;
    while i < n
        invariant
            i <= n,
            n == processes.len(),
            ps == views(processes@),
            forall|k: int| 0 <= k < i ==> (#[trigger] ps[k]).arrival_time >= 0,
        decreases n - i,
    {
        if processes[i].arrival_time < 0 {
            assert(ps[i as int].arrival_time < 0);
            return Err(ScheduleError::NegativeArrival);
        }
        i += 1;
    }
    i = 0;
    while i < n
        invariant
            i <= n,
            n == processes.len(),
            ps == views(processes@),
            forall|a: int, b: int| 0 <= a < b < i ==> (#[trigger] ps[a]).id != (#[trigger] ps[b]).id,
        decreases n - i,
    {
        let mut j: usize = 0;
        while j < i
            invariant
                j <= i < n,
                n == processes.len(),
                ps == views(processes@),
                forall|a: int| 0 <= a < j ==> (#[trigger] ps[a]).id != ps[i as int].id,
            decreases i - j,
        {
            if processes[j].id == processes[i].id {
                assert(ps[j as int].id == ps[i as int].id);
                return Err(ScheduleError::DuplicateId);
            }
            j += 1;
        }
        i += 1;
    }
    Ok(())
}

} // verus!
