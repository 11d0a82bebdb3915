//! Simulation of classical CPU-scheduling disciplines over a list of
//! processes: Round Robin, Shortest-Job-First and Priority scheduling, the
//! last two with and without preemption.
//!
//! Every scheduler yields a Gantt timeline and fills in the completion,
//! turnaround and waiting time of each process.

pub mod bookkeeping;
pub mod chart;
pub mod engine;
pub mod laws;
pub mod metrics;
pub mod policy;
pub mod process;
pub mod ready;
pub mod scheduler;
pub mod timeline;

pub use process::{update_process_times, Process, ProcessView};
pub use chart::{boundaries, label_offset, labels};
pub use timeline::{Segment, SegmentView};
pub use policy::{validate, Policy, ScheduleError};
pub use scheduler::{
    non_preemptive_priority, non_preemptive_sjf, preemptive_priority, preemptive_sjf, round_robin, schedule,
};
pub use metrics::{calc_avg_times, Totals};
