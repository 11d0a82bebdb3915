use cpu_scheduler::{
    non_preemptive_priority, non_preemptive_sjf, preemptive_priority, preemptive_sjf, round_robin, schedule, Policy,
    Process, ScheduleError, Segment,
};

fn process(id: &str, arrival_time: i32, burst_time: i32, priority: i32) -> Process {
    Process::new(id.to_string(), arrival_time, burst_time, priority)
}

fn segment(id: &str, start: i32, end: i32) -> Segment {
    Segment { id: id.to_string(), start, end }
}

fn finished(id: &str, arrival: i32, burst: i32, priority: i32, completion: i32) -> Process {
    Process {
        id: id.to_string(),
        arrival_time: arrival,
        burst_time: burst,
        priority,
        completion_time: completion,
        turnaround_time: completion - arrival,
        waiting_time: completion - arrival - burst,
    }
}

fn sample() -> Vec<Process> {
    vec![
        process("P0", 0, 6, 3),
        process("P1", 1, 4, 3),
        process("P2", 5, 6, 1),
        process("P3", 6, 6, 1),
        process("P4", 7, 6, 5),
        process("P5", 8, 6, 6),
    ]
}

fn two() -> Vec<Process> {
    vec![process("P0", 0, 6, 3), process("P1", 1, 4, 1)]
}

#[test]
fn round_robin_first_segment_goes_to_the_only_arrival() {
    let mut processes = two();
    let timeline = round_robin(&mut processes, 4).unwrap();
    assert_eq!(timeline[0], segment("P0", 0, 4));
    assert_eq!(timeline, vec![segment("P0", 0, 4), segment("P1", 4, 8), segment("P0", 8, 10)]);
    assert_eq!(processes, vec![finished("P0", 0, 6, 3, 10), finished("P1", 1, 4, 1, 8)]);
}

#[test]
fn sjf_runs_the_sole_eligible_process_first() {
    let mut processes = two();
    let timeline = non_preemptive_sjf(&mut processes).unwrap();
    assert_eq!(timeline, vec![segment("P0", 0, 6), segment("P1", 6, 10)]);
    assert_eq!(processes, vec![finished("P0", 0, 6, 3, 6), finished("P1", 1, 4, 1, 10)]);
}

#[test]
fn priority_runs_the_sole_eligible_process_first() {
    let mut processes = two();
    let timeline = non_preemptive_priority(&mut processes).unwrap();
    assert_eq!(timeline, vec![segment("P0", 0, 6), segment("P1", 6, 10)]);
    assert_eq!(processes, vec![finished("P0", 0, 6, 3, 6), finished("P1", 1, 4, 1, 10)]);
}

#[test]
fn single_process_under_every_policy() {
    let policies = [
        Policy::RoundRobin { quantum: 4 },
        Policy::RoundRobin { quantum: 5 },
        Policy::RoundRobin { quantum: 9 },
        Policy::ShortestJobFirst,
        Policy::ShortestRemainingTime,
        Policy::Priority,
        Policy::PreemptivePriority,
    ];
    for policy in policies {
        let mut processes = vec![process("P0", 0, 5, 0)];
        schedule(&mut processes, policy).unwrap();
        assert_eq!(processes[0].completion_time, 5);
        assert_eq!(processes[0].turnaround_time, 5);
        assert_eq!(processes[0].waiting_time, 0);
    }
}

#[test]
fn single_process_timelines() {
    let mut processes = vec![process("P0", 0, 5, 0)];
    assert_eq!(
        round_robin(&mut processes, 2).unwrap(),
        vec![segment("P0", 0, 2), segment("P0", 2, 4), segment("P0", 4, 5)]
    );
    let mut processes = vec![process("P0", 0, 5, 0)];
    assert_eq!(preemptive_sjf(&mut processes).unwrap(), vec![segment("P0", 0, 5)]);
    let mut processes = vec![process("P0", 0, 5, 0)];
    assert_eq!(preemptive_priority(&mut processes).unwrap(), vec![segment("P0", 0, 5)]);
    let mut processes = vec![process("P0", 0, 5, 0)];
    assert_eq!(non_preemptive_sjf(&mut processes).unwrap(), vec![segment("P0", 0, 5)]);
}

#[test]
fn empty_input_is_rejected_by_every_scheduler() {
    let mut none: Vec<Process> = Vec::new();
    assert_eq!(round_robin(&mut none, 4), Err(ScheduleError::EmptyInput));
    assert_eq!(non_preemptive_sjf(&mut none), Err(ScheduleError::EmptyInput));
    assert_eq!(preemptive_sjf(&mut none), Err(ScheduleError::EmptyInput));
    assert_eq!(non_preemptive_priority(&mut none), Err(ScheduleError::EmptyInput));
    assert_eq!(preemptive_priority(&mut none), Err(ScheduleError::EmptyInput));
    assert!(none.is_empty());
}

#[test]
fn empty_input_comes_before_a_bad_quantum() {
    let mut none: Vec<Process> = Vec::new();
    assert_eq!(round_robin(&mut none, 0), Err(ScheduleError::EmptyInput));
}

#[test]
fn round_robin_rejects_a_quantum_that_is_not_positive() {
    let mut processes = sample();
    assert_eq!(round_robin(&mut processes, 0), Err(ScheduleError::NonPositiveQuantum));
    assert_eq!(round_robin(&mut processes, -3), Err(ScheduleError::NonPositiveQuantum));
    assert_eq!(processes, sample());
}

#[test]
fn a_burst_that_is_not_positive_is_rejected() {
    let mut processes = vec![process("P0", 0, 6, 3), process("P1", 1, 0, 3)];
    assert_eq!(non_preemptive_sjf(&mut processes), Err(ScheduleError::NonPositiveBurst));
    assert_eq!(preemptive_priority(&mut processes), Err(ScheduleError::NonPositiveBurst));
    let mut processes = vec![process("P0", 0, -1, 3)];
    assert_eq!(round_robin(&mut processes, 2), Err(ScheduleError::NonPositiveBurst));
    assert_eq!(processes, vec![process("P0", 0, -1, 3)]);
}

#[test]
fn a_negative_arrival_is_rejected() {
    let mut processes = vec![process("P0", -1, 6, 3)];
    assert_eq!(preemptive_sjf(&mut processes), Err(ScheduleError::NegativeArrival));
    assert_eq!(non_preemptive_priority(&mut processes), Err(ScheduleError::NegativeArrival));
}

#[test]
fn a_bad_burst_comes_before_a_bad_arrival() {
    let mut processes = vec![process("P0", -1, 6, 3), process("P1", 0, 0, 3)];
    assert_eq!(non_preemptive_sjf(&mut processes), Err(ScheduleError::NonPositiveBurst));
}

#[test]
fn a_repeated_id_is_rejected() {
    let mut processes = vec![process("P0", 0, 6, 3), process("P1", 1, 4, 3), process("P0", 2, 1, 1)];
    assert_eq!(non_preemptive_sjf(&mut processes), Err(ScheduleError::DuplicateId));
    assert_eq!(round_robin(&mut processes, 3), Err(ScheduleError::DuplicateId));
    assert_eq!(processes[2], process("P0", 2, 1, 1));
}

#[test]
fn a_run_past_the_clock_overflows_and_leaves_the_processes() {
    let given = vec![process("P0", 0, i32::MAX, 1), process("P1", 0, 1, 2)];
    let mut processes = given.clone();
    assert_eq!(non_preemptive_sjf(&mut processes), Err(ScheduleError::Overflow));
    assert_eq!(processes, given);
    let mut processes = given.clone();
    assert_eq!(non_preemptive_priority(&mut processes), Err(ScheduleError::Overflow));
    assert_eq!(processes, given);
    let mut processes = given.clone();
    assert_eq!(round_robin(&mut processes, i32::MAX), Err(ScheduleError::Overflow));
    assert_eq!(processes, given);
}

#[test]
fn an_arrival_at_the_end_of_the_clock_overflows() {
    let given = vec![process("P0", i32::MAX, 1, 1)];
    for policy in [
        Policy::RoundRobin { quantum: 1 },
        Policy::ShortestJobFirst,
        Policy::ShortestRemainingTime,
        Policy::Priority,
        Policy::PreemptivePriority,
    ] {
        let mut processes = given.clone();
        assert_eq!(schedule(&mut processes, policy), Err(ScheduleError::Overflow));
        assert_eq!(processes, given);
    }
}

#[test]
fn a_run_that_just_fits_the_clock_succeeds() {
    let mut processes = vec![process("P0", i32::MAX - 1, 1, 1)];
    let timeline = preemptive_sjf(&mut processes).unwrap();
    assert_eq!(timeline, vec![segment("P0", i32::MAX - 1, i32::MAX)]);
    assert_eq!(processes[0].completion_time, i32::MAX);
    assert_eq!(processes[0].turnaround_time, 1);
    assert_eq!(processes[0].waiting_time, 0);
}

#[test]
fn round_robin_on_the_sample() {
    let mut processes = sample();
    let timeline = round_robin(&mut processes, 4).unwrap();
    assert_eq!(
        timeline,
        vec![
            segment("P0", 0, 4),
            segment("P1", 4, 8),
            segment("P0", 8, 10),
            segment("P2", 10, 14),
            segment("P3", 14, 18),
            segment("P4", 18, 22),
            segment("P5", 22, 26),
            segment("P2", 26, 28),
            segment("P3", 28, 30),
            segment("P4", 30, 32),
            segment("P5", 32, 34),
        ]
    );
    assert_eq!(
        processes,
        vec![
            finished("P0", 0, 6, 3, 10),
            finished("P1", 1, 4, 3, 8),
            finished("P2", 5, 6, 1, 28),
            finished("P3", 6, 6, 1, 30),
            finished("P4", 7, 6, 5, 32),
            finished("P5", 8, 6, 6, 34),
        ]
    );
}

#[test]
fn non_preemptive_sjf_on_the_sample() {
    let mut processes = sample();
    let timeline = non_preemptive_sjf(&mut processes).unwrap();
    assert_eq!(
        timeline,
        vec![
            segment("P0", 0, 6),
            segment("P1", 6, 10),
            segment("P2", 10, 16),
            segment("P3", 16, 22),
            segment("P4", 22, 28),
            segment("P5", 28, 34),
        ]
    );
    assert_eq!(
        processes,
        vec![
            finished("P0", 0, 6, 3, 6),
            finished("P1", 1, 4, 3, 10),
            finished("P2", 5, 6, 1, 16),
            finished("P3", 6, 6, 1, 22),
            finished("P4", 7, 6, 5, 28),
            finished("P5", 8, 6, 6, 34),
        ]
    );
}

#[test]
fn preemptive_sjf_on_the_sample() {
    let mut processes = sample();
    let timeline = preemptive_sjf(&mut processes).unwrap();
    assert_eq!(
        timeline,
        vec![
            segment("P0", 0, 1),
            segment("P1", 1, 5),
            segment("P0", 5, 10),
            segment("P2", 10, 16),
            segment("P3", 16, 22),
            segment("P4", 22, 28),
            segment("P5", 28, 34),
        ]
    );
    assert_eq!(
        processes,
        vec![
            finished("P0", 0, 6, 3, 10),
            finished("P1", 1, 4, 3, 5),
            finished("P2", 5, 6, 1, 16),
            finished("P3", 6, 6, 1, 22),
            finished("P4", 7, 6, 5, 28),
            finished("P5", 8, 6, 6, 34),
        ]
    );
}

#[test]
fn non_preemptive_priority_on_the_sample() {
    let mut processes = sample();
    let timeline = non_preemptive_priority(&mut processes).unwrap();
    assert_eq!(
        timeline,
        vec![
            segment("P0", 0, 6),
            segment("P2", 6, 12),
            segment("P3", 12, 18),
            segment("P1", 18, 22),
            segment("P4", 22, 28),
            segment("P5", 28, 34),
        ]
    );
    assert_eq!(
        processes,
        vec![
            finished("P0", 0, 6, 3, 6),
            finished("P1", 1, 4, 3, 22),
            finished("P2", 5, 6, 1, 12),
            finished("P3", 6, 6, 1, 18),
            finished("P4", 7, 6, 5, 28),
            finished("P5", 8, 6, 6, 34),
        ]
    );
}

#[test]
fn preemptive_priority_on_the_sample() {
    let mut processes = sample();
    let timeline = preemptive_priority(&mut processes).unwrap();
    assert_eq!(
        timeline,
        vec![
            segment("P0", 0, 5),
            segment("P2", 5, 11),
            segment("P3", 11, 17),
            segment("P0", 17, 18),
            segment("P1", 18, 22),
            segment("P4", 22, 28),
            segment("P5", 28, 34),
        ]
    );
    assert_eq!(
        processes,
        vec![
            finished("P0", 0, 6, 3, 18),
            finished("P1", 1, 4, 3, 22),
            finished("P2", 5, 6, 1, 11),
            finished("P3", 6, 6, 1, 17),
            finished("P4", 7, 6, 5, 28),
            finished("P5", 8, 6, 6, 34),
        ]
    );
}

#[test]
fn idle_time_leaves_no_segment() {
    let mut processes = vec![process("P0", 0, 2, 1), process("P1", 5, 3, 1)];
    let timeline = non_preemptive_sjf(&mut processes).unwrap();
    assert_eq!(timeline, vec![segment("P0", 0, 2), segment("P1", 5, 8)]);
    assert_eq!(processes, vec![finished("P0", 0, 2, 1, 2), finished("P1", 5, 3, 1, 8)]);

    let mut processes = vec![process("P0", 0, 2, 1), process("P1", 5, 3, 1)];
    let timeline = preemptive_priority(&mut processes).unwrap();
    assert_eq!(timeline, vec![segment("P0", 0, 2), segment("P1", 5, 8)]);

    let mut processes = vec![process("P0", 0, 2, 1), process("P1", 5, 3, 1)];
    let timeline = round_robin(&mut processes, 2).unwrap();
    assert_eq!(timeline, vec![segment("P0", 0, 2), segment("P1", 5, 7), segment("P1", 7, 8)]);
}

#[test]
fn the_clock_idles_until_the_first_arrival() {
    for policy in [
        Policy::RoundRobin { quantum: 5 },
        Policy::ShortestJobFirst,
        Policy::ShortestRemainingTime,
        Policy::Priority,
        Policy::PreemptivePriority,
    ] {
        let mut processes = vec![process("P0", 3, 2, 1)];
        let timeline = schedule(&mut processes, policy).unwrap();
        assert_eq!(timeline, vec![segment("P0", 3, 5)]);
        assert_eq!(processes, vec![finished("P0", 3, 2, 1, 5)]);
    }
}

#[test]
fn processes_are_given_out_of_arrival_order() {
    let mut processes = vec![process("late", 4, 2, 1), process("early", 0, 3, 1)];
    let timeline = non_preemptive_sjf(&mut processes).unwrap();
    assert_eq!(timeline, vec![segment("early", 0, 3), segment("late", 4, 6)]);
    assert_eq!(processes, vec![finished("late", 4, 2, 1, 6), finished("early", 0, 3, 1, 3)]);
}

#[test]
fn equal_priorities_that_arrive_together_take_turns_under_preemption() {
    let mut processes = vec![process("X", 0, 2, 1), process("Y", 0, 2, 1)];
    let timeline = preemptive_priority(&mut processes).unwrap();
    assert_eq!(
        timeline,
        vec![segment("X", 0, 1), segment("Y", 1, 2), segment("X", 2, 3), segment("Y", 3, 4)]
    );
    assert_eq!(processes, vec![finished("X", 0, 2, 1, 3), finished("Y", 0, 2, 1, 4)]);
}

#[test]
fn equal_priorities_keep_the_given_order_without_preemption() {
    let mut processes = vec![process("X", 0, 2, 1), process("Y", 0, 2, 1)];
    let timeline = non_preemptive_priority(&mut processes).unwrap();
    assert_eq!(timeline, vec![segment("X", 0, 2), segment("Y", 2, 4)]);
}

#[test]
fn equal_bursts_that_arrive_together_go_by_priority_under_preemption() {
    let mut processes = vec![process("A", 0, 3, 2), process("B", 0, 3, 1)];
    let timeline = preemptive_sjf(&mut processes).unwrap();
    assert_eq!(timeline, vec![segment("B", 0, 3), segment("A", 3, 6)]);
}

#[test]
fn equal_bursts_that_arrive_together_keep_the_given_order_without_preemption() {
    let mut processes = vec![process("A", 0, 3, 2), process("B", 0, 3, 1)];
    let timeline = non_preemptive_sjf(&mut processes).unwrap();
    assert_eq!(timeline, vec![segment("A", 0, 3), segment("B", 3, 6)]);
}

#[test]
fn equal_bursts_go_to_the_earlier_arrival() {
    let mut processes = vec![process("A", 0, 5, 1), process("B", 2, 3, 1), process("C", 1, 3, 1)];
    let timeline = non_preemptive_sjf(&mut processes).unwrap();
    assert_eq!(timeline, vec![segment("A", 0, 5), segment("C", 5, 8), segment("B", 8, 11)]);
}

#[test]
fn round_robin_queues_equal_arrivals_by_priority() {
    let mut processes = vec![process("A", 0, 2, 5), process("B", 0, 2, 1)];
    let timeline = round_robin(&mut processes, 1).unwrap();
    assert_eq!(
        timeline,
        vec![segment("B", 0, 1), segment("A", 1, 2), segment("B", 2, 3), segment("A", 3, 4)]
    );
}

#[test]
fn round_robin_puts_the_interrupted_process_behind_new_arrivals() {
    let mut processes = vec![process("A", 0, 4, 1), process("B", 2, 2, 1)];
    let timeline = round_robin(&mut processes, 2).unwrap();
    assert_eq!(timeline, vec![segment("A", 0, 2), segment("B", 2, 4), segment("A", 4, 6)]);
}

#[test]
fn a_shorter_job_preempts_the_running_one() {
    let mut processes = vec![process("long", 0, 8, 1), process("short", 2, 2, 1)];
    let timeline = preemptive_sjf(&mut processes).unwrap();
    assert_eq!(timeline, vec![segment("long", 0, 2), segment("short", 2, 4), segment("long", 4, 10)]);
    assert_eq!(processes, vec![finished("long", 0, 8, 1, 10), finished("short", 2, 2, 1, 4)]);
}

#[test]
fn input_metrics_do_not_matter() {
    let mut fresh = sample();
    let first = round_robin(&mut fresh, 3).unwrap();
    let mut again = fresh.clone();
    let second = round_robin(&mut again, 3).unwrap();
    assert_eq!(first, second);
    assert_eq!(fresh, again);
}
