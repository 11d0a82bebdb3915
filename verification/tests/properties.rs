use cpu_scheduler::{schedule, Policy, Process, Segment};

fn workload() -> Vec<Process> {
    vec![
        Process::new("a".to_string(), 3, 7, 2),
        Process::new("b".to_string(), 0, 4, 9),
        Process::new("c".to_string(), 3, 2, 2),
        Process::new("d".to_string(), 20, 5, 1),
        Process::new("e".to_string(), 21, 5, 1),
        Process::new("f".to_string(), 4, 1, 7),
    ]
}

fn policies() -> Vec<Policy> {
    vec![
        Policy::RoundRobin { quantum: 1 },
        Policy::RoundRobin { quantum: 3 },
        Policy::RoundRobin { quantum: 100 },
        Policy::ShortestJobFirst,
        Policy::ShortestRemainingTime,
        Policy::Priority,
        Policy::PreemptivePriority,
    ]
}

fn total_duration(timeline: &[Segment]) -> i32 {
    timeline.iter().map(|s| s.end - s.start).sum()
}

#[test]
fn metrics_are_consistent_after_every_run() {
    for policy in policies() {
        let given = workload();
        let mut processes = workload();
        let timeline = schedule(&mut processes, policy).unwrap();
        assert_eq!(processes.len(), given.len());
        for (before, after) in given.iter().zip(processes.iter()) {
            assert_eq!(after.id, before.id);
            assert_eq!(after.arrival_time, before.arrival_time);
            assert_eq!(after.burst_time, before.burst_time);
            assert_eq!(after.priority, before.priority);
            assert_eq!(after.turnaround_time, after.completion_time - before.arrival_time);
            assert_eq!(after.waiting_time, after.turnaround_time - before.burst_time);
            assert!(after.turnaround_time >= 0);
            assert!(after.waiting_time >= 0);
            assert!(after.completion_time >= before.arrival_time + before.burst_time);
            let last = timeline.iter().rev().find(|s| s.id == after.id).unwrap();
            assert_eq!(after.completion_time, last.end);
        }
    }
}

#[test]
fn segments_add_up_to_the_bursts() {
    for policy in policies() {
        let mut processes = workload();
        let timeline = schedule(&mut processes, policy).unwrap();
        assert_eq!(total_duration(&timeline), 24);
    }
}

#[test]
fn segments_follow_each_other_in_time() {
    for policy in policies() {
        let mut processes = workload();
        let timeline = schedule(&mut processes, policy).unwrap();
        for s in timeline.iter() {
            assert!(0 <= s.start && s.start < s.end);
        }
        for pair in timeline.windows(2) {
            assert!(pair[0].end <= pair[1].start);
        }
    }
}

#[test]
fn preemptive_timelines_join_consecutive_units() {
    for policy in [Policy::ShortestRemainingTime, Policy::PreemptivePriority] {
        let mut processes = workload();
        let timeline = schedule(&mut processes, policy).unwrap();
        for pair in timeline.windows(2) {
            assert!(pair[0].id != pair[1].id || pair[0].end < pair[1].start);
        }
    }
}

#[test]
fn round_robin_turns_keep_to_the_quantum() {
    for quantum in [1, 2, 3, 4, 7, 100] {
        let mut processes = workload();
        let timeline = schedule(&mut processes, Policy::RoundRobin { quantum }).unwrap();
        for (i, s) in timeline.iter().enumerate() {
            let length = s.end - s.start;
            assert!(1 <= length && length <= quantum);
            if length < quantum {
                assert!(timeline[i + 1..].iter().all(|later| later.id != s.id));
            }
        }
    }
}

#[test]
fn running_twice_gives_the_same_result() {
    for policy in policies() {
        let mut first = workload();
        let mut second = workload();
        let a = schedule(&mut first, policy);
        let b = schedule(&mut second, policy);
        assert_eq!(a, b);
        assert_eq!(first, second);
    }
}

#[test]
fn shortest_remaining_time_on_the_workload() {
    let mut processes = workload();
    let timeline = schedule(&mut processes, Policy::ShortestRemainingTime).unwrap();
    let shown: Vec<(&str, i32, i32)> = timeline.iter().map(|s| (s.id.as_str(), s.start, s.end)).collect();
    assert_eq!(
        shown,
        vec![("b", 0, 4), ("f", 4, 5), ("c", 5, 7), ("a", 7, 14), ("d", 20, 25), ("e", 25, 30)]
    );
}

#[test]
fn round_robin_on_the_workload() {
    let mut processes = workload();
    let timeline = schedule(&mut processes, Policy::RoundRobin { quantum: 3 }).unwrap();
    let shown: Vec<(&str, i32, i32)> = timeline.iter().map(|s| (s.id.as_str(), s.start, s.end)).collect();
    assert_eq!(
        shown,
        vec![
            ("b", 0, 3),
            ("a", 3, 6),
            ("c", 6, 8),
            ("b", 8, 9),
            ("f", 9, 10),
            ("a", 10, 13),
            ("a", 13, 14),
            ("d", 20, 23),
            ("e", 23, 26),
            ("d", 26, 28),
            ("e", 28, 30),
        ]
    );
}
