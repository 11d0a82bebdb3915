use cpu_scheduler::metrics::{calc_avg_times, Totals};
use cpu_scheduler::policy::{validate, Policy, ScheduleError};
use cpu_scheduler::process::{update_process_times, Process};
use cpu_scheduler::ready::{enqueue_arrivals, find_earliest_arrival, sort_by_arrival};
use cpu_scheduler::scheduler::copy_processes;
use cpu_scheduler::chart::{boundaries, label_offset, labels};
use cpu_scheduler::timeline::{record_slice, Segment};

fn process(id: &str, arrival_time: i32, burst_time: i32, priority: i32) -> Process {
    Process::new(id.to_string(), arrival_time, burst_time, priority)
}

fn ids(processes: &[Process]) -> Vec<&str> {
    processes.iter().map(|p| p.id.as_str()).collect()
}

#[test]
fn a_new_process_has_no_metrics() {
    let p = Process::new("P7".to_string(), 2, 9, 4);
    assert_eq!(p.id, "P7");
    assert_eq!((p.arrival_time, p.burst_time, p.priority), (2, 9, 4));
    assert_eq!((p.completion_time, p.turnaround_time, p.waiting_time), (0, 0, 0));
}

#[test]
fn a_clone_is_equal() {
    let p = process("P1", 1, 4, 3);
    assert_eq!(p.clone(), p);
    let s = Segment { id: "P1".to_string(), start: 2, end: 5 };
    assert_eq!(s.clone(), s);
    let all = vec![process("a", 0, 1, 1), process("b", 1, 2, 3)];
    assert_eq!(copy_processes(&all), all);
}

#[test]
fn update_records_the_metrics_of_the_named_process() {
    let mut processes = vec![process("P0", 0, 6, 3), process("P1", 1, 4, 3)];
    assert!(update_process_times(&mut processes, &"P1".to_string(), 10));
    assert_eq!(processes[0], process("P0", 0, 6, 3));
    assert_eq!(processes[1].completion_time, 10);
    assert_eq!(processes[1].turnaround_time, 9);
    assert_eq!(processes[1].waiting_time, 5);
    assert_eq!(processes[1].burst_time, 4);
}

#[test]
fn update_skips_an_unknown_id() {
    let mut processes = vec![process("P0", 0, 6, 3), process("P1", 1, 4, 3)];
    assert!(!update_process_times(&mut processes, &"P9".to_string(), 10));
    assert_eq!(processes, vec![process("P0", 0, 6, 3), process("P1", 1, 4, 3)]);
}

#[test]
fn update_takes_the_first_of_a_repeated_id() {
    let mut processes = vec![process("P0", 0, 6, 3), process("P0", 1, 4, 3)];
    assert!(update_process_times(&mut processes, &"P0".to_string(), 7));
    assert_eq!(processes[0].completion_time, 7);
    assert_eq!(processes[0].turnaround_time, 7);
    assert_eq!(processes[0].waiting_time, 1);
    assert_eq!(processes[1], process("P0", 1, 4, 3));
}

#[test]
fn validate_accepts_a_plain_input() {
    let processes = vec![process("P0", 0, 6, 3), process("P1", 0, 1, 3)];
    assert_eq!(validate(&processes, Policy::ShortestJobFirst), Ok(()));
    assert_eq!(validate(&processes, Policy::RoundRobin { quantum: 1 }), Ok(()));
}

#[test]
fn validate_names_the_first_fault() {
    let none: Vec<Process> = Vec::new();
    assert_eq!(validate(&none, Policy::RoundRobin { quantum: 0 }), Err(ScheduleError::EmptyInput));
    let bad = vec![process("P0", -1, 0, 3), process("P0", 0, 1, 3)];
    assert_eq!(validate(&bad, Policy::RoundRobin { quantum: 0 }), Err(ScheduleError::NonPositiveQuantum));
    assert_eq!(validate(&bad, Policy::Priority), Err(ScheduleError::NonPositiveBurst));
    let bad = vec![process("P0", -1, 1, 3), process("P0", 0, 1, 3)];
    assert_eq!(validate(&bad, Policy::Priority), Err(ScheduleError::NegativeArrival));
    let bad = vec![process("P0", 1, 1, 3), process("P1", 0, 1, 3), process("P1", 0, 1, 3)];
    assert_eq!(validate(&bad, Policy::Priority), Err(ScheduleError::DuplicateId));
}

#[test]
fn policies_choose_by_their_own_key() {
    let ready = vec![process("a", 0, 5, 2), process("b", 1, 3, 9), process("c", 2, 3, 1), process("d", 0, 9, 1)];
    assert_eq!(Policy::RoundRobin { quantum: 2 }.select(&ready), 0);
    assert_eq!(Policy::ShortestJobFirst.select(&ready), 1);
    assert_eq!(Policy::ShortestRemainingTime.select(&ready), 1);
    assert_eq!(Policy::Priority.select(&ready), 3);
    assert_eq!(Policy::PreemptivePriority.select(&ready), 3);
}

#[test]
fn the_first_of_equals_is_chosen() {
    let ready = vec![process("a", 4, 3, 1), process("b", 4, 3, 1), process("c", 4, 3, 1)];
    assert_eq!(Policy::ShortestJobFirst.select(&ready), 0);
    assert_eq!(Policy::PreemptivePriority.select(&ready), 0);
}

#[test]
fn turns_are_as_long_as_the_policy_says() {
    let p = process("a", 0, 5, 2);
    assert_eq!(Policy::RoundRobin { quantum: 2 }.slice_len(&p), 2);
    assert_eq!(Policy::RoundRobin { quantum: 5 }.slice_len(&p), 5);
    assert_eq!(Policy::RoundRobin { quantum: 8 }.slice_len(&p), 5);
    assert_eq!(Policy::ShortestJobFirst.slice_len(&p), 5);
    assert_eq!(Policy::Priority.slice_len(&p), 5);
    assert_eq!(Policy::ShortestRemainingTime.slice_len(&p), 1);
    assert_eq!(Policy::PreemptivePriority.slice_len(&p), 1);
}

#[test]
fn policies_know_their_kind() {
    assert!(Policy::RoundRobin { quantum: 2 }.orders_by_priority());
    assert!(Policy::ShortestRemainingTime.orders_by_priority());
    assert!(Policy::PreemptivePriority.orders_by_priority());
    assert!(!Policy::ShortestJobFirst.orders_by_priority());
    assert!(!Policy::Priority.orders_by_priority());
    assert!(Policy::ShortestRemainingTime.is_preemptive());
    assert!(Policy::PreemptivePriority.is_preemptive());
    assert!(!Policy::RoundRobin { quantum: 2 }.is_preemptive());
    assert!(!Policy::ShortestJobFirst.is_preemptive());
    assert!(!Policy::Priority.is_preemptive());
}

#[test]
fn preference_is_strict() {
    let a = process("a", 0, 5, 2);
    let b = process("b", 1, 5, 2);
    assert!(Policy::ShortestJobFirst.prefers(&a, &b));
    assert!(!Policy::ShortestJobFirst.prefers(&b, &a));
    assert!(!Policy::ShortestJobFirst.prefers(&a, &a));
    assert!(Policy::Priority.prefers(&a, &b));
    assert!(!Policy::RoundRobin { quantum: 1 }.prefers(&a, &b));
}

#[test]
fn sorting_by_arrival_is_stable() {
    let given = vec![
        process("a", 2, 1, 5),
        process("b", 0, 1, 5),
        process("c", 2, 1, 1),
        process("d", 0, 1, 5),
        process("e", 1, 1, 9),
    ];
    assert_eq!(ids(&sort_by_arrival(&given, false)), vec!["b", "d", "e", "a", "c"]);
    assert_eq!(ids(&sort_by_arrival(&given, true)), vec!["b", "d", "e", "c", "a"]);
    assert_eq!(given.len(), 5);
}

#[test]
fn arrivals_move_to_the_queue_in_order() {
    let mut pending = vec![process("a", 0, 1, 1), process("b", 3, 1, 1), process("c", 1, 1, 1), process("d", 2, 1, 1)];
    let mut queue = vec![process("q", 0, 1, 1)];
    assert_eq!(find_earliest_arrival(&pending), 0);
    enqueue_arrivals(&mut pending, &mut queue, 1);
    assert_eq!(ids(&queue), vec!["q", "a", "c"]);
    assert_eq!(ids(&pending), vec!["b", "d"]);
    assert_eq!(find_earliest_arrival(&pending), 2);
}

#[test]
fn slices_join_only_where_asked_and_adjacent() {
    let mut timeline: Vec<Segment> = Vec::new();
    let a = "a".to_string();
    let b = "b".to_string();
    record_slice(&mut timeline, &a, 0, 1, true);
    record_slice(&mut timeline, &a, 1, 2, true);
    record_slice(&mut timeline, &b, 2, 3, true);
    record_slice(&mut timeline, &b, 5, 6, true);
    record_slice(&mut timeline, &b, 6, 7, false);
    assert_eq!(
        timeline,
        vec![
            Segment { id: "a".to_string(), start: 0, end: 2 },
            Segment { id: "b".to_string(), start: 2, end: 3 },
            Segment { id: "b".to_string(), start: 5, end: 6 },
            Segment { id: "b".to_string(), start: 6, end: 7 },
        ]
    );
}

#[test]
fn totals_of_finished_processes() {
    let mut processes = vec![process("P0", 0, 6, 3), process("P1", 1, 4, 3)];
    update_process_times(&mut processes, &"P0".to_string(), 6);
    update_process_times(&mut processes, &"P1".to_string(), 10);
    assert_eq!(
        calc_avg_times(&processes),
        Ok(Totals { total_turnaround_time: 15, total_waiting_time: 5, number_of_processes: 2 })
    );
}

#[test]
fn totals_of_nothing_are_refused() {
    let none: Vec<Process> = Vec::new();
    assert_eq!(calc_avg_times(&none), Err(ScheduleError::EmptyInput));
}

#[test]
fn totals_go_beyond_32_bits() {
    let mut p = process("big", 0, 1, 1);
    p.turnaround_time = i32::MAX;
    p.waiting_time = i32::MIN;
    let processes = vec![p.clone(), p.clone(), p];
    assert_eq!(
        calc_avg_times(&processes),
        Ok(Totals {
            total_turnaround_time: 3 * (i32::MAX as i64),
            total_waiting_time: 3 * (i32::MIN as i64),
            number_of_processes: 3,
        })
    );
}

#[test]
fn chart_rows_of_a_timeline() {
    let processes = vec![process("P0", 4, 2, 1), process("P1", 3, 3, 1)];
    let timeline = vec![
        Segment { id: "P1".to_string(), start: 3, end: 6 },
        Segment { id: "P0".to_string(), start: 6, end: 8 },
    ];
    assert_eq!(labels(&timeline), vec!["P1".to_string(), "P0".to_string()]);
    assert_eq!(boundaries(&processes, &timeline), Some(vec![3, 6, 8]));
    assert_eq!(boundaries(&processes, &Vec::new()), Some(vec![3]));
}

#[test]
fn no_chart_without_processes() {
    let none: Vec<Process> = Vec::new();
    assert_eq!(boundaries(&none, &Vec::new()), None);
    assert!(labels(&Vec::new()).is_empty());
}

#[test]
fn labels_end_under_the_border_of_their_cell() {
    assert_eq!(label_offset(1, 1), Some(5));
    assert_eq!(label_offset(1, 2), Some(4));
    assert_eq!(label_offset(3, 2), Some(14));
    assert_eq!(label_offset(0, 1), Some(0));
    assert_eq!(label_offset(1, 6), Some(0));
}

#[test]
fn a_label_too_wide_for_the_line_has_no_place() {
    assert_eq!(label_offset(1, 7), None);
    assert_eq!(label_offset(0, 2), None);
    assert_eq!(label_offset(usize::MAX, 1), None);
    assert_eq!(label_offset(usize::MAX / 5 + 1, 1), None);
    assert_eq!(label_offset((usize::MAX - 1) / 5, 0), Some((usize::MAX - 1) / 5 * 5 + 1));
}
