use srp_analysis::{
    pre_analysis, srp_analyze, total_load_factor, update_prio, update_tr, AnalysisError,
    PreemptionMode, Schedulable, Task, TaskSchedulable, Trace, TraceSchedulable,
};

fn trace(id: &str, start: u32, end: u32, inner: Vec<Trace>) -> Trace {
    Trace { id: id.to_string(), start, end, inner }
}

fn task(id: &str, prio: u8, deadline: u32, inter_arrival: u32, tr: Trace) -> Task {
    Task { id: id.to_string(), prio, deadline, inter_arrival, trace: tr }
}

fn example_tasks() -> Vec<Task> {
    let t1 = task("T1", 1, 100, 100, trace("T1", 0, 10, vec![]));
    let t2 = task(
        "T2",
        2,
        200,
        200,
        trace(
            "T2",
            0,
            30,
            vec![
                trace("R1", 10, 20, vec![trace("R2", 12, 16, vec![])]),
                trace("R1", 22, 28, vec![trace("R3", 23, 30, vec![])]),
            ],
        ),
    );
    let t3 = task(
        "T3",
        3,
        50,
        50,
        trace("T3", 0, 30, vec![trace("R2", 10, 20, vec![]), trace("R3", 22, 30, vec![])]),
    );
    vec![t1, t2, t3]
}

fn ok(r: Result<u32, AnalysisError>) -> u32 {
    match r {
        Ok(v) => v,
        Err(e) => panic!("unexpected error {:?}", e),
    }
}

#[test]
fn utilization_sum_of_example() {
    let tasks = example_tasks();
    let l = match total_load_factor(&tasks) {
        Ok(l) => l,
        Err(e) => panic!("unexpected error {:?}", e),
    };
    assert_eq!(l.num, 17);
    assert_eq!(l.den, 20);
    assert_eq!(l.num * 100, 85 * l.den);
}

#[test]
fn zero_inter_arrival_rejected() {
    let mut tasks = example_tasks();
    tasks[1].inter_arrival = 0;
    match total_load_factor(&tasks) {
        Err(AnalysisError::ZeroInterArrival(id)) => assert_eq!(id, "T2"),
        Err(e) => panic!("expected a zero inter-arrival error, got {:?}", e),
        Ok(_) => panic!("expected a zero inter-arrival error"),
    }
}

#[test]
fn zero_inter_arrival_reported_before_invalid_trace() {
    let mut tasks = example_tasks();
    tasks[0].trace.end = 0;
    tasks[0].trace.start = 5;
    tasks[2].inter_arrival = 0;
    assert!(matches!(total_load_factor(&tasks), Err(AnalysisError::ZeroInterArrival(ref id)) if id == "T3"));
    // neither blocking nor exact response times read inter-arrival times
    assert_eq!(tasks[2].blocking_time(&tasks), Ok(7));
    assert_eq!(tasks[2].response_time(&tasks, &PreemptionMode::Exact), Ok(37));
    assert_eq!(tasks[2].response_time(&tasks, &PreemptionMode::Approximate), Ok(37));
    // T2's interference divides by T3's inter-arrival time
    assert_eq!(tasks[1].interference(&tasks), Err(AnalysisError::ZeroInterArrival("T3".to_string())));
    // T1's busy window reads its own invalid root
    assert_eq!(tasks[0].busy_period(&tasks), Err(AnalysisError::InvalidTrace));
    assert_eq!(tasks[1].busy_period(&tasks), Ok(60));
}

#[test]
fn empty_resource_traversal() {
    let tasks = example_tasks();
    assert!(tasks[0].resources().is_empty());
    assert!(tasks[0].trace.resources().is_empty());
}

#[test]
fn traversal_ordering() {
    let tasks = example_tasks();
    let rs = tasks[1].resources();
    let ids: Vec<&str> = rs.iter().map(|r| r.id.as_str()).collect();
    assert_eq!(ids, vec!["R1", "R1", "R2", "R3"]);
    let spans: Vec<u32> = rs.iter().map(|r| ok(r.wcet())).collect();
    assert_eq!(spans, vec![10, 6, 4, 7]);
}

#[test]
fn traversal_of_deeper_tree_goes_level_first_per_child() {
    let t = trace(
        "root",
        0,
        100,
        vec![
            trace("A", 0, 50, vec![trace("A1", 0, 10, vec![trace("A11", 0, 5, vec![])]), trace("A2", 10, 20, vec![])]),
            trace("B", 50, 90, vec![trace("B1", 50, 60, vec![])]),
        ],
    );
    let ids: Vec<&str> = t.resources().iter().map(|r| r.id.as_str()).collect();
    assert_eq!(ids, vec!["A", "B", "A1", "A2", "A11", "B1"]);
}

#[test]
fn ceiling_default_is_one() {
    let tasks = example_tasks();
    assert_eq!(trace("R9", 0, 1, vec![]).ceiling_priority(&tasks), 1);
    assert_eq!(trace("T3", 0, 1, vec![]).ceiling_priority(&tasks), 1);
    assert_eq!(trace("R1", 0, 1, vec![]).ceiling_priority(&[]), 1);
}

#[test]
fn ceilings_of_example() {
    let tasks = example_tasks();
    assert_eq!(trace("R1", 0, 1, vec![]).ceiling_priority(&tasks), 2);
    assert_eq!(trace("R2", 0, 1, vec![]).ceiling_priority(&tasks), 3);
    assert_eq!(trace("R3", 0, 1, vec![]).ceiling_priority(&tasks), 3);
}

#[test]
fn ceiling_of_priority_zero_accessor_is_zero() {
    let tasks = vec![task("L", 0, 10, 10, trace("L", 0, 5, vec![trace("Q", 1, 2, vec![])]))];
    assert_eq!(trace("Q", 0, 1, vec![]).ceiling_priority(&tasks), 0);
}

#[test]
fn blocking_bound() {
    let tasks = example_tasks();
    assert_eq!(ok(tasks[2].blocking_time(&tasks)), 7);
    assert_eq!(ok(tasks[1].blocking_time(&tasks)), 0);
    assert_eq!(ok(tasks[0].blocking_time(&tasks)), 0);
}

#[test]
fn busy_periods_of_example() {
    let tasks = example_tasks();
    assert_eq!(ok(tasks[0].busy_period(&tasks)), 70);
    assert_eq!(ok(tasks[1].busy_period(&tasks)), 60);
    assert_eq!(ok(tasks[2].busy_period(&tasks)), 30);
}

#[test]
fn interference_of_example() {
    let tasks = example_tasks();
    assert_eq!(ok(tasks[0].interference(&tasks)), 90);
    assert_eq!(ok(tasks[1].interference(&tasks)), 60);
    assert_eq!(ok(tasks[2].interference(&tasks)), 0);
}

#[test]
fn approximate_response_times() {
    let tasks = example_tasks();
    let m = PreemptionMode::Approximate;
    assert_eq!(ok(tasks[0].response_time(&tasks, &m)), 100);
    assert_eq!(ok(tasks[1].response_time(&tasks, &m)), 90);
    assert_eq!(ok(tasks[2].response_time(&tasks, &m)), 37);
}

#[test]
fn exact_mode_deadline_check() {
    let tasks = example_tasks();
    let m = PreemptionMode::Exact;
    assert_eq!(ok(tasks[2].response_time(&tasks, &m)), 37);
    assert_eq!(ok(tasks[1].response_time(&tasks, &m)), 67);
    assert!(matches!(tasks[0].response_time(&tasks, &m), Err(AnalysisError::DeadlineMissed)));
}

#[test]
fn exact_mode_propagates_higher_priority_miss() {
    let mut tasks = example_tasks();
    tasks[2].deadline = 30;
    let m = PreemptionMode::Exact;
    assert!(matches!(tasks[2].response_time(&tasks, &m), Err(AnalysisError::DeadlineMissed)));
    assert!(matches!(tasks[1].response_time(&tasks, &m), Err(AnalysisError::DeadlineMissed)));
}

#[test]
fn analysis_is_idempotent() {
    let tasks = example_tasks();
    for m in [PreemptionMode::Exact, PreemptionMode::Approximate] {
        for t in tasks.iter() {
            assert_eq!(t.response_time(&tasks, &m), t.response_time(&tasks, &m));
            assert_eq!(t.blocking_time(&tasks), t.blocking_time(&tasks));
            assert_eq!(t.busy_period(&tasks), t.busy_period(&tasks));
            assert_eq!(t.interference(&tasks), t.interference(&tasks));
        }
    }
}

#[test]
fn report_of_example() {
    let tasks = example_tasks();
    let report = srp_analyze(&tasks, &PreemptionMode::Approximate);
    assert_eq!(report.len(), 3);
    assert_eq!(report[2].0.id, "T3");
    assert_eq!(report[2].1, Ok(37));
    assert_eq!(report[2].2, Ok(7));
    assert_eq!(report[2].3, Ok(30));
    assert_eq!(report[2].4, Ok(0));
    assert_eq!(report[0].1, Ok(100));
    assert_eq!(report[0].4, Ok(90));
    let exact = srp_analyze(&tasks, &PreemptionMode::Exact);
    assert_eq!(exact[0].1, Err(AnalysisError::DeadlineMissed));
    assert_eq!(exact[1].1, Ok(67));
    assert_eq!(exact[2].1, Ok(37));
}

#[test]
fn invalid_trace_rejected() {
    let mut tasks = example_tasks();
    tasks[1].trace.inner[0].inner[0].end = 11;
    assert!(matches!(tasks[2].blocking_time(&tasks), Err(AnalysisError::InvalidTrace)));
    // T2's nested sections do not block T2 itself, nor enter the load
    assert_eq!(tasks[1].blocking_time(&tasks), Ok(0));
    assert_eq!(tasks[1].response_time(&tasks, &PreemptionMode::Approximate), Ok(90));
    assert!(matches!(total_load_factor(&tasks), Ok(ref l) if l.num == 17 && l.den == 20));
    let report = srp_analyze(&tasks, &PreemptionMode::Approximate);
    assert_eq!(report[2].1, Err(AnalysisError::InvalidTrace));
    assert_eq!(report[2].2, Err(AnalysisError::InvalidTrace));
    assert_eq!(report[1].1, Ok(90));
    assert_eq!(report[0].1, Ok(100));
    assert!(matches!(tasks[1].trace.inner[0].inner[0].wcet(), Err(AnalysisError::InvalidTrace)));
}

#[test]
fn invalid_root_of_analysed_task_rejected() {
    let tasks = example_tasks();
    let stray = task("X", 9, 100, 10, trace("X", 20, 10, vec![]));
    assert!(matches!(stray.response_time(&tasks, &PreemptionMode::Approximate), Err(AnalysisError::InvalidTrace)));
    assert!(matches!(stray.wcet(), Err(AnalysisError::InvalidTrace)));
}

#[test]
fn overflow_reported() {
    let tasks = vec![
        task("A", 1, u32::MAX, 1, trace("A", 0, u32::MAX, vec![])),
        task("B", 2, u32::MAX, 1, trace("B", 0, u32::MAX, vec![])),
    ];
    assert!(matches!(tasks[0].busy_period(&tasks), Err(AnalysisError::Overflow)));
    assert!(matches!(tasks[0].interference(&tasks), Err(AnalysisError::Overflow)));
    assert_eq!(ok(tasks[1].busy_period(&tasks)), u32::MAX);
    assert!(matches!(tasks[1].response_time(&tasks, &PreemptionMode::Approximate), Ok(v) if v == u32::MAX));
    assert!(matches!(tasks[0].response_time(&tasks, &PreemptionMode::Exact), Err(AnalysisError::DeadlineMissed)));
}

#[test]
fn interference_rounds_activations_up() {
    let tasks = vec![
        task("L", 1, 1000, 1000, trace("L", 0, 11, vec![])),
        task("H", 2, 1000, 10, trace("H", 0, 3, vec![])),
    ];
    // busy window 14, 14 / 10 rounded up is 2 activations of 3
    assert_eq!(ok(tasks[0].interference(&tasks)), 6);
}

#[test]
fn derived_tables_of_example() {
    let tasks = example_tasks();
    let (ip, tr) = pre_analysis(&tasks);
    let prio = |k: &str| ip.iter().find(|e| e.0 == k).map(|e| e.1);
    assert_eq!(prio("T1"), Some(1));
    assert_eq!(prio("T2"), Some(2));
    assert_eq!(prio("T3"), Some(3));
    assert_eq!(prio("R1"), Some(2));
    assert_eq!(prio("R2"), Some(3));
    assert_eq!(prio("R3"), Some(3));
    assert_eq!(ip.len(), 6);
    let res = |k: &str| {
        tr.iter().find(|e| e.0 == k).map(|e| {
            let mut v: Vec<String> = e.1.clone();
            v.sort();
            v
        })
    };
    assert_eq!(res("T1"), None);
    assert_eq!(res("T2"), Some(vec!["R1".to_string(), "R2".to_string(), "R3".to_string()]));
    assert_eq!(res("T3"), Some(vec!["R2".to_string(), "R3".to_string()]));
    assert_eq!(tr.len(), 2);
}

#[test]
fn update_prio_keeps_highest() {
    let mut ip = vec![("R1".to_string(), 5u8)];
    update_prio(3, &trace("R1", 0, 1, vec![trace("R2", 0, 1, vec![])]), &mut ip);
    assert_eq!(ip, vec![("R1".to_string(), 5), ("R2".to_string(), 3)]);
    update_prio(7, &trace("R2", 0, 1, vec![]), &mut ip);
    assert_eq!(ip, vec![("R1".to_string(), 5), ("R2".to_string(), 7)]);
}

#[test]
fn update_tr_records_nested_once() {
    let mut tr = Vec::new();
    update_tr("T".to_string(), &trace("R1", 0, 4, vec![trace("R1", 1, 2, vec![trace("R2", 1, 2, vec![])])]), &mut tr);
    assert_eq!(tr, vec![("T".to_string(), vec!["R1".to_string(), "R2".to_string()])]);
}

#[test]
fn zero_inter_arrival_of_lower_task_does_not_affect_higher() {
    let mut tasks = example_tasks();
    tasks[0].inter_arrival = 0;
    let m = PreemptionMode::Approximate;
    assert_eq!(tasks[1].interference(&tasks), Ok(60));
    assert_eq!(tasks[1].response_time(&tasks, &m), Ok(90));
    assert_eq!(tasks[2].response_time(&tasks, &m), Ok(37));
    assert_eq!(tasks[0].interference(&tasks), Ok(90));
    assert_eq!(total_load_factor(&tasks), Err(AnalysisError::ZeroInterArrival("T1".to_string())));
}

#[test]
fn load_factor_of_many_tasks_stays_reduced() {
    let tasks: Vec<Task> = (0..20u8)
        .map(|i| task(&format!("T{}", i), i, 10, 10, trace("X", 0, 1, vec![])))
        .collect();
    let l = match total_load_factor(&tasks) {
        Ok(l) => l,
        Err(e) => panic!("unexpected error {:?}", e),
    };
    assert_eq!((l.num, l.den), (2, 1));
    let large = vec![
        task("A", 1, 10, 3_000_000, trace("A", 0, 1_000_000, vec![])),
        task("B", 2, 10, 3_000_001, trace("B", 0, 1, vec![])),
        task("C", 3, 10, 2_999_999, trace("C", 0, 2, vec![])),
    ];
    assert!(total_load_factor(&large).is_ok());
}

#[test]
fn interference_without_higher_task_ignores_window() {
    let tasks = vec![
        task("A", 1, u32::MAX, 1, trace("A", 0, u32::MAX, vec![])),
        task("B", 1, u32::MAX, 1, trace("B", 0, u32::MAX, vec![])),
    ];
    assert_eq!(tasks[0].busy_period(&tasks), Err(AnalysisError::Overflow));
    assert_eq!(tasks[0].interference(&tasks), Ok(0));
    assert_eq!(tasks[0].response_time(&tasks, &PreemptionMode::Approximate), Ok(u32::MAX));
}
