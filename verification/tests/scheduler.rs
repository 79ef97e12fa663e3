use sched_sim::fcfs::get_gantt_fcfs;
use sched_sim::mode::AppState;
use sched_sim::model::{Inputs, ProcessSegment, SchedError, SchedulingAlgorithms, Times};
use sched_sim::nonpre::{get_gantt_priority, get_gantt_sjf};
use sched_sim::rr::get_gantt_rr;

fn state_with(algo: &str) -> AppState {
    let mut st = AppState::default();
    st.change_state(&algo.to_string()).unwrap();
    st
}

fn busy(id: &str, end: u32) -> ProcessSegment {
    ProcessSegment { process_id: Some(id.to_string()), end_time: end }
}

fn idle(end: u32) -> ProcessSegment {
    ProcessSegment { process_id: None, end_time: end }
}

fn times(completion: u32, waiting: u32, turnaround: u32) -> Times {
    Times { completion, waiting, turnaround }
}

#[test]
fn mode_selection_maps_names() {
    let mut st = AppState::default();
    assert_eq!(st.change_state(&"fcfs".to_string()), Ok(Inputs::NoneRequired));
    assert_eq!(st.get_state(), Ok(SchedulingAlgorithms::FCFS));
    assert_eq!(st.change_state(&"sjf".to_string()), Ok(Inputs::NoneRequired));
    assert_eq!(st.get_state(), Ok(SchedulingAlgorithms::SJF));
    assert_eq!(st.change_state(&"rr".to_string()), Ok(Inputs::Quantum));
    assert_eq!(st.get_inputs(), Ok(Inputs::Quantum));
    assert_eq!(st.change_state(&"priority".to_string()), Ok(Inputs::Priority));
    assert_eq!(st.get_inputs(), Ok(Inputs::Priority));
}

#[test]
fn unknown_algorithm_clears_mode() {
    let mut st = state_with("fcfs");
    assert_eq!(st.change_state(&"lottery".to_string()), Err(SchedError::UnknownAlgorithm));
    assert_eq!(st.get_state(), Err(SchedError::ModeNotSet));
    assert_eq!(st.get_inputs(), Err(SchedError::ModeNotSet));
}

#[test]
fn queries_before_selection_fail() {
    let st = AppState::default();
    assert_eq!(st.get_state(), Err(SchedError::ModeNotSet));
    assert_eq!(st.get_inputs(), Err(SchedError::ModeNotSet));
}

#[test]
fn mode_mismatch_is_reported() {
    let st = state_with("fcfs");
    let procs = vec![("A".to_string(), 1, 0)];
    assert_eq!(get_gantt_sjf(&st, procs.clone()), Err(SchedError::ModeMismatch));
    assert_eq!(get_gantt_rr(&st, 2, procs.clone()), Err(SchedError::ModeMismatch));
    assert_eq!(
        get_gantt_priority(&st, vec![("A".to_string(), 1, 0, 1)]),
        Err(SchedError::ModeMismatch)
    );
    let st2 = state_with("sjf");
    assert_eq!(get_gantt_fcfs(&st2, procs), Err(SchedError::ModeMismatch));
}

#[test]
fn zero_quantum_is_rejected() {
    let st = state_with("rr");
    let procs = vec![("A".to_string(), 1, 0)];
    assert_eq!(get_gantt_rr(&st, 0, procs), Err(SchedError::InvalidQuantum));
}

#[test]
fn fcfs_two_processes() {
    let st = state_with("fcfs");
    let procs = vec![("A".to_string(), 5, 0), ("B".to_string(), 3, 1)];
    let (gantt, table) = get_gantt_fcfs(&st, procs).unwrap();
    assert_eq!(gantt, vec![busy("A", 5), busy("B", 8)]);
    assert_eq!(
        table,
        vec![("A".to_string(), times(5, 0, 5)), ("B".to_string(), times(8, 4, 7))]
    );
}

#[test]
fn fcfs_leading_idle_gap() {
    let st = state_with("fcfs");
    let procs = vec![("A".to_string(), 2, 3)];
    let (gantt, table) = get_gantt_fcfs(&st, procs).unwrap();
    assert_eq!(gantt, vec![idle(3), busy("A", 5)]);
    assert_eq!(table, vec![("A".to_string(), times(5, 0, 2))]);
}

#[test]
fn fcfs_stable_on_equal_arrivals() {
    let st = state_with("fcfs");
    let procs = vec![("A".to_string(), 2, 0), ("B".to_string(), 2, 0)];
    let (gantt, _) = get_gantt_fcfs(&st, procs).unwrap();
    assert_eq!(gantt, vec![busy("A", 2), busy("B", 4)]);
}

#[test]
fn sjf_waits_for_shorter_jobs() {
    let st = state_with("sjf");
    let procs = vec![
        ("A".to_string(), 7, 0),
        ("B".to_string(), 4, 2),
        ("C".to_string(), 1, 4),
    ];
    let (gantt, table) = get_gantt_sjf(&st, procs).unwrap();
    assert_eq!(gantt, vec![busy("A", 7), busy("C", 8), busy("B", 12)]);
    assert_eq!(
        table,
        vec![
            ("A".to_string(), times(7, 0, 7)),
            ("B".to_string(), times(12, 6, 10)),
            ("C".to_string(), times(8, 3, 4)),
        ]
    );
}

#[test]
fn sjf_idle_gap_between_arrivals() {
    let st = state_with("sjf");
    let procs = vec![("A".to_string(), 1, 0), ("B".to_string(), 1, 5)];
    let (gantt, _) = get_gantt_sjf(&st, procs).unwrap();
    assert_eq!(gantt, vec![busy("A", 1), idle(5), busy("B", 6)]);
}

#[test]
fn sjf_ties_break_by_arrival_then_input_order() {
    let st = state_with("sjf");
    let procs = vec![
        ("A".to_string(), 2, 1),
        ("B".to_string(), 2, 0),
        ("C".to_string(), 2, 0),
    ];
    let (gantt, _) = get_gantt_sjf(&st, procs).unwrap();
    // equal bursts: earlier arrival first, then earlier input position
    assert_eq!(gantt, vec![busy("B", 2), busy("C", 4), busy("A", 6)]);
}

#[test]
fn round_robin_alternates_with_quantum_two() {
    let st = state_with("rr");
    let procs = vec![("A".to_string(), 4, 0), ("B".to_string(), 3, 1)];
    let (gantt, table) = get_gantt_rr(&st, 2, procs).unwrap();
    assert_eq!(gantt, vec![busy("A", 2), busy("B", 4), busy("A", 6), busy("B", 7)]);
    assert_eq!(
        table,
        vec![("A".to_string(), times(6, 2, 6)), ("B".to_string(), times(7, 3, 6))]
    );
}

#[test]
fn round_robin_leading_idle() {
    let st = state_with("rr");
    let procs = vec![("A".to_string(), 3, 5)];
    let (gantt, table) = get_gantt_rr(&st, 2, procs).unwrap();
    assert_eq!(gantt, vec![idle(5), busy("A", 7), busy("A", 8)]);
    assert_eq!(table, vec![("A".to_string(), times(8, 0, 3))]);
}

#[test]
fn round_robin_arrival_at_preemption_goes_first() {
    let st = state_with("rr");
    // B arrives exactly when A is preempted: B runs before A resumes
    let procs = vec![("A".to_string(), 4, 0), ("B".to_string(), 2, 2)];
    let (gantt, _) = get_gantt_rr(&st, 2, procs).unwrap();
    assert_eq!(gantt, vec![busy("A", 2), busy("B", 4), busy("A", 6)]);
}

#[test]
fn priority_lower_value_runs_first() {
    let st = state_with("priority");
    let procs = vec![
        ("LONGURGENT".to_string(), 5, 0, 1),
        ("SHORTLAX".to_string(), 1, 0, 2),
    ];
    let (gantt, table) = get_gantt_priority(&st, procs).unwrap();
    assert_eq!(gantt, vec![busy("LONGURGENT", 5), busy("SHORTLAX", 6)]);
    assert_eq!(
        table,
        vec![
            ("LONGURGENT".to_string(), times(5, 0, 5)),
            ("SHORTLAX".to_string(), times(6, 5, 6)),
        ]
    );
}

#[test]
fn priority_admits_by_arrival() {
    let st = state_with("priority");
    // the urgent process arrives late: the running one is never preempted
    let procs = vec![
        ("X".to_string(), 4, 0, 5),
        ("Y".to_string(), 2, 1, 1),
    ];
    let (gantt, _) = get_gantt_priority(&st, procs).unwrap();
    assert_eq!(gantt, vec![busy("X", 4), busy("Y", 6)]);
}

#[test]
fn empty_batches_yield_empty_results() {
    let fc = get_gantt_fcfs(&state_with("fcfs"), vec![]).unwrap();
    assert_eq!(fc, (vec![], vec![]));
    let sj = get_gantt_sjf(&state_with("sjf"), vec![]).unwrap();
    assert_eq!(sj, (vec![], vec![]));
    let rr = get_gantt_rr(&state_with("rr"), 3, vec![]).unwrap();
    assert_eq!(rr, (vec![], vec![]));
    let pr = get_gantt_priority(&state_with("priority"), vec![]).unwrap();
    assert_eq!(pr, (vec![], vec![]));
}

#[test]
fn clock_reaches_the_type_limit() {
    let st = state_with("fcfs");
    let procs = vec![("A".to_string(), 5, u32::MAX - 5)];
    let (gantt, table) = get_gantt_fcfs(&st, procs).unwrap();
    assert_eq!(gantt, vec![idle(u32::MAX - 5), busy("A", u32::MAX)]);
    assert_eq!(table, vec![("A".to_string(), times(u32::MAX, 0, 5))]);
}

#[test]
fn reruns_are_bit_identical() {
    let procs = vec![
        ("A".to_string(), 7, 0),
        ("B".to_string(), 4, 2),
        ("C".to_string(), 1, 4),
    ];
    let st = state_with("sjf");
    let first = get_gantt_sjf(&st, procs.clone()).unwrap();
    let second = get_gantt_sjf(&st, procs.clone()).unwrap();
    assert_eq!(first, second);
    let st2 = state_with("rr");
    let a = get_gantt_rr(&st2, 2, procs.clone()).unwrap();
    let b = get_gantt_rr(&st2, 2, procs.clone()).unwrap();
    assert_eq!(a, b);
    let st3 = state_with("fcfs");
    assert_eq!(
        get_gantt_fcfs(&st3, procs.clone()).unwrap(),
        get_gantt_fcfs(&st3, procs).unwrap()
    );
}

#[test]
fn times_relation_holds_across_algorithms() {
    let procs = vec![
        ("A".to_string(), 3, 2),
        ("B".to_string(), 5, 0),
        ("C".to_string(), 2, 7),
    ];
    let runs = vec![
        get_gantt_fcfs(&state_with("fcfs"), procs.clone()).unwrap(),
        get_gantt_sjf(&state_with("sjf"), procs.clone()).unwrap(),
        get_gantt_rr(&state_with("rr"), 2, procs.clone()).unwrap(),
    ];
    for (gantt, table) in runs {
        // end times strictly increasing
        let mut prev = 0u32;
        let mut first = true;
        for seg in &gantt {
            if !first {
                assert!(seg.end_time > prev);
            } else {
                assert!(seg.end_time > 0);
                first = false;
            }
            prev = seg.end_time;
        }
        // turnaround = completion - arrival, waiting = turnaround - burst
        for (id, tm) in &table {
            let (burst, arrival) = procs
                .iter()
                .find(|p| p.0 == *id)
                .map(|p| (p.1, p.2))
                .unwrap();
            assert_eq!(tm.turnaround, tm.completion - arrival);
            assert_eq!(tm.waiting, tm.turnaround - burst);
        }
        // busy time per process adds up to its burst
        for (id, _) in &table {
            let mut prev = 0u32;
            let mut total = 0u32;
            for seg in &gantt {
                if seg.process_id.as_deref() == Some(id.as_str()) {
                    total += seg.end_time - prev;
                }
                prev = seg.end_time;
            }
            let burst = procs.iter().find(|p| p.0 == *id).unwrap().1;
            assert_eq!(total, burst);
        }
    }
}
