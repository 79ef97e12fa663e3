//! Data model: process descriptors, Gantt timeline segments, per-process
//! timing results, algorithm modes, and the typed error values.

use vstd::prelude::*;

verus! {

/// The four scheduling policies the engine can simulate.
#[derive(Debug, Clone, Copy, PartialEq, Eq, Structural)]
pub enum SchedulingAlgorithms {
    FCFS,
    SJF,
    RR,
    PRIORITY,
}

/// Which auxiliary input the currently selected mode requires from the caller.
#[derive(Debug, Clone, Copy, PartialEq, Eq, Structural)]
pub enum Inputs {
    /// No auxiliary input is needed (FCFS, SJF).
    NoneRequired,
    /// Each process must carry a priority value (Priority mode).
    Priority,
    /// A positive quantum must accompany the batch (Round-Robin).
    Quantum,
}

/// Typed failure values; every error is reported synchronously to the caller.
#[derive(Debug, Clone, Copy, PartialEq, Eq, Structural)]
pub enum SchedError {
    /// The textual algorithm name matched none of the four modes.
    UnknownAlgorithm,
    /// A query was issued before any mode was selected.
    ModeNotSet,
    /// A simulator was invoked while a different mode is active.
    ModeMismatch,
    /// Round-Robin was invoked with a zero quantum.
    InvalidQuantum,
}

/// One interval of the Gantt timeline: a busy segment carries the id of the
/// process that ran, an idle segment carries no id. The segment starts at the
/// previous segment's end time (or 0 for the first segment).
#[derive(Debug, Clone, PartialEq, Eq)]
pub struct ProcessSegment {
    pub process_id: Option<String>,
    pub end_time: u32,
}

/// The ordered timeline of execution and idle intervals.
pub type GanttChart = Vec<ProcessSegment>;

/// One input process: (id, burst time, arrival time).
pub type SegmentInput = (String, u32, u32);

/// One input process for the priority policy:
/// (id, burst time, arrival time, priority value — lower is more urgent).
pub type PrioritySegmentInput = (String, u32, u32, u32);

/// Per-process results of a simulation run.
#[derive(Debug, Clone, PartialEq, Eq)]
pub struct Times {
    pub completion: u32,
    pub waiting: u32,
    pub turnaround: u32,
}

impl Default for Times {
    fn default() -> (r: Self)
        ensures
            r.completion == 0,
            r.waiting == 0,
            r.turnaround == 0,
    {
        Times { completion: 0, waiting: 0, turnaround: 0 }
    }
}

/// The timing table: one entry per input process, in input order, keyed by
/// the process id.
pub type OutputTable = Vec<(String, Times)>;

/// A process descriptor as the specification sees it. `key` is the value the
/// ready set orders by: the burst time for SJF, the priority value for the
/// priority policy, and unused for FCFS and Round-Robin.
pub ghost struct ProcV {
    pub id: Seq<char>,
    pub burst: u32,
    pub arrival: u32,
    pub key: u32,
}

/// A timeline segment as the specification sees it.
pub ghost struct SegV {
    pub id: Option<Seq<char>>,
    pub end: int,
}

/// A timing-table entry as the specification sees it.
pub ghost struct TimesV {
    pub completion: int,
    pub waiting: int,
    pub turnaround: int,
}

pub open spec fn times_v(t: Times) -> TimesV {
    TimesV { completion: t.completion as int, waiting: t.waiting as int, turnaround: t.turnaround as int }
}

pub open spec fn seg_v(s: ProcessSegment) -> SegV {
    SegV {
        id: match s.process_id {
            Option::None => Option::None,
            Option::Some(x) => Option::Some(x@),
        },
        end: s.end_time as int,
    }
}

pub open spec fn gantt_view(g: Seq<ProcessSegment>) -> Seq<SegV> {
    g.map_values(|s: ProcessSegment| seg_v(s))
}

/// The model of a plain (no-priority) input batch; `key` is filled per policy.
pub open spec fn fcfs_view(s: Seq<SegmentInput>) -> Seq<ProcV> {
    s.map_values(|p: SegmentInput| ProcV { id: p.0@, burst: p.1, arrival: p.2, key: 0 })
}

/// SJF orders its ready set by burst time.
pub open spec fn sjf_view(s: Seq<SegmentInput>) -> Seq<ProcV> {
    s.map_values(|p: SegmentInput| ProcV { id: p.0@, burst: p.1, arrival: p.2, key: p.1 })
}

/// The priority policy orders its ready set by the priority value.
pub open spec fn prio_view(s: Seq<PrioritySegmentInput>) -> Seq<ProcV> {
    s.map_values(|p: PrioritySegmentInput| ProcV { id: p.0@, burst: p.1, arrival: p.2, key: p.3 })
}

pub open spec fn max_arrival(ps: Seq<ProcV>) -> int
    decreases ps.len(),
{
    if ps.len() == 0 {
        0
    } else {
        let m = max_arrival(ps.drop_last());
        if ps.last().arrival > m { ps.last().arrival as int } else { m }
    }
}

pub open spec fn sum_burst(ps: Seq<ProcV>) -> int
    decreases ps.len(),
{
    if ps.len() == 0 {
        0
    } else {
        sum_burst(ps.drop_last()) + ps.last().burst
    }
}

/// Inputs a simulation accepts: every burst time is positive, and the whole
/// simulated span fits the clock's integer type.
pub open spec fn wf_procs(ps: Seq<ProcV>) -> bool {
    &&& forall|i: int| 0 <= i < ps.len() ==> (#[trigger] ps[i]).burst >= 1
    &&& max_arrival(ps) + sum_burst(ps) <= u32::MAX
    &&& ps.len() <= u32::MAX
}

/// The produced timing table has one entry per input process, in input
/// order, keyed by the process id, with the values the specification gives.
pub open spec fn table_matches(tb: Seq<(String, Times)>, ps: Seq<ProcV>, tv: Seq<TimesV>) -> bool {
    &&& tb.len() == ps.len()
    &&& tv.len() == ps.len()
    &&& forall|i: int| 0 <= i < ps.len() ==> (#[trigger] tb[i]).0@ == ps[i].id
    &&& forall|i: int| 0 <= i < ps.len() ==> times_v((#[trigger] tb[i]).1) == tv[i]
}

/// The timing table every simulation starts from: all entries zero.
pub open spec fn init_table(n: nat) -> Seq<TimesV> {
    Seq::new(n, |i: int| TimesV { completion: 0, waiting: 0, turnaround: 0 })
}

} // verus!
