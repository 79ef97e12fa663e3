//! First-come-first-served: processes run to completion in order of
//! ascending arrival time, earliest input position breaking ties; the clock
//! idles forward whenever the next process has not arrived yet.

use vstd::prelude::*;
use crate::model::{
    fcfs_view, gantt_view, init_table, times_v, wf_procs, GanttChart, OutputTable, ProcV,
    ProcessSegment, SchedError, SchedulingAlgorithms, SegV, SegmentInput, Times, TimesV,
};
use crate::mode::AppState;
use crate::util::{
    arrivals, count_false, find_next, lemma_burst_le_sum_unadm, lemma_count_false_nonneg,
    lemma_count_false_update, lemma_max_arrival, lemma_max_arrival_nonneg, lemma_next_arr,
    lemma_sum_unadm_all, lemma_sum_unadm_le, lemma_sum_unadm_update, next_arr, sum_unadm,
};

verus! {

/// The timing values of the timing-table entries, in input order.
pub open spec fn table_v(tb: Seq<(String, Times)>) -> Seq<TimesV> {
    tb.map_values(|e: (String, Times)| times_v(e.1))
}

/// The timeline emitted and the timing table produced when the clock stands
/// at `t`, the processes marked in `adm` have already run, and `table` holds
/// the timing entries recorded so far: the earliest-arriving remaining
/// process runs next, after an idle gap if it has not arrived yet.
pub open spec fn fcfs_go(ps: Seq<ProcV>, adm: Seq<bool>, t: int, table: Seq<TimesV>) -> (Seq<
    SegV,
>, Seq<TimesV>)
    decreases count_false(adm),
    via fcfs_go_dec
{
    match next_arr(arrivals(ps), adm, 0) {
        Option::None => (Seq::empty(), table),
        Option::Some(j) => {
            let p = ps[j];
            let start: int = if t < p.arrival {
                p.arrival as int
            } else {
                t
            };
            let done = start + p.burst;
            let rec = fcfs_go(
                ps,
                adm.update(j, true),
                done,
                table.update(
                    j,
                    TimesV {
                        completion: done,
                        waiting: start - p.arrival,
                        turnaround: done - p.arrival,
                    },
                ),
            );
            let busy = SegV { id: Option::Some(p.id), end: done };
            if t < p.arrival {
                (seq![SegV { id: Option::None, end: p.arrival as int }, busy] + rec.0, rec.1)
            } else {
                (seq![busy] + rec.0, rec.1)
            }
        },
    }
}

#[via_fn]
proof fn fcfs_go_dec(ps: Seq<ProcV>, adm: Seq<bool>, t: int, table: Seq<TimesV>) {
    lemma_next_arr(arrivals(ps), adm, 0);
    lemma_count_false_nonneg(adm);
    match next_arr(arrivals(ps), adm, 0) {
        Option::Some(j) => {
            lemma_count_false_update(adm, j);
            lemma_count_false_nonneg(adm.update(j, true));
        },
        Option::None => {},
    }
}

/// The FCFS timeline and timing table for a batch of processes.
pub open spec fn fcfs_spec(ps: Seq<ProcV>) -> (Seq<SegV>, Seq<TimesV>) {
    fcfs_go(ps, Seq::new(ps.len(), |i: int| false), 0, init_table(ps.len()))
}

/// Simulates first-come-first-served scheduling over the batch. Fails with
/// `ModeMismatch` unless the current mode is FCFS; otherwise the returned
/// timeline and timing table are exactly the ones `fcfs_spec` assigns to the
/// input.
pub fn get_gantt_fcfs(state: &AppState, inputs: Vec<SegmentInput>) -> (r: Result<
    (GanttChart, OutputTable),
    SchedError,
>)
    requires
        wf_procs(fcfs_view(inputs@)),
    ensures
        match r {
            Result::Ok(out) => {
                &&& state.algorithm == Option::Some(SchedulingAlgorithms::FCFS)
                &&& gantt_view(out.0@) == fcfs_spec(fcfs_view(inputs@)).0
                &&& table_v(out.1@) == fcfs_spec(fcfs_view(inputs@)).1
                &&& out.1@.len() == inputs@.len()
                &&& forall|i: int|
                    0 <= i < inputs@.len() ==> (#[trigger] out.1@[i]).0@ == inputs@[i].0@
            },
            Result::Err(e) => {
                &&& e == SchedError::ModeMismatch
                &&& state.algorithm != Option::Some(SchedulingAlgorithms::FCFS)
            },
        },
{
    match state.algorithm {
        Option::Some(SchedulingAlgorithms::FCFS) => {},
        _ => {
            return Result::Err(SchedError::ModeMismatch);
        },
    }
    let ghost ps = fcfs_view(inputs@);
    let n = inputs.len();
    let mut arrs: Vec<u32> = Vec::new();
    let mut adm: Vec<bool> = Vec::new();
    let mut table: OutputTable = Vec::new();
    let mut idx: usize = 0;
    while idx < n
        invariant
            idx <= n,
            n == inputs@.len(),
            ps == fcfs_view(inputs@),
            arrs@.len() == idx,
            adm@.len() == idx,
            table@.len() == idx,
            forall|k: int| 0 <= k < idx ==> arrs@[k] == ps[k].arrival,
            forall|k: int| 0 <= k < idx ==> !(#[trigger] adm@[k]),
            forall|k: int| 0 <= k < idx ==> (#[trigger] table@[k]).0@ == ps[k].id,
            forall|k: int|
                0 <= k < idx ==> times_v((#[trigger] table@[k]).1) == (TimesV {
                    completion: 0,
                    waiting: 0,
                    turnaround: 0,
                }),
        decreases n - idx,
    {
        let p = &inputs[idx];
        arrs.push(p.2);
        adm.push(false);
        table.push((p.0.clone(), Times::default()));
        idx = idx + 1;
    }
    let mut gantt: GanttChart = Vec::new();
    let mut t: u32 = 0;
    proof {
        assert(adm@ =~= Seq::new(ps.len(), |i: int| false));
        assert(table_v(table@) =~= init_table(ps.len()));
        lemma_sum_unadm_all(ps, adm@);
        lemma_max_arrival_nonneg(ps);
        assert(arrs@ =~= arrivals(ps));
        assert(gantt_view(gantt@) + fcfs_go(ps, adm@, 0, table_v(table@)).0 =~= fcfs_spec(ps).0);
    }
    let mut nxt = find_next(&arrs, &adm);
    while nxt.is_some()
        invariant
            n == inputs@.len(),
            ps == fcfs_view(inputs@),
            wf_procs(ps),
            arrs@.len() == n,
            adm@.len() == n,
            table@.len() == n,
            arrs@ == arrivals(ps),
            forall|k: int| 0 <= k < n ==> (#[trigger] table@[k]).0@ == ps[k].id,
            match nxt {
                Option::None => next_arr(arrs@, adm@, 0) is None,
                Option::Some(j) => next_arr(arrs@, adm@, 0) == Option::Some(j as int),
            },
            t + sum_unadm(ps, adm@) <= u32::MAX,
            gantt_view(gantt@) + fcfs_go(ps, adm@, t as int, table_v(table@)).0 == fcfs_spec(
                ps,
            ).0,
            fcfs_go(ps, adm@, t as int, table_v(table@)).1 == fcfs_spec(ps).1,
        decreases count_false(adm@),
    {
        let j = nxt.unwrap();
        proof {
            lemma_next_arr(arrs@, adm@, 0);
            lemma_max_arrival(ps, j as int);
            lemma_burst_le_sum_unadm(ps, adm@, j as int);
            lemma_sum_unadm_le(ps, adm@);
        }
        let ghost adm0 = adm@;
        let ghost t0 = t as int;
        let ghost tb0 = table_v(table@);
        let ghost g0 = gantt_view(gantt@);
        let arrival = arrs[j];
        let burst = inputs[j].1;
        let start: u32;
        if t < arrival {
            gantt.push(ProcessSegment { process_id: Option::None, end_time: arrival });
            start = arrival;
        } else {
            start = t;
        }
        let done = start + burst;
        gantt.push(ProcessSegment { process_id: Option::Some(inputs[j].0.clone()), end_time: done });
        let entry = table.remove(j);
        table.insert(
            j,
            (entry.0, Times { completion: done, waiting: start - arrival, turnaround: done - arrival }),
        );
        adm[j] = true;
        t = done;
        proof {
            lemma_count_false_update(adm0, j as int);
            lemma_sum_unadm_update(ps, adm0, j as int);
            let tv = TimesV {
                completion: done as int,
                waiting: start - arrival,
                turnaround: done - arrival,
            };
            assert(table_v(table@) =~= tb0.update(j as int, tv));
            assert(adm@ =~= adm0.update(j as int, true));
            let rec = fcfs_go(ps, adm@, t as int, table_v(table@));
            let p = ps[j as int];
            let start_s: int = if t0 < p.arrival {
                p.arrival as int
            } else {
                t0
            };
            assert(start_s == start as int);
            assert(start_s + p.burst == done as int);
            let busy = SegV { id: Option::Some(p.id), end: done as int };
            assert(fcfs_go(ps, adm0, t0, tb0).1 == rec.1);
            if t0 < p.arrival {
                assert(fcfs_go(ps, adm0, t0, tb0).0 == seq![
                    SegV { id: Option::None, end: p.arrival as int },
                    busy,
                ] + rec.0);
            } else {
                assert(fcfs_go(ps, adm0, t0, tb0).0 == seq![busy] + rec.0);
            }
            if t0 < ps[j as int].arrival {
                assert(gantt_view(gantt@) =~= g0 + seq![
                    SegV { id: Option::None, end: arrival as int },
                    SegV { id: Option::Some(ps[j as int].id), end: done as int },
                ]);
                assert(gantt_view(gantt@) + rec.0 =~= g0 + (seq![
                    SegV { id: Option::None, end: arrival as int },
                    SegV { id: Option::Some(ps[j as int].id), end: done as int },
                ] + rec.0));
            } else {
                assert(gantt_view(gantt@) =~= g0 + seq![
                    SegV { id: Option::Some(ps[j as int].id), end: done as int },
                ]);
                assert(gantt_view(gantt@) + rec.0 =~= g0 + (seq![
                    SegV { id: Option::Some(ps[j as int].id), end: done as int },
                ] + rec.0));
            }
        }
        nxt = find_next(&arrs, &adm);
        proof {
            lemma_count_false_nonneg(adm@);
        }
    }
    proof {
        assert(gantt_view(gantt@) + Seq::<SegV>::empty() =~= gantt_view(gantt@));
    }
    Result::Ok((gantt, table))
}

} // verus!
