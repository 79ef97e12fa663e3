//! Round-Robin: preemptive scheduling with a fixed quantum. A FIFO ready
//! queue holds the admitted processes; the front process runs for at most one
//! quantum, newly arrived processes are admitted, and only then is the
//! preempted process re-enqueued — a process arriving exactly at a preemption
//! is scheduled ahead of the preempted one.

use vstd::prelude::*;
use crate::model::{
    fcfs_view, gantt_view, init_table, sum_burst, times_v, wf_procs, GanttChart, OutputTable,
    ProcV, ProcessSegment, SchedError, SchedulingAlgorithms, SegV, SegmentInput, Times, TimesV,
};
use crate::mode::AppState;
use crate::fcfs::table_v;
use crate::util::{
    arrivals, count_false, find_next, lemma_count_false_nonneg, lemma_count_false_update,
    lemma_max_arrival, lemma_max_arrival_nonneg, lemma_next_arr, next_arr,
};

verus! {

/// Sum of the remaining burst times.
pub open spec fn sum_rem(rem: Seq<u32>) -> int
    decreases rem.len(),
{
    if rem.len() == 0 {
        0
    } else {
        sum_rem(rem.drop_last()) + rem.last()
    }
}

pub proof fn lemma_sum_rem_nonneg(rem: Seq<u32>)
    ensures
        sum_rem(rem) >= 0,
    decreases rem.len(),
{
    if rem.len() > 0 {
        lemma_sum_rem_nonneg(rem.drop_last());
    }
}

pub proof fn lemma_sum_rem_update(rem: Seq<u32>, j: int, v: u32)
    requires
        0 <= j < rem.len(),
    ensures
        sum_rem(rem.update(j, v)) == sum_rem(rem) - rem[j] + v,
    decreases rem.len(),
{
    let u = rem.update(j, v);
    if j == rem.len() - 1 {
        assert(u.drop_last() =~= rem.drop_last());
    } else {
        assert(u.drop_last() =~= rem.drop_last().update(j, v));
        lemma_sum_rem_update(rem.drop_last(), j, v);
    }
}

proof fn lemma_rem_le_sum(rem: Seq<u32>, j: int)
    requires
        0 <= j < rem.len(),
    ensures
        rem[j] <= sum_rem(rem),
    decreases rem.len(),
{
    lemma_sum_rem_nonneg(rem.drop_last());
    if j < rem.len() - 1 {
        lemma_rem_le_sum(rem.drop_last(), j);
    }
}

proof fn lemma_sum_rem_bursts(ps: Seq<ProcV>, rem: Seq<u32>)
    requires
        rem.len() == ps.len(),
        forall|k: int| 0 <= k < ps.len() ==> rem[k] == ps[k].burst,
    ensures
        sum_rem(rem) == sum_burst(ps),
    decreases ps.len(),
{
    if ps.len() > 0 {
        lemma_sum_rem_bursts(ps.drop_last(), rem.drop_last());
    }
}

/// Per-process accounting: an unadmitted process still owes its whole burst,
/// and an admitted one has run for exactly `burst - rem` clock units by `t`.
pub open spec fn rr_acct(ps: Seq<ProcV>, adm: Seq<bool>, rem: Seq<u32>, t: int) -> bool {
    &&& rem.len() == ps.len()
    &&& adm.len() == ps.len()
    &&& forall|i: int|
        0 <= i < ps.len() ==> (#[trigger] adm[i] ==> ps[i].arrival + ps[i].burst - rem[i] <= t)
    &&& forall|i: int| 0 <= i < ps.len() ==> (!(#[trigger] adm[i]) ==> rem[i] == ps[i].burst)
}

/// Admits every process that has arrived by time `t`, in order of arrival
/// time and then input position; returns the new admission marks and the
/// admitted positions in admission order.
pub open spec fn rr_admit(ps: Seq<ProcV>, adm: Seq<bool>, t: int) -> (Seq<bool>, Seq<int>)
    decreases count_false(adm),
    via rr_admit_dec
{
    match next_arr(arrivals(ps), adm, 0) {
        Option::Some(j) => if ps[j].arrival <= t {
            let ar = rr_admit(ps, adm.update(j, true), t);
            (ar.0, seq![j] + ar.1)
        } else {
            (adm, Seq::empty())
        },
        Option::None => (adm, Seq::empty()),
    }
}

#[via_fn]
proof fn rr_admit_dec(ps: Seq<ProcV>, adm: Seq<bool>, t: int) {
    lemma_next_arr(arrivals(ps), adm, 0);
    lemma_count_false_nonneg(adm);
    match next_arr(arrivals(ps), adm, 0) {
        Option::Some(j) => {
            lemma_count_false_update(adm, j);
            lemma_count_false_nonneg(adm.update(j, true));
        },
        Option::None => {},
    }
}

pub proof fn lemma_rr_admit_measure(ps: Seq<ProcV>, adm: Seq<bool>, t: int)
    ensures
        ({
            let ar = rr_admit(ps, adm, t);
            &&& ar.0.len() == adm.len()
            &&& count_false(ar.0) <= count_false(adm)
            &&& match next_arr(arrivals(ps), adm, 0) {
                Option::Some(j) => ps[j].arrival <= t ==> count_false(ar.0) < count_false(adm),
                Option::None => ar == (adm, Seq::<int>::empty()),
            }
            &&& match next_arr(arrivals(ps), ar.0, 0) {
                Option::Some(k) => ps[k].arrival > t,
                Option::None => true,
            }
        }),
    decreases count_false(adm),
{
    lemma_next_arr(arrivals(ps), adm, 0);
    lemma_count_false_nonneg(adm);
    match next_arr(arrivals(ps), adm, 0) {
        Option::Some(j) => {
            if ps[j].arrival <= t {
                lemma_count_false_update(adm, j);
                lemma_count_false_nonneg(adm.update(j, true));
                lemma_rr_admit_measure(ps, adm.update(j, true), t);
            }
        },
        Option::None => {},
    }
}

/// What admission does to membership: already-admitted processes stay
/// admitted, each newly admitted process appears exactly once in the
/// admission order, and afterwards every still-unadmitted process arrives
/// after `t`.
pub proof fn lemma_rr_admit_props(ps: Seq<ProcV>, adm: Seq<bool>, t: int)
    ensures
        ({
            let ar = rr_admit(ps, adm, t);
            &&& ar.0.len() == adm.len()
            &&& forall|i: int| 0 <= i < adm.len() && #[trigger] adm[i] ==> ar.0[i]
            &&& forall|i: int|
                0 <= i < adm.len() && !adm[i] && #[trigger] ar.0[i] ==> ar.1.contains(i)
            &&& forall|k: int|
                0 <= k < ar.1.len() ==> 0 <= (#[trigger] ar.1[k]) < ps.len() && ar.0[ar.1[k]]
                    && !adm[ar.1[k]] && ps[ar.1[k]].arrival <= t
            &&& forall|k1: int, k2: int|
                0 <= k1 < k2 < ar.1.len() ==> #[trigger] ar.1[k1] != #[trigger] ar.1[k2]
            &&& match next_arr(arrivals(ps), ar.0, 0) {
                Option::Some(k) => ps[k].arrival > t,
                Option::None => true,
            }
        }),
    decreases count_false(adm),
{
    lemma_next_arr(arrivals(ps), adm, 0);
    lemma_count_false_nonneg(adm);
    match next_arr(arrivals(ps), adm, 0) {
        Option::Some(j) => {
            if ps[j].arrival <= t {
                let adm2 = adm.update(j, true);
                lemma_count_false_update(adm, j);
                lemma_count_false_nonneg(adm2);
                lemma_rr_admit_props(ps, adm2, t);
                let ar2 = rr_admit(ps, adm2, t);
                let ar = rr_admit(ps, adm, t);
                assert(ar.1 == seq![j] + ar2.1);
                assert(ar.1[0] == j);
                assert(forall|k: int| 0 <= k < ar2.1.len() ==> ar.1[k + 1] == ar2.1[k]);
                assert forall|i: int|
                    0 <= i < adm.len() && #[trigger] adm[i] implies ar.0[i] by {
                    assert(adm2[i]);
                };
                assert forall|k: int|
                    0 <= k < ar.1.len() implies 0 <= (#[trigger] ar.1[k]) < ps.len()
                    && ar.0[ar.1[k]] && !adm[ar.1[k]] && ps[ar.1[k]].arrival <= t by {
                    if k == 0 {
                        assert(ar.1[0] == j);
                        assert(adm2[j]);
                    } else {
                        assert(ar.1[k] == ar2.1[k - 1]);
                    }
                };
                assert forall|k1: int, k2: int|
                    0 <= k1 < k2 < ar.1.len() implies ar.1[k1] != ar.1[k2] by {
                    assert(ar.1[k2] == ar2.1[k2 - 1]);
                    assert(!adm2[ar2.1[k2 - 1]]);
                    if k1 > 0 {
                        assert(ar.1[k1] == ar2.1[k1 - 1]);
                    } else {
                        assert(ar.1[0] == j);
                    }
                };
                assert forall|i: int|
                    0 <= i < adm.len() && !adm[i] && #[trigger] ar.0[i] implies ar.1.contains(
                    i,
                ) by {
                    if i == j {
                        assert(ar.1[0] == i);
                    } else {
                        assert(!adm2[i]);
                        assert(ar2.1.contains(i));
                        let k = choose|k: int| 0 <= k < ar2.1.len() && ar2.1[k] == i;
                        assert(ar.1[k + 1] == i);
                    }
                };
            }
        },
        Option::None => {},
    }
}

/// The timeline emitted and the timing table produced from a running state:
/// the front of the queue runs for at most one quantum; if it completes its
/// timing entry is recorded; the newly arrived are admitted, and only then is
/// the preempted process re-enqueued. An empty queue idles the clock forward
/// to the next arrival.
pub open spec fn rr_go(
    ps: Seq<ProcV>,
    adm: Seq<bool>,
    queue: Seq<int>,
    rem: Seq<u32>,
    q: u32,
    t: int,
    table: Seq<TimesV>,
) -> (Seq<SegV>, Seq<TimesV>)
    decreases sum_rem(rem), count_false(adm), queue.len(),
    via rr_go_dec
{
    if queue.len() > 0 {
        let j = queue[0];
        if 0 <= j < ps.len() && rem.len() == ps.len() && rem[j] >= 1 {
            let step: int = if q >= 1 {
                q as int
            } else {
                1
            };
            let inc: int = if step < rem[j] {
                step
            } else {
                rem[j] as int
            };
            let t2 = t + inc;
            let rem2 = rem.update(j, (rem[j] - inc) as u32);
            let table2 = if rem[j] == inc {
                table.update(
                    j,
                    TimesV {
                        completion: t2,
                        waiting: t2 - ps[j].arrival - ps[j].burst,
                        turnaround: t2 - ps[j].arrival,
                    },
                )
            } else {
                table
            };
            let ar = rr_admit(ps, adm, t2);
            let queue2 = queue.drop_first() + ar.1 + (if rem[j] > inc {
                seq![j]
            } else {
                Seq::<int>::empty()
            });
            let rec = rr_go(ps, ar.0, queue2, rem2, q, t2, table2);
            (seq![SegV { id: Option::Some(ps[j].id), end: t2 }] + rec.0, rec.1)
        } else {
            rr_go(ps, adm, queue.drop_first(), rem, q, t, table)
        }
    } else {
        match next_arr(arrivals(ps), adm, 0) {
            Option::None => (Seq::empty(), table),
            Option::Some(j) => {
                let t2 = ps[j].arrival as int;
                let ar = rr_admit(ps, adm, t2);
                let rec = rr_go(ps, ar.0, ar.1, rem, q, t2, table);
                (seq![SegV { id: Option::None, end: t2 }] + rec.0, rec.1)
            },
        }
    }
}

#[via_fn]
proof fn rr_go_dec(
    ps: Seq<ProcV>,
    adm: Seq<bool>,
    queue: Seq<int>,
    rem: Seq<u32>,
    q: u32,
    t: int,
    table: Seq<TimesV>,
) {
    lemma_sum_rem_nonneg(rem);
    lemma_count_false_nonneg(adm);
    if queue.len() > 0 {
        let j = queue[0];
        if 0 <= j < ps.len() && rem.len() == ps.len() && rem[j] >= 1 {
            let step: int = if q >= 1 {
                q as int
            } else {
                1
            };
            let inc: int = if step < rem[j] {
                step
            } else {
                rem[j] as int
            };
            let t2 = t + inc;
            lemma_sum_rem_update(rem, j, (rem[j] - inc) as u32);
            lemma_sum_rem_nonneg(rem.update(j, (rem[j] - inc) as u32));
            lemma_rr_admit_measure(ps, adm, t2);
            lemma_count_false_nonneg(rr_admit(ps, adm, t2).0);
        }
    } else {
        lemma_next_arr(arrivals(ps), adm, 0);
        match next_arr(arrivals(ps), adm, 0) {
            Option::Some(j) => {
                lemma_rr_admit_measure(ps, adm, ps[j].arrival as int);
                lemma_count_false_nonneg(rr_admit(ps, adm, ps[j].arrival as int).0);
            },
            Option::None => {},
        }
    }
}

/// The Round-Robin timeline and timing table for a batch of processes and a
/// positive quantum: the earliest-arriving process is admitted first, behind
/// a leading idle segment when it arrives after time 0.
pub open spec fn rr_spec(ps: Seq<ProcV>, q: u32) -> (Seq<SegV>, Seq<TimesV>) {
    let adm = Seq::new(ps.len(), |i: int| false);
    let rem = Seq::new(ps.len(), |i: int| ps[i].burst);
    match next_arr(arrivals(ps), adm, 0) {
        Option::None => (Seq::empty(), init_table(ps.len())),
        Option::Some(j0) => {
            let t0 = ps[j0].arrival as int;
            let lead: Seq<SegV> = if t0 > 0 {
                seq![SegV { id: Option::None, end: t0 }]
            } else {
                Seq::empty()
            };
            let rec = rr_go(ps, adm.update(j0, true), seq![j0], rem, q, t0, init_table(ps.len()));
            (lead + rec.0, rec.1)
        },
    }
}

/// The queue positions as the specification sees them.
pub open spec fn qview(q: Seq<usize>) -> Seq<int> {
    q.map_values(|u: usize| u as int)
}

/// A process sits in the ready queue at most once.
pub open spec fn qdistinct(q: Seq<usize>) -> bool {
    forall|k1: int, k2: int| 0 <= k1 < k2 < q.len() ==> #[trigger] q[k1] != #[trigger] q[k2]
}

/// Admits every process that has arrived by time `t` to the back of the
/// queue, mirroring `rr_admit` step by step.
fn rr_admit_exec(
    arrs: &Vec<u32>,
    adm: &mut Vec<bool>,
    queue: &mut Vec<usize>,
    t: u32,
    Ghost(ps): Ghost<Seq<ProcV>>,
) -> (newly: Ghost<Seq<int>>)
    requires
        wf_procs(ps),
        arrs@ == arrivals(ps),
        old(adm)@.len() == ps.len(),
        forall|k: int|
            0 <= k < old(queue)@.len() ==> (#[trigger] old(queue)@[k]) < ps.len()
                && old(adm)@[old(queue)@[k] as int],
        qdistinct(old(queue)@),
    ensures
        (final(adm)@, newly@) == rr_admit(ps, old(adm)@, t as int),
        final(adm)@.len() == ps.len(),
        qview(final(queue)@) == qview(old(queue)@) + newly@,
        forall|k: int|
            0 <= k < final(queue)@.len() ==> (#[trigger] final(queue)@[k]) < ps.len()
                && final(adm)@[final(queue)@[k] as int],
        forall|k: int| 0 <= k < ps.len() && old(adm)@[k] ==> #[trigger] final(adm)@[k],
        forall|k: int|
            0 <= k < ps.len() && !old(adm)@[k] && #[trigger] final(adm)@[k] ==> ps[k].arrival <= t,
        qdistinct(final(queue)@),
        forall|k: int|
            old(queue)@.len() <= k < final(queue)@.len() ==> !old(adm)@[(
            #[trigger] final(queue)@[k]) as int],
{
    let ghost adm_init = adm@;
    let ghost q_init = queue@;
    let mut nxt = find_next(arrs, adm);
    let mut go: bool = match nxt {
        Option::Some(j) => {
            proof {
                lemma_next_arr(arrs@, adm@, 0);
            }
            arrs[j] <= t
        },
        Option::None => false,
    };
    while go
        invariant
            wf_procs(ps),
            arrs@ == arrivals(ps),
            adm@.len() == ps.len(),
            match nxt {
                Option::None => next_arr(arrs@, adm@, 0) is None,
                Option::Some(j) => next_arr(arrs@, adm@, 0) == Option::Some(j as int),
            },
            go == match nxt {
                Option::None => false,
                Option::Some(j) => arrs@[j as int] <= t,
            },
            rr_admit(ps, adm@, t as int).0 == rr_admit(ps, adm_init, t as int).0,
            qview(queue@) + rr_admit(ps, adm@, t as int).1 == qview(q_init) + rr_admit(
                ps,
                adm_init,
                t as int,
            ).1,
            forall|k: int| 0 <= k < ps.len() && adm_init[k] ==> #[trigger] adm@[k],
            forall|k: int|
                0 <= k < ps.len() && !adm_init[k] && #[trigger] adm@[k] ==> ps[k].arrival <= t,
            forall|k: int|
                0 <= k < queue@.len() ==> (#[trigger] queue@[k]) < ps.len() && adm@[queue@[k] as int],
            forall|k: int| 0 <= k < q_init.len() ==> (#[trigger] queue@[k]) == q_init[k],
            queue@.len() >= q_init.len(),
            qdistinct(queue@),
            forall|k: int|
                q_init.len() <= k < queue@.len() ==> !adm_init[(#[trigger] queue@[k]) as int],
        decreases count_false(adm@),
    {
        let j = nxt.unwrap();
        proof {
            lemma_next_arr(arrs@, adm@, 0);
        }
        let ghost adm0 = adm@;
        let ghost q0 = queue@;
        adm[j] = true;
        queue.push(j);
        proof {
            assert(!adm0[j as int]);
            assert(forall|k: int| 0 <= k < q0.len() ==> (#[trigger] queue@[k]) == q0[k]);
            assert(forall|k: int|
                0 <= k < q0.len() ==> (#[trigger] q0[k]) < ps.len() && adm0[q0[k] as int]);
            assert(qdistinct(queue@));
            assert(adm@ =~= adm0.update(j as int, true));
            lemma_count_false_update(adm0, j as int);
            lemma_count_false_nonneg(adm@);
            assert(qview(queue@) =~= qview(q0) + seq![j as int]);
            let ar = rr_admit(ps, adm@, t as int);
            assert(rr_admit(ps, adm0, t as int).1 == seq![j as int] + ar.1);
            assert(qview(q0) + (seq![j as int] + ar.1) =~= (qview(q0) + seq![j as int]) + ar.1);
        }
        nxt = find_next(arrs, adm);
        go = match nxt {
            Option::Some(j2) => {
                proof {
                    lemma_next_arr(arrs@, adm@, 0);
                }
                arrs[j2] <= t
            },
            Option::None => false,
        };
    }
    proof {
        lemma_next_arr(arrs@, adm@, 0);
        assert(rr_admit(ps, adm@, t as int) == (adm@, Seq::<int>::empty()));
        assert(qview(queue@) + Seq::<int>::empty() =~= qview(queue@));
    }
    Ghost(rr_admit(ps, adm_init, t as int).1)
}

/// Simulates Round-Robin scheduling over the batch with the given quantum.
/// Fails with `ModeMismatch` unless the current mode is RR and with
/// `InvalidQuantum` on a zero quantum; otherwise the returned timeline and
/// timing table are exactly the ones `rr_spec` assigns to the input.
pub fn get_gantt_rr(state: &AppState, quantum: u32, inputs: Vec<SegmentInput>) -> (r: Result<
    (GanttChart, OutputTable),
    SchedError,
>)
    requires
        wf_procs(fcfs_view(inputs@)),
    ensures
        match r {
            Result::Ok(out) => {
                &&& state.algorithm == Option::Some(SchedulingAlgorithms::RR)
                &&& quantum >= 1
                &&& gantt_view(out.0@) == rr_spec(fcfs_view(inputs@), quantum).0
                &&& table_v(out.1@) == rr_spec(fcfs_view(inputs@), quantum).1
                &&& out.1@.len() == inputs@.len()
                &&& forall|i: int|
                    0 <= i < inputs@.len() ==> (#[trigger] out.1@[i]).0@ == inputs@[i].0@
            },
            Result::Err(e) => if state.algorithm != Option::Some(SchedulingAlgorithms::RR) {
                e == SchedError::ModeMismatch
            } else {
                e == SchedError::InvalidQuantum && quantum == 0
            },
        },
{
    match state.algorithm {
        Option::Some(SchedulingAlgorithms::RR) => {},
        _ => {
            return Result::Err(SchedError::ModeMismatch);
        },
    }
    if quantum == 0 {
        return Result::Err(SchedError::InvalidQuantum);
    }
    let ghost ps = fcfs_view(inputs@);
    let n = inputs.len();
    let mut ids: Vec<String> = Vec::new();
    let mut bursts: Vec<u32> = Vec::new();
    let mut arrs: Vec<u32> = Vec::new();
    let mut rem: Vec<u32> = Vec::new();
    let mut adm: Vec<bool> = Vec::new();
    let mut table: OutputTable = Vec::new();
    let mut idx: usize = 0;
    while idx < n
        invariant
            idx <= n,
            n == inputs@.len(),
            ps == fcfs_view(inputs@),
            ids@.len() == idx,
            bursts@.len() == idx,
            arrs@.len() == idx,
            rem@.len() == idx,
            adm@.len() == idx,
            table@.len() == idx,
            forall|k: int| 0 <= k < idx ==> (#[trigger] ids@[k])@ == ps[k].id,
            forall|k: int| 0 <= k < idx ==> bursts@[k] == ps[k].burst,
            forall|k: int| 0 <= k < idx ==> arrs@[k] == ps[k].arrival,
            forall|k: int| 0 <= k < idx ==> rem@[k] == ps[k].burst,
            forall|k: int| 0 <= k < idx ==> !(#[trigger] adm@[k]),
            forall|k: int| 0 <= k < idx ==> (#[trigger] table@[k]).0@ == ps[k].id,
            forall|k: int|
                0 <= k < idx ==> times_v((#[trigger] table@[k]).1) == (TimesV {
                    completion: 0,
                    waiting: 0,
                    turnaround: 0,
                }),
        decreases n - idx,
    {
        let p = &inputs[idx];
        ids.push(p.0.clone());
        bursts.push(p.1);
        arrs.push(p.2);
        rem.push(p.1);
        adm.push(false);
        table.push((p.0.clone(), Times::default()));
        idx = idx + 1;
    }
    let mut queue: Vec<usize> = Vec::new();
    let mut gantt: GanttChart = Vec::new();
    let mut t: u32 = 0;
    proof {
        assert(arrs@ =~= arrivals(ps));
        assert(adm@ =~= Seq::new(ps.len(), |i: int| false));
        assert(rem@ =~= Seq::new(ps.len(), |i: int| ps[i].burst));
        assert(table_v(table@) =~= init_table(ps.len()));
        lemma_sum_rem_bursts(ps, rem@);
        lemma_max_arrival_nonneg(ps);
    }
    let first = find_next(&arrs, &adm);
    let j0 = match first {
        Option::None => {
            proof {
                assert(gantt_view(gantt@) =~= rr_spec(ps, quantum).0);
                assert(table_v(table@) == rr_spec(ps, quantum).1);
            }
            return Result::Ok((gantt, table));
        },
        Option::Some(j0) => j0,
    };
    proof {
        lemma_next_arr(arrs@, adm@, 0);
        lemma_max_arrival(ps, j0 as int);
    }
    let ghost adm_blank = adm@;
    let t0 = arrs[j0];
    if t0 > 0 {
        gantt.push(ProcessSegment { process_id: Option::None, end_time: t0 });
    }
    t = t0;
    adm[j0] = true;
    queue.push(j0);
    proof {
        assert(adm@ =~= adm_blank.update(j0 as int, true));
        assert(qview(queue@) =~= seq![j0 as int]);
        if t0 > 0 {
            assert(gantt_view(gantt@) =~= seq![SegV { id: Option::None, end: t0 as int }]);
        } else {
            assert(gantt_view(gantt@) =~= Seq::<SegV>::empty());
        }
        assert(gantt_view(gantt@) + rr_go(
            ps,
            adm@,
            qview(queue@),
            rem@,
            quantum,
            t as int,
            table_v(table@),
        ).0 =~= rr_spec(ps, quantum).0);
    }
    let mut nxt = find_next(&arrs, &adm);
    while queue.len() > 0 || nxt.is_some()
        invariant
            wf_procs(ps),
            quantum >= 1,
            n == ps.len(),
            arrs@ == arrivals(ps),
            ids@.len() == ps.len(),
            bursts@.len() == ps.len(),
            rem@.len() == ps.len(),
            adm@.len() == ps.len(),
            table@.len() == ps.len(),
            forall|k: int| 0 <= k < ps.len() ==> (#[trigger] ids@[k])@ == ps[k].id,
            forall|k: int| 0 <= k < ps.len() ==> bursts@[k] == ps[k].burst,
            forall|k: int| 0 <= k < ps.len() ==> (#[trigger] table@[k]).0@ == ps[k].id,
            rr_acct(ps, adm@, rem@, t as int),
            qdistinct(queue@),
            forall|k: int|
                0 <= k < queue@.len() ==> (#[trigger] queue@[k]) < ps.len() && adm@[queue@[k] as int]
                    && rem@[queue@[k] as int] >= 1,
            match nxt {
                Option::None => next_arr(arrs@, adm@, 0) is None,
                Option::Some(j) => next_arr(arrs@, adm@, 0) == Option::Some(j as int),
            },
            queue@.len() == 0 ==> match nxt {
                Option::None => true,
                Option::Some(j) => arrs@[j as int] > t,
            },
            t + sum_rem(rem@) <= u32::MAX,
            sum_rem(rem@) <= sum_burst(ps),
            gantt_view(gantt@) + rr_go(
                ps,
                adm@,
                qview(queue@),
                rem@,
                quantum,
                t as int,
                table_v(table@),
            ).0 == rr_spec(ps, quantum).0,
            rr_go(ps, adm@, qview(queue@), rem@, quantum, t as int, table_v(table@)).1 == rr_spec(
                ps,
                quantum,
            ).1,
        decreases sum_rem(rem@), count_false(adm@), queue@.len(),
    {
        let ghost adm0 = adm@;
        let ghost q0 = qview(queue@);
        let ghost q0u = queue@;
        let ghost rem0 = rem@;
        let ghost t0g = t as int;
        let ghost tb0 = table_v(table@);
        let ghost g0 = gantt_view(gantt@);
        if queue.len() > 0 {
            let j = queue.remove(0);
            proof {
                assert(queue@ =~= q0u.drop_first());
                assert(qview(queue@) =~= q0.drop_first());
                lemma_rem_le_sum(rem@, j as int);
            }
            let rj = rem[j];
            let inc = if quantum < rj {
                quantum
            } else {
                rj
            };
            let done = t + inc;
            gantt.push(ProcessSegment { process_id: Option::Some(ids[j].clone()), end_time: done });
            rem[j] = rj - inc;
            proof {
                lemma_sum_rem_update(rem0, j as int, (rj - inc) as u32);
            }
            if rj == inc {
                let entry = table.remove(j);
                table.insert(
                    j,
                    (
                        entry.0,
                        Times {
                            completion: done,
                            waiting: done - arrs[j] - bursts[j],
                            turnaround: done - arrs[j],
                        },
                    ),
                );
            }
            t = done;
            let ghost adm_mid = adm@;
            let ghost q_mid = queue@;
            let newly = rr_admit_exec(&arrs, &mut adm, &mut queue, t, Ghost(ps));
            let ghost q_adm = queue@;
            if rem[j] > 0 {
                queue.push(j);
            }
            proof {
                // per-process accounting survives the slice and the admissions
                assert forall|i: int|
                    0 <= i < ps.len() && #[trigger] adm@[i] implies ps[i].arrival + ps[i].burst
                    - rem@[i] <= t as int by {
                    if adm0[i] {
                        assert(ps[i].arrival + ps[i].burst - rem0[i] <= t0g);
                        if i != j as int {
                            assert(rem@[i] == rem0[i]);
                        }
                    } else {
                        assert(ps[i].arrival <= t);
                        assert(rem0[i] == ps[i].burst);
                        assert(i != j as int);
                        assert(rem@[i] == rem0[i]);
                    }
                };
                assert forall|i: int|
                    0 <= i < ps.len() && !(#[trigger] adm@[i]) implies rem@[i] == ps[i].burst by {
                    assert(!adm0[i]);
                    assert(i != j as int);
                };
                // the queue still holds valid, admitted, unfinished processes,
                // each at most once
                assert forall|k: int| 0 <= k < q_mid.len() implies q_adm[k] == q_mid[k] by {
                    assert(qview(q_adm)[k] == (qview(q_mid) + newly@)[k]);
                    assert(qview(q_adm)[k] == q_adm[k] as int);
                    assert(qview(q_mid)[k] == q_mid[k] as int);
                };
                assert(q0u[0] == j);
                assert(adm0[j as int]);
                assert forall|k: int| 0 <= k < q_adm.len() implies q_adm[k] != j by {
                    if k < q_mid.len() {
                        assert(q_adm[k] == q_mid[k]);
                        assert(q_mid[k] == q0u[k + 1]);
                        assert(q0u[0] != q0u[k + 1]);
                    } else {
                        assert(!adm_mid[(q_adm[k]) as int]);
                    }
                };
                assert forall|k: int|
                    0 <= k < queue@.len() implies (#[trigger] queue@[k]) < ps.len()
                    && adm@[queue@[k] as int] && rem@[queue@[k] as int] >= 1 by {
                    if k < q_adm.len() {
                        assert(queue@[k] == q_adm[k]);
                        assert(q_adm[k] != j);
                        assert(rem@[q_adm[k] as int] == rem0[q_adm[k] as int]);
                        if k >= q_mid.len() {
                            assert(!adm_mid[(q_adm[k]) as int]);
                            assert(!adm0[(q_adm[k]) as int]);
                            assert(rem0[q_adm[k] as int] == ps[q_adm[k] as int].burst);
                        } else {
                            assert(q_adm[k] == q_mid[k]);
                            assert(q_mid[k] == q0u[k + 1]);
                        }
                    } else {
                        assert(queue@[k] == j);
                    }
                };
                assert(qdistinct(queue@)) by {
                    assert(qdistinct(q_adm));
                    assert(forall|k: int|
                        0 <= k < q_adm.len() ==> (#[trigger] queue@[k]) == q_adm[k]);
                };
                let step: int = quantum as int;
                let inc_s: int = if step < rem0[j as int] {
                    step
                } else {
                    rem0[j as int] as int
                };
                assert(inc_s == inc as int);
                let tv = TimesV {
                    completion: done as int,
                    waiting: done - ps[j as int].arrival - ps[j as int].burst,
                    turnaround: done - ps[j as int].arrival,
                };
                if rj == inc {
                    assert(table_v(table@) =~= tb0.update(j as int, tv));
                } else {
                    assert(table_v(table@) == tb0);
                }
                let ar = rr_admit(ps, adm0, done as int);
                assert(ar.0 == adm@);
                let q2 = q0.drop_first() + ar.1 + (if rem0[j as int] > inc_s {
                    seq![j as int]
                } else {
                    Seq::<int>::empty()
                });
                if rem0[j as int] > inc_s {
                    assert(qview(queue@) =~= q2);
                } else {
                    assert(qview(queue@) + Seq::<int>::empty() =~= qview(queue@));
                    assert(qview(queue@) =~= q2);
                }
                let rec = rr_go(ps, adm@, qview(queue@), rem@, quantum, t as int, table_v(table@));
                let busy = SegV { id: Option::Some(ps[j as int].id), end: done as int };
                assert(rr_go(ps, adm0, q0, rem0, quantum, t0g, tb0).0 == seq![busy] + rec.0);
                assert(rr_go(ps, adm0, q0, rem0, quantum, t0g, tb0).1 == rec.1);
                assert(gantt_view(gantt@) =~= g0 + seq![busy]);
                assert(gantt_view(gantt@) + rec.0 =~= g0 + (seq![busy] + rec.0));
                lemma_count_false_nonneg(adm@);
                lemma_count_false_nonneg(adm0);
                lemma_rr_admit_measure(ps, adm0, done as int);
                lemma_sum_rem_nonneg(rem@);
                assert(adm@ == rr_admit(ps, adm0, done as int).0);
                assert(match next_arr(arrivals(ps), adm@, 0) {
                    Option::Some(k) => ps[k].arrival > done as int,
                    Option::None => true,
                });
            }
        } else {
            let j = nxt.unwrap();
            proof {
                lemma_next_arr(arrs@, adm@, 0);
                lemma_max_arrival(ps, j as int);
            }
            let t2 = arrs[j];
            gantt.push(ProcessSegment { process_id: Option::None, end_time: t2 });
            t = t2;
            let newly = rr_admit_exec(&arrs, &mut adm, &mut queue, t, Ghost(ps));
            proof {
                assert forall|i: int|
                    0 <= i < ps.len() && #[trigger] adm@[i] implies ps[i].arrival + ps[i].burst
                    - rem@[i] <= t as int by {
                    if adm0[i] {
                        assert(ps[i].arrival + ps[i].burst - rem0[i] <= t0g);
                    } else {
                        assert(ps[i].arrival <= t);
                        assert(rem0[i] == ps[i].burst);
                    }
                };
                assert forall|i: int|
                    0 <= i < ps.len() && !(#[trigger] adm@[i]) implies rem@[i] == ps[i].burst by {
                    assert(!adm0[i]);
                };
                assert forall|k: int|
                    0 <= k < queue@.len() implies (#[trigger] queue@[k]) < ps.len()
                    && adm@[queue@[k] as int] && rem@[queue@[k] as int] >= 1 by {
                    assert(!adm0[(queue@[k]) as int]);
                    assert(rem0[queue@[k] as int] == ps[queue@[k] as int].burst);
                };
                let ar = rr_admit(ps, adm0, t2 as int);
                assert(ar.0 == adm@);
                assert(qview(queue@) =~= Seq::<int>::empty() + ar.1);
                assert(qview(queue@) =~= ar.1);
                let rec = rr_go(ps, adm@, qview(queue@), rem@, quantum, t as int, table_v(table@));
                let idle = SegV { id: Option::None, end: t2 as int };
                assert(rr_go(ps, adm0, q0, rem0, quantum, t0g, tb0).0 == seq![idle] + rec.0);
                assert(rr_go(ps, adm0, q0, rem0, quantum, t0g, tb0).1 == rec.1);
                assert(gantt_view(gantt@) =~= g0 + seq![idle]);
                assert(gantt_view(gantt@) + rec.0 =~= g0 + (seq![idle] + rec.0));
                lemma_count_false_nonneg(adm@);
                lemma_count_false_nonneg(adm0);
                lemma_rr_admit_measure(ps, adm0, t2 as int);
                lemma_sum_rem_nonneg(rem@);
                assert(adm@ == rr_admit(ps, adm0, t2 as int).0);
                assert(match next_arr(arrivals(ps), adm@, 0) {
                    Option::Some(k) => ps[k].arrival > t2 as int,
                    Option::None => true,
                });
            }
        }
        nxt = find_next(&arrs, &adm);
        proof {
            lemma_next_arr(arrs@, adm@, 0);
            match nxt {
                Option::Some(j2) => {
                    assert(arrs@[j2 as int] == arrivals(ps)[j2 as int]);
                    assert(arrivals(ps)[j2 as int] == ps[j2 as int].arrival);
                },
                Option::None => {},
            }
        }
    }
    proof {
        assert(gantt_view(gantt@) + Seq::<SegV>::empty() =~= gantt_view(gantt@));
    }
    Result::Ok((gantt, table))
}

} // verus!
