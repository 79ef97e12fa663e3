//! The shared non-preemptive engine behind SJF and the priority policy:
//! admission by arrival time into a ready set ordered by a per-policy key
//! (burst time for SJF, priority value for Priority), idle gaps when nothing
//! has arrived, and each selected process running to completion.

use vstd::prelude::*;
use vstd::multiset::Multiset;
use vstd::seq_lib::group_to_multiset_ensures;
use crate::model::{
    gantt_view, init_table, prio_view, sjf_view, sum_burst, times_v, wf_procs, GanttChart,
    OutputTable, PrioritySegmentInput, ProcV, ProcessSegment, SchedError, SchedulingAlgorithms,
    SegV, SegmentInput, Times, TimesV,
};
use crate::mode::AppState;
use crate::fcfs::table_v;
use crate::ready::{
    insert_sorted, lemma_insert_sorted, lemma_pop_min, ready_contents, ready_insert, ready_len,
    ready_new, ready_remove_min, sorted_triples,
};
use crate::util::{
    arrivals, count_false, find_next, lemma_count_false_nonneg, lemma_count_false_update,
    lemma_max_arrival, lemma_max_arrival_nonneg, lemma_next_arr, lemma_sum_unadm_all,
    lemma_sum_unadm_update, next_arr, sum_unadm,
};

verus! {

/// Triples that may sit in the ready set when the clock stands at `t`: each
/// names a real process, carries that process's key and arrival time, and has
/// already arrived.
pub open spec fn ready_ok(ps: Seq<ProcV>, r: Seq<(u32, u32, u32)>, t: int) -> bool {
    forall|i: int|
        0 <= i < r.len() ==> {
            let x = #[trigger] r[i];
            &&& 0 <= x.2 < ps.len()
            &&& x.0 == ps[x.2 as int].key
            &&& x.1 == ps[x.2 as int].arrival
            &&& x.1 <= t
        }
}

/// Burst time still owed to the processes waiting in the ready set.
pub open spec fn ready_burst(ps: Seq<ProcV>, r: Seq<(u32, u32, u32)>) -> int
    decreases r.len(),
{
    if r.len() == 0 {
        0
    } else {
        (if 0 <= r[0].2 < ps.len() {
            ps[r[0].2 as int].burst as int
        } else {
            0
        }) + ready_burst(ps, r.drop_first())
    }
}

proof fn lemma_ready_burst_nonneg(ps: Seq<ProcV>, r: Seq<(u32, u32, u32)>)
    ensures
        ready_burst(ps, r) >= 0,
    decreases r.len(),
{
    if r.len() > 0 {
        lemma_ready_burst_nonneg(ps, r.drop_first());
    }
}

/// The burst contribution a single ready-set triple stands for.
spec fn burst_of(ps: Seq<ProcV>, x: (u32, u32, u32)) -> int {
    if 0 <= x.2 < ps.len() {
        ps[x.2 as int].burst as int
    } else {
        0
    }
}

proof fn lemma_ready_burst_cons(ps: Seq<ProcV>, s: Seq<(u32, u32, u32)>, y: (u32, u32, u32))
    ensures
        ready_burst(ps, seq![y] + s) == burst_of(ps, y) + ready_burst(ps, s),
{
    let c = seq![y] + s;
    assert(c[0] == y);
    assert(c.drop_first() =~= s);
    assert(ready_burst(ps, c) == burst_of(ps, c[0]) + ready_burst(ps, c.drop_first()));
}

proof fn lemma_ready_burst_insert(ps: Seq<ProcV>, r: Seq<(u32, u32, u32)>, x: (u32, u32, u32))
    ensures
        ready_burst(ps, insert_sorted(r, x)) == ready_burst(ps, r) + burst_of(ps, x),
    decreases r.len(),
{
    if r.len() == 0 {
        assert(seq![x] =~= seq![x] + Seq::<(u32, u32, u32)>::empty());
        lemma_ready_burst_cons(ps, Seq::empty(), x);
        assert(ready_burst(ps, Seq::<(u32, u32, u32)>::empty()) == 0);
    } else if crate::ready::triple_le(x, r[0]) {
        lemma_ready_burst_cons(ps, r, x);
    } else {
        let rec = insert_sorted(r.drop_first(), x);
        lemma_ready_burst_insert(ps, r.drop_first(), x);
        lemma_ready_burst_cons(ps, rec, r[0]);
        lemma_ready_burst_cons(ps, r.drop_first(), r[0]);
        assert(seq![r[0]] + r.drop_first() =~= r);
    }
}

/// Admits every process that has arrived by time `t`, in order of arrival
/// time and then input position, into the ready set.
pub open spec fn admit_all(
    ps: Seq<ProcV>,
    adm: Seq<bool>,
    ready: Seq<(u32, u32, u32)>,
    t: int,
) -> (Seq<bool>, Seq<(u32, u32, u32)>)
    decreases count_false(adm),
    via admit_all_dec
{
    match next_arr(arrivals(ps), adm, 0) {
        Option::Some(j) => if ps[j].arrival <= t {
            admit_all(
                ps,
                adm.update(j, true),
                insert_sorted(ready, (ps[j].key, ps[j].arrival, j as u32)),
                t,
            )
        } else {
            (adm, ready)
        },
        Option::None => (adm, ready),
    }
}

#[via_fn]
proof fn admit_all_dec(ps: Seq<ProcV>, adm: Seq<bool>, ready: Seq<(u32, u32, u32)>, t: int) {
    lemma_next_arr(arrivals(ps), adm, 0);
    lemma_count_false_nonneg(adm);
    match next_arr(arrivals(ps), adm, 0) {
        Option::Some(j) => {
            lemma_count_false_update(adm, j);
            lemma_count_false_nonneg(adm.update(j, true));
        },
        Option::None => {},
    }
}

proof fn lemma_insert_sorted_len(r: Seq<(u32, u32, u32)>, x: (u32, u32, u32))
    ensures
        insert_sorted(r, x).len() == r.len() + 1,
    decreases r.len(),
{
    if r.len() > 0 && !crate::ready::triple_le(x, r[0]) {
        lemma_insert_sorted_len(r.drop_first(), x);
    }
}

/// How admission changes the counting measures: admitted processes move one
/// by one from the unadmitted set into the ready set.
pub proof fn lemma_admit_all_measure(
    ps: Seq<ProcV>,
    adm: Seq<bool>,
    ready: Seq<(u32, u32, u32)>,
    t: int,
)
    ensures
        ({
            let ar = admit_all(ps, adm, ready, t);
            &&& ar.0.len() == adm.len()
            &&& count_false(ar.0) <= count_false(adm)
            &&& ar.1.len() == ready.len() + count_false(adm) - count_false(ar.0)
            &&& match next_arr(arrivals(ps), adm, 0) {
                Option::Some(j) => ps[j].arrival <= t ==> count_false(ar.0) < count_false(adm),
                Option::None => ar == (adm, ready),
            }
        }),
    decreases count_false(adm),
{
    lemma_next_arr(arrivals(ps), adm, 0);
    lemma_count_false_nonneg(adm);
    match next_arr(arrivals(ps), adm, 0) {
        Option::Some(j) => {
            if ps[j].arrival <= t {
                lemma_count_false_update(adm, j);
                lemma_count_false_nonneg(adm.update(j, true));
                lemma_insert_sorted_len(ready, (ps[j].key, ps[j].arrival, j as u32));
                lemma_admit_all_measure(
                    ps,
                    adm.update(j, true),
                    insert_sorted(ready, (ps[j].key, ps[j].arrival, j as u32)),
                    t,
                );
            }
        },
        Option::None => {},
    }
}

/// Whether some triple in the ready set names input position `i`.
pub open spec fn ready_has(r: Seq<(u32, u32, u32)>, i: int) -> bool {
    exists|k: int| 0 <= k < r.len() && (#[trigger] r[k]).2 == i
}

/// What admission does to membership: already-admitted processes stay
/// admitted, each newly admitted process enters the ready set, nothing leaves
/// it, and afterwards every still-unadmitted process arrives after `t`.
pub proof fn lemma_admit_all_props(ps: Seq<ProcV>, adm: Seq<bool>, ready: Seq<(u32, u32, u32)>, t: int)
    requires
        ps.len() <= u32::MAX,
    ensures
        ({
            let ar = admit_all(ps, adm, ready, t);
            &&& (ready_ok(ps, ready, t) ==> ready_ok(ps, ar.1, t))
            &&& match next_arr(arrivals(ps), ar.0, 0) {
                Option::Some(k) => ps[k].arrival > t,
                Option::None => true,
            }
            &&& forall|i: int| 0 <= i < adm.len() && adm[i] ==> ar.0[i]
            &&& forall|i: int| 0 <= i < adm.len() && !adm[i] && ar.0[i] ==> ready_has(ar.1, i)
            &&& forall|i: int| ready_has(ready, i) ==> ready_has(ar.1, i)
            &&& forall|i: int|
                ready_has(ar.1, i) ==> ready_has(ready, i) || (0 <= i < adm.len() && !adm[i]
                    && ar.0[i])
            &&& (sorted_triples(ready) ==> sorted_triples(ar.1))
        }),
    decreases count_false(adm),
{
    lemma_next_arr(arrivals(ps), adm, 0);
    lemma_count_false_nonneg(adm);
    match next_arr(arrivals(ps), adm, 0) {
        Option::Some(j) => {
            if ps[j].arrival <= t {
                let x = (ps[j].key, ps[j].arrival, j as u32);
                let r2 = insert_sorted(ready, x);
                lemma_count_false_update(adm, j);
                lemma_count_false_nonneg(adm.update(j, true));
                lemma_insert_sorted_members(ready, x);
                assert(ready_has(r2, j)) by {
                    let k = choose|k: int| 0 <= k < r2.len() && r2[k] == x;
                    assert(r2[k].2 == j as u32);
                };
                lemma_admit_all_props(ps, adm.update(j, true), r2, t);
                if sorted_triples(ready) {
                    lemma_insert_sorted(ready, x);
                }
                let adm2 = adm.update(j, true);
                let ar = admit_all(ps, adm, ready, t);
                assert(ar == admit_all(ps, adm2, r2, t));
                if ready_ok(ps, ready, t) {
                    assert forall|k: int|
                        0 <= k < r2.len() implies {
                        let y = #[trigger] r2[k];
                        0 <= y.2 < ps.len() && y.0 == ps[y.2 as int].key && y.1 == ps[y.2 as int].arrival
                            && y.1 <= t
                    } by {
                        if r2[k] != x {
                            let m = choose|m: int| 0 <= m < ready.len() && ready[m] == r2[k];
                            assert(ready[m] == r2[k]);
                        }
                    }
                    assert(ready_ok(ps, r2, t));
                }
                assert forall|i: int|
                    0 <= i < adm.len() && !adm[i] && ar.0[i] implies ready_has(ar.1, i) by {
                    if i == j {
                        assert(ready_has(r2, j));
                    } else {
                        assert(!adm2[i]);
                    }
                };
                assert(ready_ok(ps, ready, t) ==> ready_ok(ps, ar.1, t));
                assert(match next_arr(arrivals(ps), ar.0, 0) {
                    Option::Some(k) => ps[k].arrival > t,
                    Option::None => true,
                });
                assert forall|i: int| 0 <= i < adm.len() && #[trigger] adm[i] implies ar.0[i] by {
                    assert(adm2[i]);
                };
                assert forall|i: int| ready_has(ready, i) implies ready_has(ar.1, i) by {
                    assert(ready_has(r2, i)) by {
                        let k = choose|k: int| 0 <= k < ready.len() && (#[trigger] ready[k]).2 == i;
                        assert(r2.contains(ready[k]));
                        let m = choose|m: int| 0 <= m < r2.len() && r2[m] == ready[k];
                        assert(r2[m].2 == i);
                    };
                };
                assert(sorted_triples(ready) ==> sorted_triples(ar.1));
                assert forall|i: int|
                    ready_has(ar.1, i) implies ready_has(ready, i) || (0 <= i < adm.len() && !adm[i]
                        && ar.0[i]) by {
                    if ready_has(r2, i) && !(0 <= i < adm.len() && !adm[i] && ar.0[i]) {
                        let k = choose|k: int| 0 <= k < r2.len() && (#[trigger] r2[k]).2 == i;
                        if r2[k] == x {
                            assert(0 <= j < adm2.len() && adm2[j]);
                            assert(ar.0[j]);
                            assert(i == j);
                        } else {
                            let m = choose|m: int| 0 <= m < ready.len() && ready[m] == r2[k];
                            assert(ready[m].2 == i);
                        }
                    }
                };
            }
        },
        Option::None => {},
    }
}

/// Inserting keeps every old element and adds the new one.
pub proof fn lemma_insert_sorted_members(r: Seq<(u32, u32, u32)>, x: (u32, u32, u32))
    ensures
        insert_sorted(r, x).contains(x),
        forall|m: int| 0 <= m < r.len() ==> insert_sorted(r, x).contains(#[trigger] r[m]),
        forall|k: int|
            0 <= k < insert_sorted(r, x).len() ==> (#[trigger] insert_sorted(r, x)[k]) == x
                || r.contains(insert_sorted(r, x)[k]),
    decreases r.len(),
{
    if r.len() == 0 {
        assert(seq![x][0] == x);
    } else if crate::ready::triple_le(x, r[0]) {
        let c = seq![x] + r;
        assert(c[0] == x);
        assert(forall|m: int| 0 <= m < r.len() ==> c[m + 1] == r[m]);
    } else {
        let rec = insert_sorted(r.drop_first(), x);
        lemma_insert_sorted_members(r.drop_first(), x);
        let c = seq![r[0]] + rec;
        assert(c[0] == r[0]);
        assert(forall|m: int| 0 <= m < rec.len() ==> c[m + 1] == rec[m]);
        assert(forall|m: int| 0 <= m < r.drop_first().len() ==> r.drop_first()[m] == r[m + 1]);
        assert forall|m: int| 0 <= m < r.len() implies c.contains(#[trigger] r[m]) by {
            if m == 0 {
                assert(c[0] == r[m]);
            } else {
                assert(rec.contains(r.drop_first()[m - 1]));
                let k = choose|k: int| 0 <= k < rec.len() && rec[k] == r.drop_first()[m - 1];
                assert(c[k + 1] == r[m]);
            }
        }
        let kx = choose|k: int| 0 <= k < rec.len() && rec[k] == x;
        assert(c[kx + 1] == x);
    }
}

/// The timeline emitted and the timing table produced from a running state:
/// if the ready set is non-empty its least triple runs to completion and the
/// newly arrived are admitted; otherwise the clock idles forward to the next
/// arrival.
pub open spec fn np_go(
    ps: Seq<ProcV>,
    adm: Seq<bool>,
    ready: Seq<(u32, u32, u32)>,
    t: int,
    table: Seq<TimesV>,
) -> (Seq<SegV>, Seq<TimesV>)
    decreases 2 * count_false(adm) + ready.len(),
    via np_go_dec
{
    if ready.len() > 0 {
        let x = ready[0];
        let j = x.2 as int;
        if 0 <= j < ps.len() {
            let p = ps[j];
            let done = t + p.burst;
            let ar = admit_all(ps, adm, ready.drop_first(), done);
            let rec = np_go(
                ps,
                ar.0,
                ar.1,
                done,
                table.update(
                    j,
                    TimesV { completion: done, waiting: t - p.arrival, turnaround: done - p.arrival },
                ),
            );
            (seq![SegV { id: Option::Some(p.id), end: done }] + rec.0, rec.1)
        } else {
            np_go(ps, adm, ready.drop_first(), t, table)
        }
    } else {
        match next_arr(arrivals(ps), adm, 0) {
            Option::None => (Seq::empty(), table),
            Option::Some(j) => {
                let t2 = ps[j].arrival as int;
                let ar = admit_all(ps, adm, ready, t2);
                let rec = np_go(ps, ar.0, ar.1, t2, table);
                (seq![SegV { id: Option::None, end: t2 }] + rec.0, rec.1)
            },
        }
    }
}

#[via_fn]
proof fn np_go_dec(
    ps: Seq<ProcV>,
    adm: Seq<bool>,
    ready: Seq<(u32, u32, u32)>,
    t: int,
    table: Seq<TimesV>,
) {
    lemma_count_false_nonneg(adm);
    if ready.len() > 0 {
        let x = ready[0];
        let j = x.2 as int;
        if 0 <= j < ps.len() {
            let done = t + ps[j].burst;
            lemma_admit_all_measure(ps, adm, ready.drop_first(), done);
            lemma_count_false_nonneg(admit_all(ps, adm, ready.drop_first(), done).0);
        }
    } else {
        lemma_next_arr(arrivals(ps), adm, 0);
        match next_arr(arrivals(ps), adm, 0) {
            Option::Some(j) => {
                lemma_admit_all_measure(ps, adm, ready, ps[j].arrival as int);
                lemma_count_false_nonneg(admit_all(ps, adm, ready, ps[j].arrival as int).0);
            },
            Option::None => {},
        }
    }
}

/// The non-preemptive timeline and timing table for a batch of processes,
/// ready set ordered by each process's key.
pub open spec fn np_spec(ps: Seq<ProcV>) -> (Seq<SegV>, Seq<TimesV>) {
    let ar = admit_all(ps, Seq::new(ps.len(), |i: int| false), Seq::empty(), 0);
    np_go(ps, ar.0, ar.1, 0, init_table(ps.len()))
}

/// Admits every process that has arrived by time `t` into the ready set,
/// mirroring `admit_all` step by step.
fn np_admit(
    arrs: &Vec<u32>,
    keys: &Vec<u32>,
    adm: &mut Vec<bool>,
    rsv: &mut sorted_vec::SortedVec<(u32, u32, u32)>,
    t: u32,
    Ghost(ps): Ghost<Seq<ProcV>>,
    Ghost(ready0): Ghost<Seq<(u32, u32, u32)>>,
) -> (newready: Ghost<Seq<(u32, u32, u32)>>)
    requires
        wf_procs(ps),
        arrs@ == arrivals(ps),
        keys@.len() == ps.len(),
        forall|k: int| 0 <= k < ps.len() ==> keys@[k] == ps[k].key,
        old(adm)@.len() == ps.len(),
        ready_contents(*old(rsv)) == ready0.to_multiset(),
        sorted_triples(ready0),
        ready_ok(ps, ready0, t as int),
    ensures
        (final(adm)@, newready@) == admit_all(ps, old(adm)@, ready0, t as int),
        final(adm)@.len() == ps.len(),
        ready_contents(*final(rsv)) == newready@.to_multiset(),
        sorted_triples(newready@),
        ready_ok(ps, newready@, t as int),
        sum_unadm(ps, final(adm)@) + ready_burst(ps, newready@) == sum_unadm(ps, old(adm)@)
            + ready_burst(ps, ready0),
{
    let ghost mut ready = ready0;
    let mut nxt = find_next(arrs, adm);
    let mut go: bool = match nxt {
        Option::Some(j) => {
            proof {
                lemma_next_arr(arrs@, adm@, 0);
            }
            arrs[j] <= t
        },
        Option::None => false,
    };
    while go
        invariant
            wf_procs(ps),
            arrs@ == arrivals(ps),
            keys@.len() == ps.len(),
            forall|k: int| 0 <= k < ps.len() ==> keys@[k] == ps[k].key,
            adm@.len() == ps.len(),
            ready_contents(*rsv) == ready.to_multiset(),
            sorted_triples(ready),
            ready_ok(ps, ready, t as int),
            match nxt {
                Option::None => next_arr(arrs@, adm@, 0) is None,
                Option::Some(j) => next_arr(arrs@, adm@, 0) == Option::Some(j as int),
            },
            go == match nxt {
                Option::None => false,
                Option::Some(j) => arrs@[j as int] <= t,
            },
            admit_all(ps, adm@, ready, t as int) == admit_all(ps, old(adm)@, ready0, t as int),
            sum_unadm(ps, adm@) + ready_burst(ps, ready) == sum_unadm(ps, old(adm)@) + ready_burst(
                ps,
                ready0,
            ),
        decreases count_false(adm@),
    {
        let j = nxt.unwrap();
        proof {
            lemma_next_arr(arrs@, adm@, 0);
        }
        let ghost adm0 = adm@;
        let trip = (keys[j], arrs[j], j as u32);
        adm[j] = true;
        ready_insert(rsv, trip);
        proof {
            assert(adm@ =~= adm0.update(j as int, true));
            lemma_insert_sorted(ready, trip);
            lemma_count_false_update(adm0, j as int);
            lemma_count_false_nonneg(adm@);
            lemma_sum_unadm_update(ps, adm0, j as int);
            lemma_ready_burst_insert(ps, ready, trip);
            ready = insert_sorted(ready, trip);
        }
        nxt = find_next(arrs, adm);
        go = match nxt {
            Option::Some(j2) => {
                proof {
                    lemma_next_arr(arrs@, adm@, 0);
                }
                arrs[j2] <= t
            },
            Option::None => false,
        };
    }
    proof {
        lemma_next_arr(arrs@, adm@, 0);
        assert(admit_all(ps, adm@, ready, t as int) == (adm@, ready));
    }
    Ghost(ready)
}

/// Runs the non-preemptive engine over normalized process columns; the
/// result is exactly what `np_spec` assigns to the batch.
fn np_core(
    ids: &Vec<String>,
    bursts: &Vec<u32>,
    arrs: &Vec<u32>,
    keys: &Vec<u32>,
    Ghost(ps): Ghost<Seq<ProcV>>,
) -> (out: (GanttChart, OutputTable))
    requires
        wf_procs(ps),
        ids@.len() == ps.len(),
        bursts@.len() == ps.len(),
        keys@.len() == ps.len(),
        arrs@ == arrivals(ps),
        forall|k: int| 0 <= k < ps.len() ==> ids@[k]@ == ps[k].id,
        forall|k: int| 0 <= k < ps.len() ==> bursts@[k] == ps[k].burst,
        forall|k: int| 0 <= k < ps.len() ==> keys@[k] == ps[k].key,
    ensures
        gantt_view(out.0@) == np_spec(ps).0,
        table_v(out.1@) == np_spec(ps).1,
        out.1@.len() == ps.len(),
        forall|i: int| 0 <= i < ps.len() ==> (#[trigger] out.1@[i]).0@ == ps[i].id,
{
    broadcast use group_to_multiset_ensures;

    let n = ids.len();
    let mut adm: Vec<bool> = Vec::new();
    let mut table: OutputTable = Vec::new();
    let mut idx: usize = 0;
    while idx < n
        invariant
            idx <= n,
            n == ps.len(),
            ids@.len() == ps.len(),
            forall|k: int| 0 <= k < ps.len() ==> (#[trigger] ids@[k])@ == ps[k].id,
            adm@.len() == idx,
            table@.len() == idx,
            forall|k: int| 0 <= k < idx ==> !(#[trigger] adm@[k]),
            forall|k: int| 0 <= k < idx ==> (#[trigger] table@[k]).0@ == ps[k].id,
            forall|k: int|
                0 <= k < idx ==> times_v((#[trigger] table@[k]).1) == (TimesV {
                    completion: 0,
                    waiting: 0,
                    turnaround: 0,
                }),
        decreases n - idx,
    {
        adm.push(false);
        table.push((ids[idx].clone(), Times::default()));
        idx = idx + 1;
    }
    let mut rsv = ready_new();
    let mut gantt: GanttChart = Vec::new();
    let mut t: u32 = 0;
    proof {
        assert(adm@ =~= Seq::new(ps.len(), |i: int| false));
        assert(table_v(table@) =~= init_table(ps.len()));
        assert(Seq::<(u32, u32, u32)>::empty().to_multiset() =~= Multiset::empty());
        lemma_sum_unadm_all(ps, adm@);
        lemma_max_arrival_nonneg(ps);
    }
    let gr0 = np_admit(arrs, keys, &mut adm, &mut rsv, 0, Ghost(ps), Ghost(Seq::empty()));
    let ghost mut ready: Seq<(u32, u32, u32)> = gr0@;
    proof {
        assert(gantt_view(gantt@) + np_go(ps, adm@, ready, 0, table_v(table@)).0 =~= np_spec(
            ps,
        ).0);
        assert(ready.to_multiset().len() == ready.len());
    }
    let mut rl = ready_len(&rsv);
    let mut nxt = find_next(arrs, &adm);
    while rl > 0 || nxt.is_some()
        invariant
            wf_procs(ps),
            n == ps.len(),
            arrs@ == arrivals(ps),
            ids@.len() == ps.len(),
            bursts@.len() == ps.len(),
            keys@.len() == ps.len(),
            forall|k: int| 0 <= k < ps.len() ==> (#[trigger] ids@[k])@ == ps[k].id,
            forall|k: int| 0 <= k < ps.len() ==> bursts@[k] == ps[k].burst,
            forall|k: int| 0 <= k < ps.len() ==> keys@[k] == ps[k].key,
            adm@.len() == ps.len(),
            table@.len() == ps.len(),
            forall|k: int| 0 <= k < ps.len() ==> (#[trigger] table@[k]).0@ == ps[k].id,
            ready_contents(rsv) == ready.to_multiset(),
            sorted_triples(ready),
            ready_ok(ps, ready, t as int),
            rl == ready.len(),
            match nxt {
                Option::None => next_arr(arrs@, adm@, 0) is None,
                Option::Some(j) => next_arr(arrs@, adm@, 0) == Option::Some(j as int),
            },
            t + sum_unadm(ps, adm@) + ready_burst(ps, ready) <= u32::MAX,
            sum_unadm(ps, adm@) + ready_burst(ps, ready) <= sum_burst(ps),
            gantt_view(gantt@) + np_go(ps, adm@, ready, t as int, table_v(table@)).0 == np_spec(
                ps,
            ).0,
            np_go(ps, adm@, ready, t as int, table_v(table@)).1 == np_spec(ps).1,
        decreases 2 * count_false(adm@) + ready.len(),
    {
        let ghost adm0 = adm@;
        let ghost ready_b = ready;
        let ghost t0 = t as int;
        let ghost tb0 = table_v(table@);
        let ghost g0 = gantt_view(gantt@);
        if rl > 0 {
            proof {
                broadcast use group_to_multiset_ensures;

                assert(ready.to_multiset().len() == ready.len());
            }
            let x = ready_remove_min(&mut rsv);
            proof {
                lemma_pop_min(ready, x);
                assert(ready_burst(ps, ready_b) == burst_of(ps, ready_b[0]) + ready_burst(
                    ps,
                    ready_b.drop_first(),
                ));
                ready = ready.drop_first();
                lemma_ready_burst_nonneg(ps, ready);
                crate::util::lemma_sum_unadm_le(ps, adm@);
            }
            let j = x.2 as usize;
            let arrival = x.1;
            let burst = bursts[j];
            let done = t + burst;
            gantt.push(ProcessSegment { process_id: Option::Some(ids[j].clone()), end_time: done });
            let entry = table.remove(j);
            table.insert(
                j,
                (
                    entry.0,
                    Times { completion: done, waiting: t - arrival, turnaround: done - arrival },
                ),
            );
            t = done;
            let gr = np_admit(arrs, keys, &mut adm, &mut rsv, t, Ghost(ps), Ghost(ready));
            proof {
                let tv = TimesV {
                    completion: done as int,
                    waiting: t0 - arrival,
                    turnaround: done - arrival,
                };
                assert(table_v(table@) =~= tb0.update(j as int, tv));
                let ar = admit_all(ps, adm0, ready_b.drop_first(), done as int);
                assert((adm@, gr@) == ar);
                ready = gr@;
                let rec = np_go(ps, adm@, ready, t as int, table_v(table@));
                let p = ps[j as int];
                let busy = SegV { id: Option::Some(p.id), end: done as int };
                assert(np_go(ps, adm0, ready_b, t0, tb0).0 == seq![busy] + rec.0);
                assert(np_go(ps, adm0, ready_b, t0, tb0).1 == rec.1);
                assert(gantt_view(gantt@) =~= g0 + seq![busy]);
                assert(gantt_view(gantt@) + rec.0 =~= g0 + (seq![busy] + rec.0));
                lemma_admit_all_measure(ps, adm0, ready_b.drop_first(), done as int);
                lemma_count_false_nonneg(adm@);
                lemma_count_false_nonneg(adm0);
            }
        } else {
            let j = nxt.unwrap();
            proof {
                lemma_next_arr(arrs@, adm@, 0);
                lemma_max_arrival(ps, j as int);
            }
            let t2 = arrs[j];
            gantt.push(ProcessSegment { process_id: Option::None, end_time: t2 });
            t = t2;
            let gr = np_admit(arrs, keys, &mut adm, &mut rsv, t, Ghost(ps), Ghost(ready));
            proof {
                let ar = admit_all(ps, adm0, ready_b, t2 as int);
                assert((adm@, gr@) == ar);
                ready = gr@;
                let rec = np_go(ps, adm@, ready, t as int, table_v(table@));
                let idle = SegV { id: Option::None, end: t2 as int };
                assert(np_go(ps, adm0, ready_b, t0, tb0).0 == seq![idle] + rec.0);
                assert(np_go(ps, adm0, ready_b, t0, tb0).1 == rec.1);
                assert(gantt_view(gantt@) =~= g0 + seq![idle]);
                assert(gantt_view(gantt@) + rec.0 =~= g0 + (seq![idle] + rec.0));
                lemma_admit_all_measure(ps, adm0, ready_b, t2 as int);
                lemma_count_false_nonneg(adm@);
                lemma_count_false_nonneg(adm0);
            }
        }
        rl = ready_len(&rsv);
        nxt = find_next(arrs, &adm);
        proof {
            broadcast use group_to_multiset_ensures;

            assert(ready.to_multiset().len() == ready.len());
        }
    }
    proof {
        assert(ready.len() == 0);
        assert(gantt_view(gantt@) + Seq::<SegV>::empty() =~= gantt_view(gantt@));
    }
    (gantt, table)
}

/// Simulates shortest-job-first scheduling (non-preemptive) over the batch.
/// Fails with `ModeMismatch` unless the current mode is SJF; otherwise the
/// returned timeline and timing table are exactly the ones `np_spec` assigns
/// to the input with the burst time as the ready-set key.
pub fn get_gantt_sjf(state: &AppState, inputs: Vec<SegmentInput>) -> (r: Result<
    (GanttChart, OutputTable),
    SchedError,
>)
    requires
        wf_procs(sjf_view(inputs@)),
    ensures
        match r {
            Result::Ok(out) => {
                &&& state.algorithm == Option::Some(SchedulingAlgorithms::SJF)
                &&& gantt_view(out.0@) == np_spec(sjf_view(inputs@)).0
                &&& table_v(out.1@) == np_spec(sjf_view(inputs@)).1
                &&& out.1@.len() == inputs@.len()
                &&& forall|i: int|
                    0 <= i < inputs@.len() ==> (#[trigger] out.1@[i]).0@ == inputs@[i].0@
            },
            Result::Err(e) => {
                &&& e == SchedError::ModeMismatch
                &&& state.algorithm != Option::Some(SchedulingAlgorithms::SJF)
            },
        },
{
    match state.algorithm {
        Option::Some(SchedulingAlgorithms::SJF) => {},
        _ => {
            return Result::Err(SchedError::ModeMismatch);
        },
    }
    let ghost ps = sjf_view(inputs@);
    let n = inputs.len();
    let mut ids: Vec<String> = Vec::new();
    let mut bursts: Vec<u32> = Vec::new();
    let mut arrs: Vec<u32> = Vec::new();
    let mut keys: Vec<u32> = Vec::new();
    let mut idx: usize = 0;
    while idx < n
        invariant
            idx <= n,
            n == inputs@.len(),
            ps == sjf_view(inputs@),
            ids@.len() == idx,
            bursts@.len() == idx,
            arrs@.len() == idx,
            keys@.len() == idx,
            forall|k: int| 0 <= k < idx ==> (#[trigger] ids@[k])@ == ps[k].id,
            forall|k: int| 0 <= k < idx ==> bursts@[k] == ps[k].burst,
            forall|k: int| 0 <= k < idx ==> arrs@[k] == ps[k].arrival,
            forall|k: int| 0 <= k < idx ==> keys@[k] == ps[k].key,
        decreases n - idx,
    {
        let p = &inputs[idx];
        ids.push(p.0.clone());
        bursts.push(p.1);
        arrs.push(p.2);
        keys.push(p.1);
        idx = idx + 1;
    }
    proof {
        assert(arrs@ =~= arrivals(ps));
    }
    let out = np_core(&ids, &bursts, &arrs, &keys, Ghost(ps));
    Result::Ok(out)
}

/// Simulates priority scheduling (non-preemptive, lower value more urgent)
/// over the batch. Fails with `ModeMismatch` unless the current mode is
/// Priority; otherwise the returned timeline and timing table are exactly
/// the ones `np_spec` assigns to the input with the priority value as the
/// ready-set key.
pub fn get_gantt_priority(state: &AppState, inputs: Vec<PrioritySegmentInput>) -> (r: Result<
    (GanttChart, OutputTable),
    SchedError,
>)
    requires
        wf_procs(prio_view(inputs@)),
    ensures
        match r {
            Result::Ok(out) => {
                &&& state.algorithm == Option::Some(SchedulingAlgorithms::PRIORITY)
                &&& gantt_view(out.0@) == np_spec(prio_view(inputs@)).0
                &&& table_v(out.1@) == np_spec(prio_view(inputs@)).1
                &&& out.1@.len() == inputs@.len()
                &&& forall|i: int|
                    0 <= i < inputs@.len() ==> (#[trigger] out.1@[i]).0@ == inputs@[i].0@
            },
            Result::Err(e) => {
                &&& e == SchedError::ModeMismatch
                &&& state.algorithm != Option::Some(SchedulingAlgorithms::PRIORITY)
            },
        },
{
    match state.algorithm {
        Option::Some(SchedulingAlgorithms::PRIORITY) => {},
        _ => {
            return Result::Err(SchedError::ModeMismatch);
        },
    }
    let ghost ps = prio_view(inputs@);
    let n = inputs.len();
    let mut ids: Vec<String> = Vec::new();
    let mut bursts: Vec<u32> = Vec::new();
    let mut arrs: Vec<u32> = Vec::new();
    let mut keys: Vec<u32> = Vec::new();
    let mut idx: usize = 0;
    while idx < n
        invariant
            idx <= n,
            n == inputs@.len(),
            ps == prio_view(inputs@),
            ids@.len() == idx,
            bursts@.len() == idx,
            arrs@.len() == idx,
            keys@.len() == idx,
            forall|k: int| 0 <= k < idx ==> (#[trigger] ids@[k])@ == ps[k].id,
            forall|k: int| 0 <= k < idx ==> bursts@[k] == ps[k].burst,
            forall|k: int| 0 <= k < idx ==> arrs@[k] == ps[k].arrival,
            forall|k: int| 0 <= k < idx ==> keys@[k] == ps[k].key,
        decreases n - idx,
    {
        let p = &inputs[idx];
        ids.push(p.0.clone());
        bursts.push(p.1);
        arrs.push(p.2);
        keys.push(p.3);
        idx = idx + 1;
    }
    proof {
        assert(arrs@ =~= arrivals(ps));
    }
    let out = np_core(&ids, &bursts, &arrs, &keys, Ghost(ps));
    Result::Ok(out)
}

} // verus!
