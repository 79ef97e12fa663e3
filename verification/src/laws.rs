//! Laws the simulators obey, proved once and for all over the specification
//! recursions that the simulators' contracts pin their results to.

use vstd::prelude::*;
use crate::model::{wf_procs, ProcV, SegV, TimesV};
use crate::fcfs::{fcfs_go, fcfs_spec};
use crate::nonpre::{
    admit_all, lemma_admit_all_measure, lemma_admit_all_props, np_go, np_spec, ready_has, ready_ok,
};
use crate::ready::insert_sorted;
use crate::rr::{lemma_rr_admit_measure, lemma_rr_admit_props, lemma_sum_rem_nonneg, lemma_sum_rem_update, rr_admit, rr_go, rr_spec, sum_rem};
use crate::util::{
    arrivals, count_false, lemma_count_false_nonneg, lemma_count_false_update, lemma_next_arr,
    next_arr,
};

verus! {

/// The timing-table invariant: turnaround is completion minus arrival, and
/// waiting is turnaround minus burst.
pub open spec fn times_consistent(tv: TimesV, p: ProcV) -> bool {
    &&& tv.turnaround == tv.completion - p.arrival
    &&& tv.waiting == tv.turnaround - p.burst
}

/// Segment end times are strictly increasing, starting after time `t`.
pub open spec fn ends_increasing_from(g: Seq<SegV>, t: int) -> bool
    decreases g.len(),
{
    g.len() == 0 || (g[0].end > t && ends_increasing_from(g.drop_first(), g[0].end))
}

/// Every busy segment covers exactly the whole burst of a process bearing
/// its id (non-preemption: a started process runs to completion).
pub open spec fn full_burst_segments(ps: Seq<ProcV>, g: Seq<SegV>, t: int) -> bool
    decreases g.len(),
{
    g.len() == 0 || ({
        &&& match g[0].id {
            Option::Some(id) => exists|i: int|
                0 <= i < ps.len() && (#[trigger] ps[i]).id == id && g[0].end - t == ps[i].burst,
            Option::None => true,
        }
        &&& full_burst_segments(ps, g.drop_first(), g[0].end)
    })
}

/// No busy segment lasts longer than `q`.
pub open spec fn busy_within(g: Seq<SegV>, t: int, q: u32) -> bool
    decreases g.len(),
{
    g.len() == 0 || ({
        &&& (g[0].id is Some ==> g[0].end - t <= q)
        &&& busy_within(g.drop_first(), g[0].end, q)
    })
}

proof fn lemma_ends_cons(s: SegV, rest: Seq<SegV>, t: int)
    ensures
        ends_increasing_from(seq![s] + rest, t) <==> (s.end > t && ends_increasing_from(
            rest,
            s.end,
        )),
{
    let c = seq![s] + rest;
    assert(c[0] == s);
    assert(c.drop_first() =~= rest);
}

proof fn lemma_full_cons(ps: Seq<ProcV>, s: SegV, rest: Seq<SegV>, t: int)
    ensures
        full_burst_segments(ps, seq![s] + rest, t) <==> ({
            &&& match s.id {
                Option::Some(id) => exists|i: int|
                    0 <= i < ps.len() && (#[trigger] ps[i]).id == id && s.end - t == ps[i].burst,
                Option::None => true,
            }
            &&& full_burst_segments(ps, rest, s.end)
        }),
{
    let c = seq![s] + rest;
    assert(c[0] == s);
    assert(c.drop_first() =~= rest);
}

proof fn lemma_busy_cons(s: SegV, rest: Seq<SegV>, t: int, q: u32)
    ensures
        busy_within(seq![s] + rest, t, q) <==> ({
            &&& (s.id is Some ==> s.end - t <= q)
            &&& busy_within(rest, s.end, q)
        }),
{
    let c = seq![s] + rest;
    assert(c[0] == s);
    assert(c.drop_first() =~= rest);
}

/// The processes carry pairwise distinct ids.
pub open spec fn distinct_ids(ps: Seq<ProcV>) -> bool {
    forall|i1: int, i2: int|
        0 <= i1 < i2 < ps.len() ==> (#[trigger] ps[i1]).id != (#[trigger] ps[i2]).id
}

/// Total duration of the busy segments attributed to `id`, with the timeline
/// starting at `prev`.
pub open spec fn busy_sum(g: Seq<SegV>, prev: int, id: Seq<char>) -> int
    decreases g.len(),
{
    if g.len() == 0 {
        0
    } else {
        (if g[0].id == Option::Some(id) {
            g[0].end - prev
        } else {
            0
        }) + busy_sum(g.drop_first(), g[0].end, id)
    }
}

proof fn lemma_busy_sum_cons(s: SegV, rest: Seq<SegV>, prev: int, id: Seq<char>)
    ensures
        busy_sum(seq![s] + rest, prev, id) == (if s.id == Option::Some(id) {
            s.end - prev
        } else {
            0
        }) + busy_sum(rest, s.end, id),
{
    let c = seq![s] + rest;
    assert(c[0] == s);
    assert(c.drop_first() =~= rest);
}

proof fn lemma_fcfs_go_times(ps: Seq<ProcV>, adm: Seq<bool>, t: int, table: Seq<TimesV>)
    requires
        adm.len() == ps.len(),
        table.len() == ps.len(),
        forall|i: int|
            0 <= i < ps.len() && #[trigger] adm[i] ==> times_consistent(table[i], ps[i]),
    ensures
        fcfs_go(ps, adm, t, table).1.len() == ps.len(),
        forall|i: int|
            0 <= i < ps.len() ==> times_consistent(#[trigger] fcfs_go(ps, adm, t, table).1[i], ps[i]),
    decreases count_false(adm),
{
    lemma_next_arr(arrivals(ps), adm, 0);
    match next_arr(arrivals(ps), adm, 0) {
        Option::None => {
            assert forall|i: int|
                0 <= i < ps.len() implies times_consistent(
                #[trigger] fcfs_go(ps, adm, t, table).1[i],
                ps[i],
            ) by {
                assert(adm[i]);
            };
        },
        Option::Some(j) => {
            lemma_count_false_update(adm, j);
            lemma_count_false_nonneg(adm.update(j, true));
            let p = ps[j];
            let start: int = if t < p.arrival {
                p.arrival as int
            } else {
                t
            };
            let done = start + p.burst;
            let tv = TimesV {
                completion: done,
                waiting: start - p.arrival,
                turnaround: done - p.arrival,
            };
            let table2 = table.update(j, tv);
            assert forall|i: int|
                0 <= i < ps.len() && #[trigger] adm.update(j, true)[i] implies times_consistent(
                table2[i],
                ps[i],
            ) by {
                if i != j {
                    assert(adm[i]);
                }
            };
            lemma_fcfs_go_times(ps, adm.update(j, true), done, table2);
            let rec = fcfs_go(ps, adm.update(j, true), done, table2);
            assert(fcfs_go(ps, adm, t, table).1 == rec.1);
            assert forall|i: int|
                0 <= i < ps.len() implies times_consistent(#[trigger] rec.1[i], ps[i]) by {
                assert(times_consistent(rec.1[i], ps[i]));
            };
        },
    }
}

/// For every process, turnaround equals completion minus arrival and waiting
/// equals turnaround minus burst, under FCFS.
pub proof fn lemma_fcfs_times(ps: Seq<ProcV>)
    ensures
        fcfs_spec(ps).1.len() == ps.len(),
        forall|i: int|
            0 <= i < ps.len() ==> times_consistent(#[trigger] fcfs_spec(ps).1[i], ps[i]),
{
    let adm = Seq::new(ps.len(), |i: int| false);
    lemma_fcfs_go_times(ps, adm, 0, crate::model::init_table(ps.len()));
}

proof fn lemma_fcfs_go_shape(ps: Seq<ProcV>, adm: Seq<bool>, t: int, table: Seq<TimesV>)
    requires
        adm.len() == ps.len(),
        forall|i: int| 0 <= i < ps.len() ==> (#[trigger] ps[i]).burst >= 1,
    ensures
        ends_increasing_from(fcfs_go(ps, adm, t, table).0, t),
        full_burst_segments(ps, fcfs_go(ps, adm, t, table).0, t),
    decreases count_false(adm),
{
    lemma_next_arr(arrivals(ps), adm, 0);
    match next_arr(arrivals(ps), adm, 0) {
        Option::None => {},
        Option::Some(j) => {
            lemma_count_false_update(adm, j);
            lemma_count_false_nonneg(adm.update(j, true));
            let p = ps[j];
            let start: int = if t < p.arrival {
                p.arrival as int
            } else {
                t
            };
            let done = start + p.burst;
            let tv = TimesV {
                completion: done,
                waiting: start - p.arrival,
                turnaround: done - p.arrival,
            };
            lemma_fcfs_go_shape(ps, adm.update(j, true), done, table.update(j, tv));
            let rec = fcfs_go(ps, adm.update(j, true), done, table.update(j, tv));
            let busy = SegV { id: Option::Some(p.id), end: done };
            lemma_ends_cons(busy, rec.0, start);
            lemma_full_cons(ps, busy, rec.0, start);
            assert(exists|i: int|
                0 <= i < ps.len() && (#[trigger] ps[i]).id == p.id && busy.end - start
                    == ps[i].burst) by {
                assert(ps[j].id == p.id && busy.end - start == ps[j].burst);
            };
            if t < p.arrival {
                let idle = SegV { id: Option::None, end: p.arrival as int };
                lemma_ends_cons(idle, seq![busy] + rec.0, t);
                lemma_full_cons(ps, idle, seq![busy] + rec.0, t);
                assert(seq![idle, busy] + rec.0 =~= seq![idle] + (seq![busy] + rec.0));
            }
        },
    }
}

/// Under FCFS, segment end times are strictly increasing from 0, and every
/// busy segment covers exactly the full burst of a process bearing its id.
pub proof fn lemma_fcfs_shape(ps: Seq<ProcV>)
    requires
        forall|i: int| 0 <= i < ps.len() ==> (#[trigger] ps[i]).burst >= 1,
    ensures
        ends_increasing_from(fcfs_spec(ps).0, 0),
        full_burst_segments(ps, fcfs_spec(ps).0, 0),
{
    let adm = Seq::new(ps.len(), |i: int| false);
    lemma_fcfs_go_shape(ps, adm, 0, crate::model::init_table(ps.len()));
}

proof fn lemma_fcfs_go_busy(
    ps: Seq<ProcV>,
    adm: Seq<bool>,
    t: int,
    table: Seq<TimesV>,
    i: int,
)
    requires
        adm.len() == ps.len(),
        distinct_ids(ps),
        0 <= i < ps.len(),
    ensures
        busy_sum(fcfs_go(ps, adm, t, table).0, t, ps[i].id) == if adm[i] {
            0int
        } else {
            ps[i].burst as int
        },
    decreases count_false(adm),
{
    lemma_next_arr(arrivals(ps), adm, 0);
    match next_arr(arrivals(ps), adm, 0) {
        Option::None => {
            assert(adm[i]);
        },
        Option::Some(j) => {
            lemma_count_false_update(adm, j);
            lemma_count_false_nonneg(adm.update(j, true));
            let p = ps[j];
            let start: int = if t < p.arrival {
                p.arrival as int
            } else {
                t
            };
            let done = start + p.burst;
            let tv = TimesV {
                completion: done,
                waiting: start - p.arrival,
                turnaround: done - p.arrival,
            };
            let adm2 = adm.update(j, true);
            let table2 = table.update(j, tv);
            lemma_fcfs_go_busy(ps, adm2, done, table2, i);
            let rec = fcfs_go(ps, adm2, done, table2);
            let busy = SegV { id: Option::Some(p.id), end: done };
            lemma_busy_sum_cons(busy, rec.0, start, ps[i].id);
            assert(busy.id == Option::Some(ps[i].id) <==> i == j);
            if t < p.arrival {
                let idle = SegV { id: Option::None, end: p.arrival as int };
                lemma_busy_sum_cons(idle, seq![busy] + rec.0, t, ps[i].id);
                assert(seq![idle, busy] + rec.0 =~= seq![idle] + (seq![busy] + rec.0));
            }
            if i == j {
                assert(adm2[i]);
            } else {
                assert(adm2[i] == adm[i]);
            }
        },
    }
}

/// Under FCFS, the busy time attributed to each process equals its burst.
pub proof fn lemma_fcfs_busy_sum(ps: Seq<ProcV>, i: int)
    requires
        distinct_ids(ps),
        0 <= i < ps.len(),
    ensures
        busy_sum(fcfs_spec(ps).0, 0, ps[i].id) == ps[i].burst,
{
    let adm = Seq::new(ps.len(), |k: int| false);
    lemma_fcfs_go_busy(ps, adm, 0, crate::model::init_table(ps.len()), i);
}

proof fn lemma_fcfs_go_frame(ps: Seq<ProcV>, adm: Seq<bool>, t: int, table: Seq<TimesV>)
    requires
        adm.len() == ps.len(),
        table.len() == ps.len(),
    ensures
        fcfs_go(ps, adm, t, table).1.len() == ps.len(),
        forall|i: int|
            0 <= i < ps.len() && #[trigger] adm[i] ==> fcfs_go(ps, adm, t, table).1[i] == table[i],
        forall|i: int|
            0 <= i < ps.len() && !(#[trigger] adm[i]) ==> fcfs_go(ps, adm, t, table).1[i].completion
                >= t + ps[i].burst,
        forall|i: int|
            0 <= i < ps.len() && !(#[trigger] adm[i]) ==> fcfs_go(ps, adm, t, table).1[i].completion
                >= ps[i].arrival + ps[i].burst,
    decreases count_false(adm),
{
    lemma_next_arr(arrivals(ps), adm, 0);
    match next_arr(arrivals(ps), adm, 0) {
        Option::None => {},
        Option::Some(j) => {
            lemma_count_false_update(adm, j);
            lemma_count_false_nonneg(adm.update(j, true));
            let p = ps[j];
            let start: int = if t < p.arrival {
                p.arrival as int
            } else {
                t
            };
            let done = start + p.burst;
            let tv = TimesV {
                completion: done,
                waiting: start - p.arrival,
                turnaround: done - p.arrival,
            };
            let adm2 = adm.update(j, true);
            let table2 = table.update(j, tv);
            lemma_fcfs_go_frame(ps, adm2, done, table2);
            let rec = fcfs_go(ps, adm2, done, table2);
            assert(fcfs_go(ps, adm, t, table).1 == rec.1);
            assert forall|i: int|
                0 <= i < ps.len() && #[trigger] adm[i] implies rec.1[i] == table[i] by {
                assert(adm2[i]);
                assert(table2[i] == table[i]);
            };
            assert forall|i: int|
                0 <= i < ps.len() && !(#[trigger] adm[i]) implies rec.1[i].completion >= t
                    + ps[i].burst && rec.1[i].completion >= ps[i].arrival + ps[i].burst by {
                if i == j {
                    assert(adm2[j]);
                    assert(rec.1[j] == table2[j]);
                } else {
                    assert(!adm2[i]);
                    assert(rec.1[i].completion >= done + ps[i].burst);
                }
            };
        },
    }
}

proof fn lemma_fcfs_go_order(
    ps: Seq<ProcV>,
    adm: Seq<bool>,
    t: int,
    table: Seq<TimesV>,
    a: int,
    b: int,
)
    requires
        adm.len() == ps.len(),
        table.len() == ps.len(),
        0 <= a < ps.len(),
        0 <= b < ps.len(),
        !adm[a],
        !adm[b],
        ps[a].arrival < ps[b].arrival,
    ensures
        fcfs_go(ps, adm, t, table).1[a].completion <= fcfs_go(ps, adm, t, table).1[b].completion,
    decreases count_false(adm),
{
    lemma_next_arr(arrivals(ps), adm, 0);
    match next_arr(arrivals(ps), adm, 0) {
        Option::None => {},
        Option::Some(j) => {
            lemma_count_false_update(adm, j);
            lemma_count_false_nonneg(adm.update(j, true));
            let p = ps[j];
            let start: int = if t < p.arrival {
                p.arrival as int
            } else {
                t
            };
            let done = start + p.burst;
            let tv = TimesV {
                completion: done,
                waiting: start - p.arrival,
                turnaround: done - p.arrival,
            };
            let adm2 = adm.update(j, true);
            let table2 = table.update(j, tv);
            assert(arrivals(ps)[a] == ps[a].arrival);
            assert(arrivals(ps)[b] == ps[b].arrival);
            if j == b {
                assert(ps[b].arrival <= ps[a].arrival);
            } else if j == a {
                lemma_fcfs_go_frame(ps, adm2, done, table2);
                assert(adm2[a]);
                assert(table2[a] == tv);
                assert(fcfs_go(ps, adm2, done, table2).1[a] == tv);
                assert(!adm2[b]);
                assert(fcfs_go(ps, adm2, done, table2).1[b].completion >= done + ps[b].burst);
            } else {
                lemma_fcfs_go_order(ps, adm2, done, table2, a, b);
            }
        },
    }
}

/// FCFS is order-preserving: a process that arrives strictly earlier
/// completes no later — and no process completes earlier than it would if
/// run alone from its own arrival.
pub proof fn lemma_fcfs_order_preserving(ps: Seq<ProcV>, a: int, b: int)
    requires
        0 <= a < ps.len(),
        0 <= b < ps.len(),
        ps[a].arrival < ps[b].arrival,
    ensures
        fcfs_spec(ps).1[a].completion <= fcfs_spec(ps).1[b].completion,
        fcfs_spec(ps).1[b].completion >= ps[b].arrival + ps[b].burst,
{
    let adm = Seq::new(ps.len(), |i: int| false);
    lemma_fcfs_go_order(ps, adm, 0, crate::model::init_table(ps.len()), a, b);
    lemma_fcfs_go_frame(ps, adm, 0, crate::model::init_table(ps.len()));
    assert(!adm[b]);
}

proof fn lemma_np_go_times(
    ps: Seq<ProcV>,
    adm: Seq<bool>,
    ready: Seq<(u32, u32, u32)>,
    t: int,
    table: Seq<TimesV>,
)
    requires
        ps.len() <= u32::MAX,
        adm.len() == ps.len(),
        table.len() == ps.len(),
        forall|i: int|
            0 <= i < ps.len() && #[trigger] adm[i] && !ready_has(ready, i) ==> times_consistent(
                table[i],
                ps[i],
            ),
    ensures
        np_go(ps, adm, ready, t, table).1.len() == ps.len(),
        forall|i: int|
            0 <= i < ps.len() ==> times_consistent(
                #[trigger] np_go(ps, adm, ready, t, table).1[i],
                ps[i],
            ),
    decreases 2 * count_false(adm) + ready.len(),
{
    lemma_count_false_nonneg(adm);
    if ready.len() > 0 {
        let x = ready[0];
        let j = x.2 as int;
        if 0 <= j < ps.len() {
            let p = ps[j];
            let done = t + p.burst;
            let tv = TimesV {
                completion: done,
                waiting: t - p.arrival,
                turnaround: done - p.arrival,
            };
            let table2 = table.update(j, tv);
            let ar = admit_all(ps, adm, ready.drop_first(), done);
            lemma_admit_all_props(ps, adm, ready.drop_first(), done);
            lemma_admit_all_measure(ps, adm, ready.drop_first(), done);
            lemma_count_false_nonneg(ar.0);
            assert forall|i: int|
                0 <= i < ps.len() && #[trigger] ar.0[i] && !ready_has(ar.1, i) implies
                times_consistent(table2[i], ps[i]) by {
                if i != j {
                    if adm[i] {
                        assert(!ready_has(ready.drop_first(), i));
                        assert(!ready_has(ready, i)) by {
                            if ready_has(ready, i) {
                                let k = choose|k: int|
                                    0 <= k < ready.len() && (#[trigger] ready[k]).2 == i;
                                assert(k > 0);
                                assert(ready.drop_first()[k - 1].2 == i);
                            }
                        };
                        assert(table2[i] == table[i]);
                    } else {
                        assert(ready_has(ar.1, i));
                    }
                }
            };
            lemma_np_go_times(ps, ar.0, ar.1, done, table2);
            let rec = np_go(ps, ar.0, ar.1, done, table2);
            assert(np_go(ps, adm, ready, t, table).1 == rec.1);
            assert forall|i: int|
                0 <= i < ps.len() implies times_consistent(
                #[trigger] np_go(ps, adm, ready, t, table).1[i],
                ps[i],
            ) by {
                assert(times_consistent(rec.1[i], ps[i]));
            };
        } else {
            assert forall|i: int|
                0 <= i < ps.len() && #[trigger] adm[i] && !ready_has(ready.drop_first(), i) implies
                times_consistent(table[i], ps[i]) by {
                assert(!ready_has(ready, i)) by {
                    if ready_has(ready, i) {
                        let k = choose|k: int|
                            0 <= k < ready.len() && (#[trigger] ready[k]).2 == i;
                        assert(k > 0);
                        assert(ready.drop_first()[k - 1].2 == i);
                    }
                };
            };
            lemma_np_go_times(ps, adm, ready.drop_first(), t, table);
        }
    } else {
        lemma_next_arr(arrivals(ps), adm, 0);
        match next_arr(arrivals(ps), adm, 0) {
            Option::None => {
                assert forall|i: int|
                    0 <= i < ps.len() implies times_consistent(
                    #[trigger] np_go(ps, adm, ready, t, table).1[i],
                    ps[i],
                ) by {
                    assert(adm[i]);
                    assert(!ready_has(ready, i));
                };
            },
            Option::Some(j) => {
                let t2 = ps[j].arrival as int;
                let ar = admit_all(ps, adm, ready, t2);
                lemma_admit_all_props(ps, adm, ready, t2);
                lemma_admit_all_measure(ps, adm, ready, t2);
                lemma_count_false_nonneg(ar.0);
                assert forall|i: int|
                    0 <= i < ps.len() && #[trigger] ar.0[i] && !ready_has(ar.1, i) implies
                    times_consistent(table[i], ps[i]) by {
                    if adm[i] {
                        assert(!ready_has(ready, i));
                    } else {
                        assert(ready_has(ar.1, i));
                    }
                };
                lemma_np_go_times(ps, ar.0, ar.1, t2, table);
                let rec = np_go(ps, ar.0, ar.1, t2, table);
                assert(np_go(ps, adm, ready, t, table).1 == rec.1);
                assert forall|i: int|
                    0 <= i < ps.len() implies times_consistent(
                    #[trigger] np_go(ps, adm, ready, t, table).1[i],
                    ps[i],
                ) by {
                    assert(times_consistent(rec.1[i], ps[i]));
                };
            },
        }
    }
}

/// For every process, turnaround equals completion minus arrival and waiting
/// equals turnaround minus burst, under SJF and Priority.
pub proof fn lemma_np_times(ps: Seq<ProcV>)
    requires
        ps.len() <= u32::MAX,
    ensures
        np_spec(ps).1.len() == ps.len(),
        forall|i: int| 0 <= i < ps.len() ==> times_consistent(#[trigger] np_spec(ps).1[i], ps[i]),
{
    let adm = Seq::new(ps.len(), |i: int| false);
    let ar = admit_all(ps, adm, Seq::empty(), 0);
    lemma_admit_all_props(ps, adm, Seq::empty(), 0);
    lemma_admit_all_measure(ps, adm, Seq::empty(), 0);
    assert forall|i: int|
        0 <= i < ps.len() && #[trigger] ar.0[i] && !ready_has(ar.1, i) implies times_consistent(
        crate::model::init_table(ps.len())[i],
        ps[i],
    ) by {
        assert(!adm[i]);
        assert(ready_has(ar.1, i));
    };
    lemma_np_go_times(ps, ar.0, ar.1, 0, crate::model::init_table(ps.len()));
}

proof fn lemma_np_go_shape(
    ps: Seq<ProcV>,
    adm: Seq<bool>,
    ready: Seq<(u32, u32, u32)>,
    t: int,
    table: Seq<TimesV>,
)
    requires
        ps.len() <= u32::MAX,
        adm.len() == ps.len(),
        forall|i: int| 0 <= i < ps.len() ==> (#[trigger] ps[i]).burst >= 1,
        ready_ok(ps, ready, t),
        ready.len() == 0 ==> match next_arr(arrivals(ps), adm, 0) {
            Option::Some(k) => ps[k].arrival > t,
            Option::None => true,
        },
    ensures
        ends_increasing_from(np_go(ps, adm, ready, t, table).0, t),
        full_burst_segments(ps, np_go(ps, adm, ready, t, table).0, t),
    decreases 2 * count_false(adm) + ready.len(),
{
    lemma_count_false_nonneg(adm);
    if ready.len() > 0 {
        let x = ready[0];
        let j = x.2 as int;
        assert(0 <= j < ps.len());
        let p = ps[j];
        let done = t + p.burst;
        let tv = TimesV { completion: done, waiting: t - p.arrival, turnaround: done - p.arrival };
        let table2 = table.update(j, tv);
        let ar = admit_all(ps, adm, ready.drop_first(), done);
        lemma_admit_all_props(ps, adm, ready.drop_first(), done);
        lemma_admit_all_measure(ps, adm, ready.drop_first(), done);
        lemma_count_false_nonneg(ar.0);
        assert(ready_ok(ps, ready.drop_first(), done)) by {
            assert(forall|k: int|
                0 <= k < ready.drop_first().len() ==> ready.drop_first()[k] == ready[k + 1]);
        };
        lemma_np_go_shape(ps, ar.0, ar.1, done, table2);
        let rec = np_go(ps, ar.0, ar.1, done, table2);
        let busy = SegV { id: Option::Some(p.id), end: done };
        lemma_ends_cons(busy, rec.0, t);
        lemma_full_cons(ps, busy, rec.0, t);
        assert(exists|i: int|
            0 <= i < ps.len() && (#[trigger] ps[i]).id == p.id && busy.end - t == ps[i].burst) by {
            assert(ps[j].id == p.id && busy.end - t == ps[j].burst);
        };
    } else {
        lemma_next_arr(arrivals(ps), adm, 0);
        match next_arr(arrivals(ps), adm, 0) {
            Option::None => {},
            Option::Some(j) => {
                let t2 = ps[j].arrival as int;
                let ar = admit_all(ps, adm, ready, t2);
                lemma_admit_all_props(ps, adm, ready, t2);
                lemma_admit_all_measure(ps, adm, ready, t2);
                lemma_count_false_nonneg(ar.0);
                assert(ready_ok(ps, ready, t2));
                lemma_np_go_shape(ps, ar.0, ar.1, t2, table);
                let rec = np_go(ps, ar.0, ar.1, t2, table);
                let idle = SegV { id: Option::None, end: t2 };
                lemma_ends_cons(idle, rec.0, t);
                lemma_full_cons(ps, idle, rec.0, t);
            },
        }
    }
}

/// Under SJF and Priority, segment end times are strictly increasing from 0,
/// and every busy segment covers exactly the full burst of a process bearing
/// its id: once started, a process runs to completion without interruption.
pub proof fn lemma_np_shape(ps: Seq<ProcV>)
    requires
        wf_procs(ps),
    ensures
        ends_increasing_from(np_spec(ps).0, 0),
        full_burst_segments(ps, np_spec(ps).0, 0),
{
    let adm = Seq::new(ps.len(), |i: int| false);
    let ar = admit_all(ps, adm, Seq::empty(), 0);
    lemma_admit_all_props(ps, adm, Seq::empty(), 0);
    lemma_admit_all_measure(ps, adm, Seq::empty(), 0);
    lemma_np_go_shape(ps, ar.0, ar.1, 0, crate::model::init_table(ps.len()));
}

proof fn lemma_np_go_busy(
    ps: Seq<ProcV>,
    adm: Seq<bool>,
    ready: Seq<(u32, u32, u32)>,
    t: int,
    table: Seq<TimesV>,
    i: int,
)
    requires
        ps.len() <= u32::MAX,
        adm.len() == ps.len(),
        distinct_ids(ps),
        ready_ok(ps, ready, t),
        idx_distinct(ready),
        forall|k: int| 0 <= k < ready.len() ==> adm[(#[trigger] ready[k]).2 as int],
        0 <= i < ps.len(),
    ensures
        busy_sum(np_go(ps, adm, ready, t, table).0, t, ps[i].id) == (if !adm[i] || ready_has(
            ready,
            i,
        ) {
            ps[i].burst as int
        } else {
            0int
        }),
    decreases 2 * count_false(adm) + ready.len(),
{
    lemma_count_false_nonneg(adm);
    if ready.len() > 0 {
        let x = ready[0];
        let j = x.2 as int;
        assert(0 <= j < ps.len());
        assert(adm[j]);
        let p = ps[j];
        let done = t + p.burst;
        let tv = TimesV { completion: done, waiting: t - p.arrival, turnaround: done - p.arrival };
        let table2 = table.update(j, tv);
        let d = ready.drop_first();
        assert(forall|k: int| 0 <= k < d.len() ==> #[trigger] d[k] == ready[k + 1]);
        let ar = admit_all(ps, adm, d, done);
        lemma_admit_all_props(ps, adm, d, done);
        lemma_admit_all_measure(ps, adm, d, done);
        lemma_admit_all_distinct(ps, adm, d, done);
        lemma_count_false_nonneg(ar.0);
        assert(ready_ok(ps, d, done));
        lemma_np_go_busy(ps, ar.0, ar.1, done, table2, i);
        let rec = np_go(ps, ar.0, ar.1, done, table2);
        let busy = SegV { id: Option::Some(p.id), end: done };
        assert(np_go(ps, adm, ready, t, table).0 == seq![busy] + rec.0);
        lemma_busy_sum_cons(busy, rec.0, t, ps[i].id);
        assert(busy.id == Option::Some(ps[i].id) <==> i == j);
        if i == j {
            assert(ready_has(ready, j)) by {
                assert(ready[0].2 == j);
            };
            assert(ar.0[j]) by {
                assert(adm[j]);
            };
            assert(!ready_has(ar.1, j)) by {
                if ready_has(ar.1, j) {
                    assert(ready_has(d, j) || (0 <= j < adm.len() && !adm[j] && ar.0[j]));
                    if ready_has(d, j) {
                        let k = choose|k: int| 0 <= k < d.len() && (#[trigger] d[k]).2 == j;
                        assert(ready[k + 1].2 == j && ready[0].2 == j);
                    }
                }
            };
        } else {
            if adm[i] {
                if ready_has(ready, i) {
                    let k = choose|k: int| 0 <= k < ready.len() && (#[trigger] ready[k]).2 == i;
                    assert(k > 0);
                    assert(d[k - 1].2 == i);
                    assert(ready_has(d, i));
                    assert(ready_has(ar.1, i));
                    assert(ar.0[i]);
                } else {
                    assert(ar.0[i]);
                    assert(!ready_has(ar.1, i)) by {
                        if ready_has(ar.1, i) {
                            if ready_has(d, i) {
                                let k = choose|k: int| 0 <= k < d.len() && (#[trigger] d[k]).2 == i;
                                assert(ready[k + 1].2 == i);
                                assert(ready_has(ready, i));
                            }
                        }
                    };
                }
            } else {
                if ar.0[i] {
                    assert(ready_has(ar.1, i));
                }
            }
        }
    } else {
        lemma_next_arr(arrivals(ps), adm, 0);
        match next_arr(arrivals(ps), adm, 0) {
            Option::None => {
                assert(adm[i]);
                assert(!ready_has(ready, i));
            },
            Option::Some(k0) => {
                let t2 = ps[k0].arrival as int;
                let ar = admit_all(ps, adm, ready, t2);
                lemma_admit_all_props(ps, adm, ready, t2);
                lemma_admit_all_measure(ps, adm, ready, t2);
                lemma_admit_all_distinct(ps, adm, ready, t2);
                lemma_count_false_nonneg(ar.0);
                assert(ready_ok(ps, ready, t2));
                lemma_np_go_busy(ps, ar.0, ar.1, t2, table, i);
                let rec = np_go(ps, ar.0, ar.1, t2, table);
                let idle = SegV { id: Option::None, end: t2 };
                assert(np_go(ps, adm, ready, t, table).0 == seq![idle] + rec.0);
                lemma_busy_sum_cons(idle, rec.0, t, ps[i].id);
                assert(!ready_has(ready, i));
                if adm[i] {
                    assert(ar.0[i]);
                    assert(!ready_has(ar.1, i)) by {
                        if ready_has(ar.1, i) {
                            assert(ready_has(ready, i) || !adm[i]);
                        }
                    };
                } else {
                    if ar.0[i] {
                        assert(ready_has(ar.1, i));
                    }
                }
            },
        }
    }
}

/// Under SJF and Priority with distinct process ids, the busy time
/// attributed to each process equals its burst.
pub proof fn lemma_np_busy_sum(ps: Seq<ProcV>, i: int)
    requires
        ps.len() <= u32::MAX,
        distinct_ids(ps),
        0 <= i < ps.len(),
    ensures
        busy_sum(np_spec(ps).0, 0, ps[i].id) == ps[i].burst,
{
    let adm = Seq::new(ps.len(), |k: int| false);
    let ar = admit_all(ps, adm, Seq::empty(), 0);
    lemma_admit_all_props(ps, adm, Seq::empty(), 0);
    lemma_admit_all_measure(ps, adm, Seq::empty(), 0);
    lemma_admit_all_distinct(ps, adm, Seq::empty(), 0);
    lemma_np_go_busy(ps, ar.0, ar.1, 0, crate::model::init_table(ps.len()), i);
    if ar.0[i] {
        assert(!adm[i]);
        assert(ready_has(ar.1, i));
    }
}

/// No two ready-set triples name the same input position.
pub open spec fn idx_distinct(r: Seq<(u32, u32, u32)>) -> bool {
    forall|k1: int, k2: int|
        0 <= k1 < k2 < r.len() ==> (#[trigger] r[k1]).2 != (#[trigger] r[k2]).2
}

proof fn lemma_insert_sorted_distinct(r: Seq<(u32, u32, u32)>, x: (u32, u32, u32))
    requires
        idx_distinct(r),
        forall|k: int| 0 <= k < r.len() ==> (#[trigger] r[k]).2 != x.2,
    ensures
        idx_distinct(insert_sorted(r, x)),
    decreases r.len(),
{
    if r.len() == 0 {
    } else if crate::ready::triple_le(x, r[0]) {
        let c = seq![x] + r;
        assert(c[0] == x);
        assert(forall|k: int| 0 <= k < r.len() ==> c[k + 1] == #[trigger] r[k]);
    } else {
        let tail = r.drop_first();
        assert(forall|k: int| 0 <= k < tail.len() ==> #[trigger] tail[k] == r[k + 1]);
        lemma_insert_sorted_distinct(tail, x);
        crate::nonpre::lemma_insert_sorted_members(tail, x);
        let rec = insert_sorted(tail, x);
        let c = seq![r[0]] + rec;
        assert(c[0] == r[0]);
        assert(forall|k: int| 0 <= k < rec.len() ==> c[k + 1] == #[trigger] rec[k]);
        assert forall|k: int| 0 <= k < rec.len() implies (#[trigger] rec[k]).2 != r[0].2 by {
            if rec[k] != x {
                assert(tail.contains(rec[k]));
                let m = choose|m: int| 0 <= m < tail.len() && tail[m] == rec[k];
                assert(r[m + 1] == rec[k]);
            }
        };
    }
}

proof fn lemma_admit_all_distinct(
    ps: Seq<ProcV>,
    adm: Seq<bool>,
    ready: Seq<(u32, u32, u32)>,
    t: int,
)
    requires
        ps.len() <= u32::MAX,
        adm.len() == ps.len(),
        idx_distinct(ready),
        forall|k: int|
            0 <= k < ready.len() ==> 0 <= ((#[trigger] ready[k]).2 as int) < ps.len()
                && adm[ready[k].2 as int],
    ensures
        ({
            let ar = admit_all(ps, adm, ready, t);
            &&& idx_distinct(ar.1)
            &&& forall|k: int|
                0 <= k < ar.1.len() ==> 0 <= ((#[trigger] ar.1[k]).2 as int) < ps.len()
                    && ar.0[ar.1[k].2 as int]
        }),
    decreases count_false(adm),
{
    lemma_next_arr(arrivals(ps), adm, 0);
    lemma_count_false_nonneg(adm);
    match next_arr(arrivals(ps), adm, 0) {
        Option::Some(j) => {
            if ps[j].arrival <= t {
                let x = (ps[j].key, ps[j].arrival, j as u32);
                let r2 = insert_sorted(ready, x);
                let adm2 = adm.update(j, true);
                lemma_count_false_update(adm, j);
                lemma_count_false_nonneg(adm2);
                assert forall|k: int|
                    0 <= k < ready.len() implies (#[trigger] ready[k]).2 != x.2 by {
                    assert(adm[ready[k].2 as int]);
                };
                lemma_insert_sorted_distinct(ready, x);
                crate::nonpre::lemma_insert_sorted_members(ready, x);
                assert forall|k: int|
                    0 <= k < r2.len() implies 0 <= ((#[trigger] r2[k]).2 as int) < ps.len()
                    && adm2[r2[k].2 as int] by {
                    if r2[k] != x {
                        assert(ready.contains(r2[k]));
                        let m = choose|m: int| 0 <= m < ready.len() && ready[m] == r2[k];
                        assert(adm[ready[m].2 as int]);
                    }
                };
                lemma_admit_all_distinct(ps, adm2, r2, t);
            }
        },
        Option::None => {},
    }
}

/// A well-formed Round-Robin state: the queue names real, admitted,
/// unfinished processes, each at most once; unadmitted processes still owe
/// their whole burst; and with an empty queue every unadmitted process
/// arrives after `t`.
pub open spec fn rr_state_ok(
    ps: Seq<ProcV>,
    adm: Seq<bool>,
    queue: Seq<int>,
    rem: Seq<u32>,
    t: int,
) -> bool {
    &&& adm.len() == ps.len()
    &&& rem.len() == ps.len()
    &&& forall|k: int|
        0 <= k < queue.len() ==> 0 <= (#[trigger] queue[k]) < ps.len() && adm[queue[k]]
            && rem[queue[k]] >= 1
    &&& forall|i: int| 0 <= i < ps.len() && !(#[trigger] adm[i]) ==> rem[i] == ps[i].burst
    &&& forall|k1: int, k2: int|
        0 <= k1 < k2 < queue.len() ==> #[trigger] queue[k1] != #[trigger] queue[k2]
    &&& (queue.len() == 0 ==> match next_arr(arrivals(ps), adm, 0) {
        Option::Some(k) => ps[k].arrival > t,
        Option::None => true,
    })
}

proof fn lemma_rr_go_laws(
    ps: Seq<ProcV>,
    adm: Seq<bool>,
    queue: Seq<int>,
    rem: Seq<u32>,
    q: u32,
    t: int,
    table: Seq<TimesV>,
)
    requires
        ps.len() <= u32::MAX,
        q >= 1,
        forall|i: int| 0 <= i < ps.len() ==> (#[trigger] ps[i]).burst >= 1,
        rr_state_ok(ps, adm, queue, rem, t),
        distinct_ids(ps),
        table.len() == ps.len(),
        forall|i: int|
            0 <= i < ps.len() && #[trigger] adm[i] && !queue.contains(i) ==> times_consistent(
                table[i],
                ps[i],
            ),
    ensures
        ({
            let r = rr_go(ps, adm, queue, rem, q, t, table);
            &&& r.1.len() == ps.len()
            &&& forall|i: int|
                0 <= i < ps.len() ==> times_consistent(#[trigger] r.1[i], ps[i])
            &&& ends_increasing_from(r.0, t)
            &&& busy_within(r.0, t, q)
            &&& forall|i: int|
                0 <= i < ps.len() ==> busy_sum(r.0, t, (#[trigger] ps[i]).id) == (if !adm[i]
                    || queue.contains(i) {
                    rem[i] as int
                } else {
                    0int
                })
        }),
    decreases sum_rem(rem), count_false(adm), queue.len(),
{
    lemma_count_false_nonneg(adm);
    if queue.len() > 0 {
        let j = queue[0];
        assert(0 <= j < ps.len() && rem[j] >= 1);
        let step: int = q as int;
        let inc: int = if step < rem[j] {
            step
        } else {
            rem[j] as int
        };
        let t2 = t + inc;
        let rem2 = rem.update(j, (rem[j] - inc) as u32);
        let table2 = if rem[j] == inc {
            table.update(
                j,
                TimesV {
                    completion: t2,
                    waiting: t2 - ps[j].arrival - ps[j].burst,
                    turnaround: t2 - ps[j].arrival,
                },
            )
        } else {
            table
        };
        let ar = rr_admit(ps, adm, t2);
        lemma_rr_admit_props(ps, adm, t2);
        lemma_rr_admit_measure(ps, adm, t2);
        lemma_count_false_nonneg(ar.0);
        lemma_sum_rem_update(rem, j, (rem[j] - inc) as u32);
        lemma_sum_rem_nonneg(rem2);
        let d = queue.drop_first();
        let tailj: Seq<int> = if rem[j] > inc {
            seq![j]
        } else {
            Seq::<int>::empty()
        };
        let queue2 = d + ar.1 + tailj;
        assert(forall|k: int| 0 <= k < d.len() ==> #[trigger] d[k] == queue[k + 1]);
        assert(forall|k: int| 0 <= k < d.len() ==> queue2[k] == #[trigger] d[k]);
        assert(forall|k: int| 0 <= k < ar.1.len() ==> queue2[d.len() + k] == #[trigger] ar.1[k]);
        assert(rem[j] > inc ==> queue2[queue2.len() - 1] == j);
        assert forall|k: int|
            0 <= k < queue2.len() implies 0 <= (#[trigger] queue2[k]) < ps.len() && ar.0[queue2[k]]
            && rem2[queue2[k]] >= 1 by {
            if k < d.len() {
                assert(queue2[k] == queue[k + 1]);
                assert(adm[queue[k + 1]]);
                assert(queue[k + 1] != queue[0]);
                assert(rem2[queue2[k]] == rem[queue2[k]]);
            } else if k < d.len() + ar.1.len() {
                assert(queue2[k] == ar.1[k - d.len()]);
                assert(!adm[queue2[k]]);
                assert(queue2[k] != j);
                assert(rem2[queue2[k]] == rem[queue2[k]]);
                assert(rem[queue2[k]] == ps[queue2[k]].burst);
            } else {
                assert(queue2[k] == j);
                assert(adm[j]);
                assert(rem2[j] == rem[j] - inc);
            }
        };
        assert forall|i: int|
            0 <= i < ps.len() && !(#[trigger] ar.0[i]) implies rem2[i] == ps[i].burst by {
            assert(!adm[i]);
            assert(i != j);
        };
        assert forall|k1: int, k2: int|
            0 <= k1 < k2 < queue2.len() implies #[trigger] queue2[k1] != #[trigger] queue2[k2] by {
            let seg = |k: int|
                if k < d.len() {
                    0int
                } else if k < d.len() + ar.1.len() {
                    1int
                } else {
                    2int
                };
            if seg(k1) == 0 && seg(k2) == 0 {
                assert(queue[k1 + 1] != queue[k2 + 1]);
            } else if seg(k1) == 0 && seg(k2) == 1 {
                assert(adm[queue2[k1]] && !adm[queue2[k2]]);
            } else if seg(k1) == 0 && seg(k2) == 2 {
                assert(queue2[k1] == queue[k1 + 1] && queue2[k2] == j && queue[0] == j);
            } else if seg(k1) == 1 && seg(k2) == 1 {
                assert(ar.1[k1 - d.len()] != ar.1[k2 - d.len()]);
            } else if seg(k1) == 1 && seg(k2) == 2 {
                assert(!adm[queue2[k1]] && queue2[k2] == j && adm[j]);
            }
        };
        assert forall|i: int|
            0 <= i < ps.len() && #[trigger] ar.0[i] && !queue2.contains(i) implies times_consistent(
            table2[i],
            ps[i],
        ) by {
            if i == j {
                if rem[j] > inc {
                    assert(queue2[queue2.len() - 1] == j);
                    assert(queue2.contains(j));
                } else {
                    assert(table2[j] == TimesV {
                        completion: t2,
                        waiting: t2 - ps[j].arrival - ps[j].burst,
                        turnaround: t2 - ps[j].arrival,
                    });
                }
            } else if adm[i] {
                assert(!queue.contains(i)) by {
                    if queue.contains(i) {
                        let k = choose|k: int| 0 <= k < queue.len() && queue[k] == i;
                        assert(k > 0);
                        assert(queue2[k - 1] == queue[k]);
                        assert(queue2.contains(i));
                    }
                };
                assert(table2[i] == table[i]);
            } else {
                assert(ar.1.contains(i));
                let k = choose|k: int| 0 <= k < ar.1.len() && ar.1[k] == i;
                assert(queue2[d.len() + k] == i);
                assert(queue2.contains(i));
            }
        };
        lemma_rr_go_laws(ps, ar.0, queue2, rem2, q, t2, table2);
        let rec = rr_go(ps, ar.0, queue2, rem2, q, t2, table2);
        let busy = SegV { id: Option::Some(ps[j].id), end: t2 };
        assert(rr_go(ps, adm, queue, rem, q, t, table).0 == seq![busy] + rec.0);
        assert(rr_go(ps, adm, queue, rem, q, t, table).1 == rec.1);
        lemma_ends_cons(busy, rec.0, t);
        lemma_busy_cons(busy, rec.0, t, q);
        assert forall|i: int|
            0 <= i < ps.len() implies times_consistent(
            #[trigger] rr_go(ps, adm, queue, rem, q, t, table).1[i],
            ps[i],
        ) by {
            assert(times_consistent(rec.1[i], ps[i]));
        };
        assert forall|i: int|
            0 <= i < ps.len() implies busy_sum(
            rr_go(ps, adm, queue, rem, q, t, table).0,
            t,
            (#[trigger] ps[i]).id,
        ) == (if !adm[i] || queue.contains(i) {
            rem[i] as int
        } else {
            0int
        }) by {
            lemma_busy_sum_cons(busy, rec.0, t, ps[i].id);
            assert(busy.id == Option::Some(ps[i].id) <==> i == j);
            assert(busy_sum(rec.0, t2, ps[i].id) == (if !ar.0[i] || queue2.contains(i) {
                rem2[i] as int
            } else {
                0int
            }));
            if i == j {
                assert(adm[j]);
                assert(queue.contains(j)) by {
                    assert(queue[0] == j);
                };
                if rem[j] > inc {
                    assert(queue2[queue2.len() - 1] == j);
                    assert(queue2.contains(j));
                } else {
                    assert(!queue2.contains(j)) by {
                        if queue2.contains(j) {
                            let k = choose|k: int| 0 <= k < queue2.len() && queue2[k] == j;
                            if k < d.len() {
                                assert(queue2[k] == queue[k + 1]);
                            } else {
                                assert(queue2[k] == ar.1[k - d.len()]);
                                assert(!adm[queue2[k]]);
                            }
                        }
                    };
                    assert(ar.0[j]);
                }
            } else {
                if adm[i] {
                    if queue.contains(i) {
                        let k = choose|k: int| 0 <= k < queue.len() && queue[k] == i;
                        assert(k > 0);
                        assert(queue2[k - 1] == queue[k]);
                        assert(queue2.contains(i));
                        assert(rem2[i] == rem[i]);
                    } else {
                        assert(!queue2.contains(i)) by {
                            if queue2.contains(i) {
                                let k = choose|k: int| 0 <= k < queue2.len() && queue2[k] == i;
                                if k < d.len() {
                                    assert(queue2[k] == queue[k + 1]);
                                    assert(queue.contains(i));
                                } else if k < d.len() + ar.1.len() {
                                    assert(queue2[k] == ar.1[k - d.len()]);
                                    assert(!adm[queue2[k]]);
                                } else {
                                    assert(queue2[k] == j);
                                }
                            }
                        };
                        assert(ar.0[i]);
                    }
                } else {
                    assert(rem2[i] == rem[i]);
                    if ar.0[i] {
                        assert(ar.1.contains(i));
                        let k = choose|k: int| 0 <= k < ar.1.len() && ar.1[k] == i;
                        assert(queue2[d.len() + k] == i);
                        assert(queue2.contains(i));
                    }
                }
            }
        };
    } else {
        lemma_next_arr(arrivals(ps), adm, 0);
        match next_arr(arrivals(ps), adm, 0) {
            Option::None => {
                assert forall|i: int|
                    0 <= i < ps.len() implies times_consistent(
                    #[trigger] rr_go(ps, adm, queue, rem, q, t, table).1[i],
                    ps[i],
                ) by {
                    assert(adm[i]);
                    assert(!queue.contains(i));
                };
                assert forall|i: int|
                    0 <= i < ps.len() implies busy_sum(
                    rr_go(ps, adm, queue, rem, q, t, table).0,
                    t,
                    (#[trigger] ps[i]).id,
                ) == (if !adm[i] || queue.contains(i) {
                    rem[i] as int
                } else {
                    0int
                }) by {
                    assert(adm[i]);
                    assert(!queue.contains(i));
                };
            },
            Option::Some(k0) => {
                let t2 = ps[k0].arrival as int;
                assert(t2 > t);
                let ar = rr_admit(ps, adm, t2);
                lemma_rr_admit_props(ps, adm, t2);
                lemma_rr_admit_measure(ps, adm, t2);
                lemma_count_false_nonneg(ar.0);
                assert forall|i: int|
                    0 <= i < ps.len() && !(#[trigger] ar.0[i]) implies rem[i] == ps[i].burst by {
                    assert(!adm[i]);
                };
                assert forall|k: int|
                    0 <= k < ar.1.len() implies 0 <= (#[trigger] ar.1[k]) < ps.len()
                    && ar.0[ar.1[k]] && rem[ar.1[k]] >= 1 by {
                    assert(!adm[ar.1[k]]);
                    assert(rem[ar.1[k]] == ps[ar.1[k]].burst);
                };
                assert forall|i: int|
                    0 <= i < ps.len() && #[trigger] ar.0[i] && !ar.1.contains(i) implies
                    times_consistent(table[i], ps[i]) by {
                    if adm[i] {
                        assert(!queue.contains(i));
                    } else {
                        assert(ar.1.contains(i));
                    }
                };
                lemma_rr_go_laws(ps, ar.0, ar.1, rem, q, t2, table);
                let rec = rr_go(ps, ar.0, ar.1, rem, q, t2, table);
                let idle = SegV { id: Option::None, end: t2 };
                assert(rr_go(ps, adm, queue, rem, q, t, table).0 == seq![idle] + rec.0);
                assert(rr_go(ps, adm, queue, rem, q, t, table).1 == rec.1);
                lemma_ends_cons(idle, rec.0, t);
                lemma_busy_cons(idle, rec.0, t, q);
                assert forall|i: int|
                    0 <= i < ps.len() implies times_consistent(
                    #[trigger] rr_go(ps, adm, queue, rem, q, t, table).1[i],
                    ps[i],
                ) by {
                    assert(times_consistent(rec.1[i], ps[i]));
                };
                assert forall|i: int|
                    0 <= i < ps.len() implies busy_sum(
                    rr_go(ps, adm, queue, rem, q, t, table).0,
                    t,
                    (#[trigger] ps[i]).id,
                ) == (if !adm[i] || queue.contains(i) {
                    rem[i] as int
                } else {
                    0int
                }) by {
                    lemma_busy_sum_cons(idle, rec.0, t, ps[i].id);
                    assert(busy_sum(rec.0, t2, ps[i].id) == (if !ar.0[i] || ar.1.contains(i) {
                        rem[i] as int
                    } else {
                        0int
                    }));
                    if adm[i] {
                        assert(ar.0[i]);
                        assert(!ar.1.contains(i)) by {
                            if ar.1.contains(i) {
                                let k = choose|k: int| 0 <= k < ar.1.len() && ar.1[k] == i;
                                assert(!adm[ar.1[k]]);
                            }
                        };
                        assert(!queue.contains(i));
                    } else {
                        if ar.0[i] {
                            assert(ar.1.contains(i));
                        }
                    }
                };
            },
        }
    }
}

/// Under Round-Robin with a positive quantum and distinct process ids: for
/// every process, turnaround equals completion minus arrival and waiting
/// equals turnaround minus burst; segment end times are strictly increasing
/// from 0; no busy segment lasts longer than one quantum; and the busy time
/// attributed to each process adds up to exactly its burst — in particular, a
/// completed process never runs again.
pub proof fn lemma_rr_laws(ps: Seq<ProcV>, q: u32)
    requires
        wf_procs(ps),
        distinct_ids(ps),
        q >= 1,
    ensures
        rr_spec(ps, q).1.len() == ps.len(),
        forall|i: int| 0 <= i < ps.len() ==> times_consistent(#[trigger] rr_spec(ps, q).1[i], ps[i]),
        ends_increasing_from(rr_spec(ps, q).0, 0),
        busy_within(rr_spec(ps, q).0, 0, q),
        forall|i: int|
            0 <= i < ps.len() ==> busy_sum(rr_spec(ps, q).0, 0, (#[trigger] ps[i]).id)
                == ps[i].burst,
{
    let adm = Seq::new(ps.len(), |i: int| false);
    let rem = Seq::new(ps.len(), |i: int| ps[i].burst);
    lemma_next_arr(arrivals(ps), adm, 0);
    match next_arr(arrivals(ps), adm, 0) {
        Option::None => {
            assert(ps.len() == 0);
            assert(crate::model::init_table(0) =~= Seq::<TimesV>::empty());
        },
        Option::Some(j0) => {
            let t0 = ps[j0].arrival as int;
            let adm1 = adm.update(j0, true);
            let queue1: Seq<int> = seq![j0];
            lemma_count_false_update(adm, j0);
            assert(queue1[0] == j0);
            assert forall|i: int|
                0 <= i < ps.len() && #[trigger] adm1[i] && !queue1.contains(i) implies
                times_consistent(crate::model::init_table(ps.len())[i], ps[i]) by {
                assert(i == j0);
                assert(queue1.contains(j0));
            };
            lemma_rr_go_laws(ps, adm1, queue1, rem, q, t0, crate::model::init_table(ps.len()));
            let rec = rr_go(ps, adm1, queue1, rem, q, t0, crate::model::init_table(ps.len()));
            if t0 > 0 {
                let idle = SegV { id: Option::None, end: t0 };
                assert(rr_spec(ps, q).0 == seq![idle] + rec.0);
                lemma_ends_cons(idle, rec.0, 0);
                lemma_busy_cons(idle, rec.0, 0, q);
            } else {
                assert(rr_spec(ps, q).0 == Seq::<SegV>::empty() + rec.0);
                assert(Seq::<SegV>::empty() + rec.0 =~= rec.0);
            }
            assert forall|i: int|
                0 <= i < ps.len() implies busy_sum(rr_spec(ps, q).0, 0, (#[trigger] ps[i]).id)
                == ps[i].burst by {
                assert(busy_sum(rec.0, t0, ps[i].id) == (if !adm1[i] || queue1.contains(i) {
                    rem[i] as int
                } else {
                    0int
                }));
                assert(rem[i] == ps[i].burst);
                if i == j0 {
                    assert(queue1.contains(j0)) by {
                        assert(queue1[0] == j0);
                    };
                } else {
                    assert(!adm1[i]);
                }
                if t0 > 0 {
                    let idle = SegV { id: Option::None, end: t0 };
                    lemma_busy_sum_cons(idle, rec.0, 0, ps[i].id);
                } else {
                    assert(rr_spec(ps, q).0 == rec.0);
                }
            };
        },
    }
}

/// An empty batch yields an empty timeline and an empty timing table, for
/// every algorithm.
pub proof fn lemma_empty_runs(q: u32)
    ensures
        fcfs_spec(Seq::empty()) == (Seq::<SegV>::empty(), Seq::<TimesV>::empty()),
        np_spec(Seq::empty()) == (Seq::<SegV>::empty(), Seq::<TimesV>::empty()),
        crate::rr::rr_spec(Seq::empty(), q) == (Seq::<SegV>::empty(), Seq::<TimesV>::empty()),
{
    let ps = Seq::<ProcV>::empty();
    let adm = Seq::new(0, |i: int| false);
    let tb = crate::model::init_table(0);
    assert(adm =~= Seq::<bool>::empty());
    assert(tb =~= Seq::<TimesV>::empty());
    assert(next_arr(arrivals(ps), adm, 0) is None);
    assert(fcfs_go(ps, adm, 0, tb) == (Seq::<SegV>::empty(), tb));
    assert(admit_all(ps, adm, Seq::empty(), 0) == (adm, Seq::<(u32, u32, u32)>::empty()));
    assert(np_go(ps, adm, Seq::empty(), 0, tb) == (Seq::<SegV>::empty(), tb));
}

} // verus!
