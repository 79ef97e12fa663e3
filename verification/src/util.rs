//! Shared machinery of the four simulators: the admission cursor (which
//! not-yet-admitted process arrives next), counting helpers used for
//! termination, and the arithmetic bounds that keep the simulated clock
//! inside `u32`.

use vstd::prelude::*;
use crate::model::{max_arrival, sum_burst, ProcV};

verus! {

pub open spec fn arrivals(ps: Seq<ProcV>) -> Seq<u32> {
    ps.map_values(|p: ProcV| p.arrival)
}

/// The next process to admit among the not-yet-admitted ones at positions
/// `i` and later: the one with the least arrival time, earliest input
/// position breaking ties.
pub open spec fn next_arr(arrs: Seq<u32>, adm: Seq<bool>, i: int) -> Option<int>
    decreases arrs.len() - i,
{
    if i < 0 || i >= arrs.len() || arrs.len() != adm.len() {
        Option::None
    } else {
        let rest = next_arr(arrs, adm, i + 1);
        if !adm[i] {
            match rest {
                Option::None => Option::Some(i),
                Option::Some(j) => if arrs[j] < arrs[i] {
                    Option::Some(j)
                } else {
                    Option::Some(i)
                },
            }
        } else {
            rest
        }
    }
}

/// How many processes are still unadmitted.
pub open spec fn count_false(adm: Seq<bool>) -> int
    decreases adm.len(),
{
    if adm.len() == 0 {
        0
    } else {
        count_false(adm.drop_last()) + (if adm.last() { 0int } else { 1int })
    }
}

/// Sum of the burst times of the unadmitted processes.
pub open spec fn sum_unadm(ps: Seq<ProcV>, adm: Seq<bool>) -> int
    decreases ps.len(),
{
    if ps.len() == 0 || ps.len() != adm.len() {
        0
    } else {
        sum_unadm(ps.drop_last(), adm.drop_last())
            + (if !adm.last() { ps.last().burst as int } else { 0int })
    }
}

pub proof fn lemma_next_arr(arrs: Seq<u32>, adm: Seq<bool>, i: int)
    ensures
        match next_arr(arrs, adm, i) {
            Option::None => (arrs.len() == adm.len() && 0 <= i) ==> forall|k: int| i <= k < adm.len() ==> #[trigger] adm[k],
            Option::Some(j) => {
                &&& arrs.len() == adm.len()
                &&& i <= j < adm.len()
                &&& !adm[j]
                &&& forall|k: int| i <= k < adm.len() && !(#[trigger] adm[k]) ==> arrs[j] <= arrs[k]
                &&& forall|k: int| i <= k < j && !(#[trigger] adm[k]) ==> arrs[j] < arrs[k]
            },
        },
    decreases arrs.len() - i,
{
    if i < 0 || i >= arrs.len() || arrs.len() != adm.len() {
    } else {
        lemma_next_arr(arrs, adm, i + 1);
    }
}

pub proof fn lemma_count_false_update(adm: Seq<bool>, j: int)
    requires
        0 <= j < adm.len(),
        !adm[j],
    ensures
        count_false(adm.update(j, true)) == count_false(adm) - 1,
    decreases adm.len(),
{
    let u = adm.update(j, true);
    if j == adm.len() - 1 {
        assert(u.drop_last() =~= adm.drop_last());
    } else {
        assert(u.drop_last() =~= adm.drop_last().update(j, true));
        lemma_count_false_update(adm.drop_last(), j);
    }
}


pub proof fn lemma_count_false_nonneg(adm: Seq<bool>)
    ensures
        count_false(adm) >= 0,
    decreases adm.len(),
{
    if adm.len() > 0 {
        lemma_count_false_nonneg(adm.drop_last());
    }
}

pub proof fn lemma_sum_unadm_update(ps: Seq<ProcV>, adm: Seq<bool>, j: int)
    requires
        ps.len() == adm.len(),
        0 <= j < ps.len(),
        !adm[j],
    ensures
        sum_unadm(ps, adm.update(j, true)) == sum_unadm(ps, adm) - ps[j].burst,
    decreases ps.len(),
{
    let u = adm.update(j, true);
    if j == ps.len() - 1 {
        assert(u.drop_last() =~= adm.drop_last());
    } else {
        assert(u.drop_last() =~= adm.drop_last().update(j, true));
        lemma_sum_unadm_update(ps.drop_last(), adm.drop_last(), j);
    }
}

pub proof fn lemma_sum_unadm_all(ps: Seq<ProcV>, adm: Seq<bool>)
    requires
        ps.len() == adm.len(),
        forall|k: int| 0 <= k < adm.len() ==> !(#[trigger] adm[k]),
    ensures
        sum_unadm(ps, adm) == sum_burst(ps),
    decreases ps.len(),
{
    if ps.len() > 0 {
        lemma_sum_unadm_all(ps.drop_last(), adm.drop_last());
    }
}

pub proof fn lemma_sum_unadm_le(ps: Seq<ProcV>, adm: Seq<bool>)
    requires
        forall|i: int| 0 <= i < ps.len() ==> (#[trigger] ps[i]).burst >= 0,
    ensures
        sum_unadm(ps, adm) <= sum_burst(ps),
        sum_unadm(ps, adm) >= 0,
    decreases ps.len(),
{
    if ps.len() > 0 && ps.len() == adm.len() {
        lemma_sum_unadm_le(ps.drop_last(), adm.drop_last());
    } else if ps.len() > 0 {
        lemma_sum_burst_nonneg(ps);
    }
}

pub proof fn lemma_sum_burst_nonneg(ps: Seq<ProcV>)
    ensures
        sum_burst(ps) >= 0,
    decreases ps.len(),
{
    if ps.len() > 0 {
        lemma_sum_burst_nonneg(ps.drop_last());
    }
}

/// An unadmitted process's burst is part of the unadmitted load.
pub proof fn lemma_burst_le_sum_unadm(ps: Seq<ProcV>, adm: Seq<bool>, j: int)
    requires
        ps.len() == adm.len(),
        0 <= j < ps.len(),
        !adm[j],
    ensures
        ps[j].burst <= sum_unadm(ps, adm),
    decreases ps.len(),
{
    lemma_sum_unadm_le(ps.drop_last(), adm.drop_last());
    assert(forall|i: int| 0 <= i < ps.drop_last().len() ==> (#[trigger] ps.drop_last()[i]).burst >= 0);
    if j < ps.len() - 1 {
        lemma_burst_le_sum_unadm(ps.drop_last(), adm.drop_last(), j);
    }
}

pub proof fn lemma_max_arrival(ps: Seq<ProcV>, i: int)
    requires
        0 <= i < ps.len(),
    ensures
        ps[i].arrival <= max_arrival(ps),
        max_arrival(ps) >= 0,
    decreases ps.len(),
{
    if i < ps.len() - 1 {
        lemma_max_arrival(ps.drop_last(), i);
    } else {
        lemma_max_arrival_nonneg(ps.drop_last());
    }
}

pub proof fn lemma_max_arrival_nonneg(ps: Seq<ProcV>)
    ensures
        max_arrival(ps) >= 0,
    decreases ps.len(),
{
    if ps.len() > 0 {
        lemma_max_arrival_nonneg(ps.drop_last());
    }
}

/// Finds the next process to admit: the unadmitted one with the least
/// arrival time, earliest input position breaking ties.
pub fn find_next(arrs: &Vec<u32>, adm: &Vec<bool>) -> (r: Option<usize>)
    requires
        arrs@.len() == adm@.len(),
    ensures
        match r {
            Option::None => next_arr(arrs@, adm@, 0) is None,
            Option::Some(j) => next_arr(arrs@, adm@, 0) == Option::Some(j as int),
        },
{
    let mut best: Option<usize> = Option::None;
    let mut i: usize = arrs.len();
    while i > 0
        invariant
            i <= arrs@.len(),
            arrs@.len() == adm@.len(),
            match best {
                Option::None => next_arr(arrs@, adm@, i as int) is None,
                Option::Some(b) => b < arrs@.len() && next_arr(arrs@, adm@, i as int) == Option::Some(b as int),
            },
        decreases i,
    {
        i = i - 1;
        if !adm[i] {
            best = match best {
                Option::None => Option::Some(i),
                Option::Some(b) => if arrs[b] < arrs[i] {
                    Option::Some(b)
                } else {
                    Option::Some(i)
                },
            };
        }
    }
    best
}

} // verus!
