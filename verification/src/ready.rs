//! The ready set of the non-preemptive simulators: a `sorted_vec::SortedVec`
//! of `(key, arrival time, input position)` triples, ordered lexicographically
//! (the order std documents for integer tuples). The key is the burst time
//! for SJF and the priority value for the priority policy, so removing the
//! least element yields the next process to run, with arrival time and then
//! input position breaking ties.

use vstd::prelude::*;
use vstd::multiset::Multiset;
use vstd::seq_lib::group_to_multiset_ensures;

verus! {

/// Lexicographic order on `(key, arrival, input position)` triples; this is
/// the `Ord` std derives for tuples of integers.
pub open spec fn triple_le(a: (u32, u32, u32), b: (u32, u32, u32)) -> bool {
    ||| a.0 < b.0
    ||| (a.0 == b.0 && a.1 < b.1)
    ||| (a.0 == b.0 && a.1 == b.1 && a.2 <= b.2)
}

#[verifier::external_type_specification]
#[verifier::external_body]
#[verifier::reject_recursive_types(T)]
pub struct ExSortedVec<T: Ord>(sorted_vec::SortedVec<T>);

/// What the ready set holds, as a multiset of triples.
pub uninterp spec fn ready_contents(q: sorted_vec::SortedVec<(u32, u32, u32)>) -> Multiset<
    (u32, u32, u32),
>;

/// Relies on sorted_vec::SortedVec::new: a fresh container is empty.
#[verifier::external_body]
pub(crate) fn ready_new() -> (r: sorted_vec::SortedVec<(u32, u32, u32)>)
    ensures
        ready_contents(r) == Multiset::<(u32, u32, u32)>::empty(),
{
    sorted_vec::SortedVec::new()
}

/// Relies on sorted_vec::SortedVec::insert: binary-search insertion keeps the
/// inner vector sorted and adds exactly the given element.
#[verifier::external_body]
pub(crate) fn ready_insert(q: &mut sorted_vec::SortedVec<(u32, u32, u32)>, x: (u32, u32, u32))
    ensures
        ready_contents(*final(q)) == ready_contents(*old(q)).insert(x),
{
    q.insert(x);
}

/// Relies on sorted_vec::SortedVec::len (reached through its `Deref` to the
/// inner vector): the number of stored elements.
#[verifier::external_body]
pub(crate) fn ready_len(q: &sorted_vec::SortedVec<(u32, u32, u32)>) -> (r: usize)
    ensures
        r == ready_contents(*q).len(),
{
    q.len()
}

/// Relies on sorted_vec::SortedVec::remove_index: the inner vector is kept
/// sorted ascending, so removing index 0 removes a least element under the
/// tuple order.
#[verifier::external_body]
pub(crate) fn ready_remove_min(q: &mut sorted_vec::SortedVec<(u32, u32, u32)>) -> (r: (
    u32,
    u32,
    u32,
))
    requires
        ready_contents(*old(q)).len() > 0,
    ensures
        ready_contents(*old(q)).count(r) > 0,
        forall|y: (u32, u32, u32)| ready_contents(*old(q)).count(y) > 0 ==> triple_le(r, y),
        ready_contents(*final(q)) == ready_contents(*old(q)).remove(r),
{
    q.remove_index(0)
}

/// The specification-side picture of the ready set: the triples in ascending
/// order.
pub open spec fn sorted_triples(r: Seq<(u32, u32, u32)>) -> bool {
    forall|i: int, j: int| 0 <= i < j < r.len() ==> triple_le(#[trigger] r[i], #[trigger] r[j])
}

/// Insertion into the sorted triple sequence, before the first element the
/// new triple does not exceed.
pub open spec fn insert_sorted(r: Seq<(u32, u32, u32)>, x: (u32, u32, u32)) -> Seq<(u32, u32, u32)>
    decreases r.len(),
{
    if r.len() == 0 {
        seq![x]
    } else if triple_le(x, r[0]) {
        seq![x] + r
    } else {
        seq![r[0]] + insert_sorted(r.drop_first(), x)
    }
}

/// Prepending an element adds it to the multiset picture.
proof fn lemma_cons_multiset(s: Seq<(u32, u32, u32)>, x: (u32, u32, u32))
    ensures
        (seq![x] + s).to_multiset() == s.to_multiset().insert(x),
{
    broadcast use group_to_multiset_ensures;

    let c = seq![x] + s;
    assert(c.remove(0) =~= s);
    assert(c[0] == x);
    assert(c.remove(0).to_multiset() =~= c.to_multiset().remove(x));
    assert(c.to_multiset().contains(x));
    assert(c.to_multiset() =~= s.to_multiset().insert(x));
}

pub proof fn lemma_insert_sorted(r: Seq<(u32, u32, u32)>, x: (u32, u32, u32))
    requires
        sorted_triples(r),
    ensures
        sorted_triples(insert_sorted(r, x)),
        insert_sorted(r, x).to_multiset() == r.to_multiset().insert(x),
        insert_sorted(r, x).len() == r.len() + 1,
        forall|k: int|
            0 <= k < insert_sorted(r, x).len() ==> (#[trigger] insert_sorted(r, x)[k]) == x
                || r.contains(insert_sorted(r, x)[k]),
    decreases r.len(),
{
    broadcast use group_to_multiset_ensures;

    if r.len() == 0 {
        lemma_cons_multiset(Seq::empty(), x);
        assert(seq![x] =~= seq![x] + Seq::empty());
        assert(insert_sorted(r, x).to_multiset() == r.to_multiset().insert(x));
    } else if triple_le(x, r[0]) {
        lemma_cons_multiset(r, x);
        assert(forall|k: int|
            0 <= k < (seq![x] + r).len() ==> (#[trigger] (seq![x] + r)[k]) == x || r.contains(
                (seq![x] + r)[k],
            ));
    } else {
        let tail = r.drop_first();
        assert(sorted_triples(tail));
        lemma_insert_sorted(tail, x);
        let rec = insert_sorted(tail, x);
        lemma_cons_multiset(rec, r[0]);
        lemma_cons_multiset(tail, r[0]);
        assert(seq![r[0]] + tail =~= r);
        assert((seq![r[0]] + rec).to_multiset() =~= r.to_multiset().insert(x));
        // order: r[0] precedes everything in rec
        assert(forall|k: int| 0 <= k < rec.len() ==> triple_le(r[0], #[trigger] rec[k])) by {
            assert(forall|k: int|
                0 <= k < rec.len() ==> (#[trigger] rec[k]) == x || tail.contains(rec[k]));
            assert(forall|k: int|
                0 <= k < tail.len() ==> triple_le(r[0], #[trigger] tail[k]));
        }
        assert(sorted_triples(seq![r[0]] + rec));
        assert(forall|k: int|
            0 <= k < (seq![r[0]] + rec).len() ==> (#[trigger] (seq![r[0]] + rec)[k]) == x
                || r.contains((seq![r[0]] + rec)[k])) by {
            assert(forall|k: int|
                0 <= k < tail.len() ==> r.contains(#[trigger] tail[k])) by {
                assert(forall|k: int| 0 <= k < tail.len() ==> #[trigger] tail[k] == r[k + 1]);
            }
        }
    }
}

/// In a sorted triple sequence, a least element of the multiset picture is
/// the first element, and dropping it removes exactly that element.
pub proof fn lemma_pop_min(r: Seq<(u32, u32, u32)>, x: (u32, u32, u32))
    requires
        sorted_triples(r),
        r.len() > 0,
        r.to_multiset().count(x) > 0,
        forall|y: (u32, u32, u32)| r.to_multiset().count(y) > 0 ==> triple_le(x, y),
    ensures
        x == r[0],
        r.drop_first().to_multiset() == r.to_multiset().remove(x),
    decreases r.len(),
{
    broadcast use group_to_multiset_ensures;

    assert(r.contains(x));
    let k = choose|k: int| 0 <= k < r.len() && r[k] == x;
    assert(r.contains(r[0]));
    assert(r.to_multiset().count(r[0]) > 0);
    assert(triple_le(x, r[0]));
    if k > 0 {
        assert(triple_le(r[0], r[k]));
    }
    assert(x == r[0]);
    assert(r.drop_first() =~= r.remove(0));
    assert(r.remove(0).to_multiset() =~= r.to_multiset().remove(r[0]));
}

} // verus!
