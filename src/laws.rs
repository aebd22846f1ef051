//! Properties that relate several operations of the list, stated over the
//! abstract contents and counts that the operations' contracts speak of.
use vstd::prelude::*;
use crate::list::{range_of, without_range, FixedCapacityList};

verus! {

/// First in, first out: starting from a queue holding `q`, enqueue the
/// elements of `vs` one by one, then dequeue until the queue is empty. The
/// dequeued elements are `q` followed by `vs`, in order.
///
/// `states` lists the queue after each step: one enqueue per element of
/// `vs`, then one dequeue per element of `outs`, each step as `enqueue` and
/// `dequeue` promise it.
pub proof fn fifo_law<T>(q: Seq<T>, vs: Seq<T>, states: Seq<Seq<T>>, outs: Seq<T>)
    requires
        outs.len() == q.len() + vs.len(),
        states.len() == vs.len() + outs.len() + 1,
        states[0] == q,
        forall|i: int| 0 <= i < vs.len() ==> (#[trigger] states[i + 1]) == states[i].push(vs[i]),
        forall|j: int|
            0 <= j < outs.len() ==> states[vs.len() + j].len() > 0 && (#[trigger] outs[j]) == states[vs.len()
                + j][0] && states[vs.len() + j + 1] == states[vs.len() + j].drop_first(),
    ensures
        outs == q + vs,
        states.last().len() == 0,
{
    let n = vs.len() as int;
    assert forall|i: int| 0 <= i <= n implies (#[trigger] states[i]) == q + vs.subrange(0, i) by {
        lemma_filled(q, vs, states, i);
    }
    let full = q + vs;
    assert(vs.subrange(0, n) =~= vs);
    let ds = states.subrange(n, states.len() as int);
    assert forall|j: int| 0 <= j < outs.len() implies (#[trigger] ds[j]).len() > 0 && outs[j] == ds[j][0]
        && ds[j + 1] == ds[j].drop_first() by {
        assert(ds[j] == states[vs.len() + j]);
        assert(ds[j + 1] == states[vs.len() + j + 1]);
        assert(outs[j] == states[vs.len() + j][0]);
    }
    assert forall|j: int| 0 <= j < outs.len() implies (#[trigger] outs[j]) == full[j] by {
        lemma_drained(full, ds, outs, j);
    }
    lemma_drained(full, ds, outs, outs.len() as int);
    assert(states.last() == ds[outs.len() as int]);
    assert(outs =~= full);
}

proof fn lemma_filled<T>(q: Seq<T>, vs: Seq<T>, states: Seq<Seq<T>>, i: int)
    requires
        0 <= i <= vs.len(),
        states.len() > vs.len(),
        states[0] == q,
        forall|k: int| 0 <= k < vs.len() ==> (#[trigger] states[k + 1]) == states[k].push(vs[k]),
    ensures
        states[i] == q + vs.subrange(0, i),
    decreases i,
{
    if i == 0 {
        assert(q + vs.subrange(0, 0) =~= q);
    } else {
        lemma_filled(q, vs, states, i - 1);
        assert(states[(i - 1) + 1] == states[i - 1].push(vs[i - 1]));
        assert(q + vs.subrange(0, i) =~= (q + vs.subrange(0, i - 1)).push(vs[i - 1]));
    }
}

proof fn lemma_drained<T>(full: Seq<T>, ds: Seq<Seq<T>>, outs: Seq<T>, j: int)
    requires
        0 <= j <= outs.len(),
        outs.len() == full.len(),
        ds.len() == outs.len() + 1,
        ds[0] == full,
        forall|k: int| 0 <= k < outs.len() ==> (#[trigger] ds[k]).len() > 0,
        forall|k: int| 0 <= k < outs.len() ==> (#[trigger] outs[k]) == ds[k][0],
        forall|k: int| 0 <= k < outs.len() ==> (#[trigger] ds[k + 1]) == ds[k].drop_first(),
    ensures
        ds[j] == full.subrange(j, full.len() as int),
    decreases j,
{
    if j == 0 {
        assert(full.subrange(0, full.len() as int) =~= full);
    } else {
        lemma_drained(full, ds, outs, j - 1);
        assert(ds[(j - 1) + 1] == ds[j - 1].drop_first());
        assert(full.subrange(j, full.len() as int) =~= full.subrange(j - 1, full.len() as int).drop_first());
    }
}

/// On an arena that backs one list, every slot is either holding an element
/// of that list or free.
pub proof fn conservation_law<T>(l: FixedCapacityList<T>)
    requires
        l.wf(),
        l@.len() == 1,
    ensures
        l@[0].len() + l.free_count() == l.cap(),
{
    l.lemma_conservation();
    assert(l@.drop_last() =~= Seq::<Seq<T>>::empty());
    assert(crate::list::total_len(l@.drop_last()) == 0);
}

/// A list at full capacity has no free slot, so by the contract of
/// `enqueue` a further enqueue fails and leaves the list as it was.
pub proof fn capacity_law<T>(l: FixedCapacityList<T>)
    requires
        l.wf(),
        l@.len() == 1,
        l@[0].len() == l.cap(),
    ensures
        l.free_count() == 0,
{
    conservation_law(l);
}

/// Once `k` elements have been dequeued from a full list, exactly `k` of the
/// enqueues that follow succeed: the first `k`, and none after them. The
/// values they add come out after those still queued, in their own order
/// (`fifo_law`, with `q` the elements still queued).
///
/// `frees[i]` is the number of free slots before the `i`-th enqueue and
/// `oks[i]` whether it succeeded, each step as `enqueue` promises it.
pub proof fn reuse_law<T>(l: FixedCapacityList<T>, k: nat, frees: Seq<nat>, oks: Seq<bool>)
    requires
        l.wf(),
        l@.len() == 1,
        l@[0].len() + k == l.cap(),
        frees.len() == oks.len() + 1,
        frees[0] == l.free_count(),
        forall|i: int|
            0 <= i < oks.len() ==> ((#[trigger] oks[i]) <==> frees[i] > 0) && frees[i + 1] == if oks[i] {
                (frees[i] - 1) as nat
            } else {
                frees[i]
            },
    ensures
        forall|i: int| 0 <= i < oks.len() ==> (oks[i] <==> i < k),
{
    conservation_law(l);
    assert forall|i: int| 0 <= i <= oks.len() implies (#[trigger] frees[i]) == if i <= k { k - i } else { 0 } by {
        lemma_free_run(k, frees, oks, i);
    }
    assert forall|i: int| 0 <= i < oks.len() implies (oks[i] <==> i < k) by {
        assert(frees[i] == if i <= k { k - i } else { 0 });
    }
}

proof fn lemma_free_run(k: nat, frees: Seq<nat>, oks: Seq<bool>, i: int)
    requires
        0 <= i <= oks.len(),
        frees.len() == oks.len() + 1,
        frees[0] == k,
        forall|j: int|
            0 <= j < oks.len() ==> ((#[trigger] oks[j]) <==> frees[j] > 0) && frees[j + 1] == if oks[j] {
                (frees[j] - 1) as nat
            } else {
                frees[j]
            },
    ensures
        frees[i] == if i <= k { k - i } else { 0 },
    decreases i,
{
    if i > 0 {
        lemma_free_run(k, frees, oks, i - 1);
        assert(oks[i - 1] <==> frees[i - 1] > 0);
    }
}

/// Splicing the run of `count` elements at `start` of a list holding `a`
/// onto a list holding `b` leaves `a.len() - count` elements in the first
/// and `b.len() + count` in the second, keeps the order of the moved run,
/// and neither loses nor duplicates any element.
pub proof fn splice_conservation_law<T>(a: Seq<T>, b: Seq<T>, start: int, count: int)
    requires
        0 <= start,
        0 <= count,
        start + count <= a.len(),
    ensures
        without_range(a, start, count).len() == a.len() - count,
        (b + range_of(a, start, count)).len() == b.len() + count,
        (b + range_of(a, start, count)).subrange(b.len() as int, b.len() + count) == a.subrange(start, start + count),
        without_range(a, start, count).to_multiset().add((b + range_of(a, start, count)).to_multiset())
            == a.to_multiset().add(b.to_multiset()),
{
    let left = a.subrange(0, start);
    let mid = a.subrange(start, start + count);
    let right = a.subrange(start + count, a.len() as int);
    assert(a =~= left + mid + right);
    assert((b + mid).subrange(b.len() as int, b.len() + count) =~= mid);
    vstd::seq_lib::lemma_multiset_commutative(left, right);
    vstd::seq_lib::lemma_multiset_commutative(b, mid);
    vstd::seq_lib::lemma_multiset_commutative(left + mid, right);
    vstd::seq_lib::lemma_multiset_commutative(left, mid);
    assert(without_range(a, start, count).to_multiset().add((b + mid).to_multiset()) =~= a.to_multiset().add(
        b.to_multiset(),
    ));
}

} // verus!
