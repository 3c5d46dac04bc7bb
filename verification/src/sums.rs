//! Lemmas on sums of sequences and on the totals of queues.

use vstd::prelude::*;
use crate::ladder::{queue_total, Resting, seq_sum};

verus! {

/// Replacing one term changes the sum by the difference.
pub proof fn lemma_seq_sum_update(s: Seq<int>, i: int, v: int)
    requires
        0 <= i < s.len(),
    ensures
        seq_sum(s.update(i, v)) == seq_sum(s) - s[i] + v,
    decreases s.len(),
{
    let t = s.update(i, v);
    if i == s.len() - 1 {
        assert(t.drop_last() =~= s.drop_last());
    } else {
        lemma_seq_sum_update(s.drop_last(), i, v);
        assert(t.drop_last() =~= s.drop_last().update(i, v));
    }
}

/// A sum of non-negative terms is at least each of them.
pub proof fn lemma_seq_sum_bounds(s: Seq<int>)
    requires
        forall|i: int| 0 <= i < s.len() ==> s[i] >= 0,
    ensures
        seq_sum(s) >= 0,
        forall|i: int| 0 <= i < s.len() ==> s[i] <= seq_sum(s),
    decreases s.len(),
{
    if s.len() > 0 {
        lemma_seq_sum_bounds(s.drop_last());
        assert forall|i: int| 0 <= i < s.len() implies s[i] <= seq_sum(s) by {
            if i < s.len() - 1 {
                assert(s.drop_last()[i] == s[i]);
            }
        }
    }
}

/// Sums compare as their terms do.
pub proof fn lemma_seq_sum_le(a: Seq<int>, b: Seq<int>)
    requires
        a.len() == b.len(),
        forall|i: int| 0 <= i < a.len() ==> a[i] <= b[i],
    ensures
        seq_sum(a) <= seq_sum(b),
    decreases a.len(),
{
    if a.len() > 0 {
        lemma_seq_sum_le(a.drop_last(), b.drop_last());
    }
}

/// The sum of the first `i + 1` terms is the sum of the first `i` and the next.
pub proof fn lemma_seq_sum_take(s: Seq<int>, i: int)
    requires
        0 <= i < s.len(),
    ensures
        seq_sum(s.take(i + 1)) == seq_sum(s.take(i)) + s[i],
        seq_sum(s.take(0)) == 0,
        seq_sum(s.take(s.len() as int)) == seq_sum(s),
{
    assert(s.take(i + 1).drop_last() =~= s.take(i));
    assert(s.take(s.len() as int) =~= s);
}

/// A sum of non-negative terms is at least the sum of its first terms.
pub proof fn lemma_seq_sum_prefix(s: Seq<int>, i: int)
    requires
        0 <= i <= s.len(),
        forall|j: int| 0 <= j < s.len() ==> s[j] >= 0,
    ensures
        0 <= seq_sum(s.take(i)) <= seq_sum(s),
    decreases s.len() - i,
{
    if i == s.len() {
        assert(s.take(i) =~= s);
        lemma_seq_sum_bounds(s);
    } else {
        lemma_seq_sum_prefix(s, i + 1);
        lemma_seq_sum_take(s, i);
        assert forall|j: int| 0 <= j < s.take(i).len() implies s.take(i)[j] >= 0 by {
            assert(s.take(i)[j] == s[j]);
        }
        lemma_seq_sum_bounds(s.take(i));
    }
}

/// A sum of zeros is zero.
pub proof fn lemma_seq_sum_zero(s: Seq<int>)
    requires
        forall|i: int| 0 <= i < s.len() ==> s[i] == 0,
    ensures
        seq_sum(s) == 0,
    decreases s.len(),
{
    if s.len() > 0 {
        lemma_seq_sum_zero(s.drop_last());
    }
}

/// An order that joins a queue adds its size to the total.
pub proof fn lemma_queue_total_push(q: Seq<Resting>, r: Resting)
    ensures
        queue_total(q.push(r)) == queue_total(q) + r.size,
{
    assert(q.push(r).drop_last() =~= q);
}

/// An order that leaves a queue takes its size from the total.
pub proof fn lemma_queue_total_remove(q: Seq<Resting>, k: int)
    requires
        0 <= k < q.len(),
    ensures
        queue_total(q.remove(k)) == queue_total(q) - q[k].size,
    decreases q.len(),
{
    let t = q.remove(k);
    if k == q.len() - 1 {
        assert(t =~= q.drop_last());
    } else {
        lemma_queue_total_remove(q.drop_last(), k);
        assert(t.drop_last() =~= q.drop_last().remove(k));
        assert(t.last() == q.last());
    }
}

/// An order that changes its size changes the total by the difference.
pub proof fn lemma_queue_total_update(q: Seq<Resting>, k: int, r: Resting)
    requires
        0 <= k < q.len(),
    ensures
        queue_total(q.update(k, r)) == queue_total(q) - q[k].size + r.size,
    decreases q.len(),
{
    let t = q.update(k, r);
    if k == q.len() - 1 {
        assert(t.drop_last() =~= q.drop_last());
    } else {
        lemma_queue_total_update(q.drop_last(), k, r);
        assert(t.drop_last() =~= q.drop_last().update(k, r));
    }
}

/// A queue of positive sizes has a total of at least its length, and of at
/// least each of its sizes.
pub proof fn lemma_queue_total_positive(q: Seq<Resting>)
    requires
        forall|k: int| 0 <= k < q.len() ==> (#[trigger] q[k]).size > 0,
    ensures
        queue_total(q) >= q.len(),
        forall|k: int| 0 <= k < q.len() ==> (#[trigger] q[k]).size <= queue_total(q),
    decreases q.len(),
{
    if q.len() > 0 {
        let p = q.drop_last();
        assert forall|k: int| 0 <= k < p.len() implies (#[trigger] p[k]).size > 0 by {
            assert(p[k] == q[k]);
        }
        lemma_queue_total_positive(p);
        assert forall|k: int| 0 <= k < q.len() implies (#[trigger] q[k]).size <= queue_total(q) by {
            if k < q.len() - 1 {
                assert(p[k] == q[k]);
            }
        }
    }
}

} // verus!
