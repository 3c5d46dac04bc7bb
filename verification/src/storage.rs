//! How a ladder is stored: the records of the levels and of the arena, and
//! what each transition does to them.

use vstd::prelude::*;
use crate::grid::lemma_aggregate_bounds;
use crate::ladder::Ladder;
use crate::moves::{
    lemma_apart,
    lemma_fresh_slot,
    lemma_insert_places,
    lemma_insert_wf,
    lemma_remove_places,
    lemma_remove_wf,
    lemma_resize,
    lemma_wf_positive,
};
use crate::sums::{lemma_queue_total_push, lemma_queue_total_remove, lemma_queue_total_update};
use crate::{Order, PriceLevel};

verus! {

/// The ladder slots hold the records of the queues of `m`.
#[verifier::opaque]
pub open spec fn levels_stored(m: Ladder, orders: Seq<PriceLevel>) -> bool {
    &&& orders.len() == m.levels.len()
    &&& forall|l: int| 0 <= l < m.levels.len() ==> #[trigger] orders[l] == m.level_record(l)
}

/// The arena holds, at the slot of each resting order of `m`, its record.
#[verifier::opaque]
pub open spec fn orders_stored(m: Ladder, arena: Seq<Order>) -> bool {
    &&& arena.len() == m.arena_len
    &&& forall|l: int, k: int|
        #![trigger m.levels[l][k]]
        m.at(l, k) ==> arena[m.levels[l][k].slot as int] == m.order_record(l, k)
}

/// The ladder slots after an insertion: the slot of the level has the new
/// order as its tail, and as its head if the queue was empty, and its total
/// has grown by the size.
pub proof fn lemma_insert_levels(
    m: Ladder,
    before: Seq<PriceLevel>,
    after: Seq<PriceLevel>,
    id: u64,
    price: int,
    size: int,
)
    requires
        m.wf(),
        m.accepts(price, size),
        !m.holds(id),
        m.value() + size * price <= i64::MAX,
        m.free.len() == 0 ==> m.arena_len < usize::MAX,
        levels_stored(m, before),
        after.len() == before.len(),
        forall|a: int|
            0 <= a < before.len() && a != m.index_of(price) ==> #[trigger] after[a] == before[a],
        ({
            let l = m.index_of(price);
            0 <= l < before.len() ==> after[l] == (PriceLevel {
                head: if before[l].head is None {
                    Some(m.next_slot())
                } else {
                    before[l].head
                },
                tail: Some(m.next_slot()),
                total_size: (before[l].total_size + size) as i64,
            })
        }),
    ensures
        levels_stored(m.insert(id, price, size), after),
{
    reveal(levels_stored);
    let n = m.insert(id, price, size);
    let l = m.index_of(price);
    let q = m.levels[l];
    lemma_insert_wf(m, id, price, size);
    lemma_insert_places(m, id, price, size);
    lemma_wf_positive(m);
    lemma_aggregate_bounds(m);
    lemma_wf_positive(n);
    lemma_aggregate_bounds(n);
    lemma_queue_total_push(q, n.levels[l][q.len() as int]);
    assert forall|a: int| 0 <= a < n.levels.len() implies #[trigger] after[a] == n.level_record(
        a,
    ) by {
        assert(before[a] == m.level_record(a));
        if a != l {
            assert(n.levels[a] == m.levels[a]);
        } else {
            assert(0 <= m.level_total(l) <= m.value());
            assert(0 <= n.level_total(l) <= n.value());
            assert(n.levels[l].last() == n.levels[l][q.len() as int]);
            if q.len() > 0 {
                assert(n.levels[l][0] == q[0]);
            }
        }
    }
}

/// The arena after an insertion: the new order stands in the next slot,
/// linked behind the former tail of its queue, and the former tail points
/// to it.
pub proof fn lemma_insert_orders(
    m: Ladder,
    before: Seq<Order>,
    after: Seq<Order>,
    id: u64,
    price: int,
    size: int,
)
    requires
        m.wf(),
        m.accepts(price, size),
        !m.holds(id),
        m.value() + size * price <= i64::MAX,
        m.free.len() == 0 ==> m.arena_len < usize::MAX,
        orders_stored(m, before),
        after.len() == m.insert(id, price, size).arena_len,
        ({
            let l = m.index_of(price);
            let q = m.levels[l];
            let slot = m.next_slot();
            let tail: Option<usize> = if q.len() == 0 {
                None
            } else {
                Some(q.last().slot)
            };
            &&& after[slot as int] == (Order {
                id,
                price_index: l as usize,
                size: size as i64,
                prev: tail,
                next: None,
            })
            &&& forall|s: int|
                0 <= s < before.len() && s != slot ==> #[trigger] after[s] == (if Some(s as usize)
                    == tail {
                    Order { next: Some(slot), ..before[s] }
                } else {
                    before[s]
                })
        }),
    ensures
        orders_stored(m.insert(id, price, size), after),
{
    reveal(orders_stored);
    let n = m.insert(id, price, size);
    let l = m.index_of(price);
    let q = m.levels[l];
    let last = q.len() as int;
    let slot = m.next_slot();
    lemma_insert_wf(m, id, price, size);
    lemma_insert_places(m, id, price, size);
    lemma_fresh_slot(m);
    lemma_wf_positive(n);
    lemma_aggregate_bounds(n);
    assert(0 < size <= n.level_total(l) <= n.value()) by {
        assert(n.levels[l][last].size == size);
    }
    assert forall|a: int, b: int|
        #![trigger n.levels[a][b]]
        n.at(a, b) implies after[n.levels[a][b].slot as int] == n.order_record(a, b) by {
        if a == l && b == last {
            if last > 0 {
                assert(n.levels[l][last - 1] == q[last - 1]);
            }
        } else {
            assert(m.at(a, b));
            assert(n.levels[a][b] == m.levels[a][b]);
            assert(before[m.levels[a][b].slot as int] == m.order_record(a, b));
            assert(m.levels[a][b].slot != slot);
            assert(m.levels[a][b].slot < m.arena_len);
            if a == l && b == last - 1 {
                assert(n.levels[l][last].slot == slot);
            } else {
                if last > 0 {
                    lemma_apart(m, a, b, l, last - 1);
                }
                if a == l {
                    assert(n.levels[a][b + 1] == m.levels[a][b + 1]);
                }
            }
            if a == l && b > 0 {
                assert(n.levels[a][b - 1] == m.levels[a][b - 1]);
            }
        }
    }
}

/// The arena with the neighbours `prev` and `next` of a departing order
/// linked to each other.
pub open spec fn unlink(arena: Seq<Order>, prev: Option<usize>, next: Option<usize>) -> Seq<Order> {
    let linked = match prev {
        Some(p) => arena.update(p as int, Order { next, ..arena[p as int] }),
        None => arena,
    };
    match next {
        Some(x) => linked.update(x as int, Order { prev, ..linked[x as int] }),
        None => linked,
    }
}

/// The ladder slots after the `k`-th order of level `l` has left: the head
/// and the tail of the level move on if they were that order, and the total
/// shrinks by its size.
pub proof fn lemma_remove_levels(
    m: Ladder,
    before: Seq<PriceLevel>,
    after: Seq<PriceLevel>,
    l: int,
    k: int,
)
    requires
        m.wf(),
        m.at(l, k),
        levels_stored(m, before),
        after.len() == before.len(),
        forall|a: int| 0 <= a < before.len() && a != l ==> #[trigger] after[a] == before[a],
        ({
            let gone = m.levels[l][k];
            let record = m.order_record(l, k);
            after[l] == (PriceLevel {
                head: if before[l].head == Some(gone.slot) {
                    record.next
                } else {
                    before[l].head
                },
                tail: if before[l].tail == Some(gone.slot) {
                    record.prev
                } else {
                    before[l].tail
                },
                total_size: (before[l].total_size - gone.size) as i64,
            })
        }),
    ensures
        levels_stored(m.remove_at(l, k), after),
{
    reveal(levels_stored);
    let n = m.remove_at(l, k);
    let q = m.levels[l];
    lemma_remove_wf(m, l, k);
    lemma_remove_places(m, l, k);
    lemma_wf_positive(m);
    lemma_aggregate_bounds(m);
    lemma_wf_positive(n);
    lemma_aggregate_bounds(n);
    lemma_queue_total_remove(q, k);
    assert forall|a: int| 0 <= a < n.levels.len() implies #[trigger] after[a] == n.level_record(
        a,
    ) by {
        assert(before[a] == m.level_record(a));
        if a != l {
            assert(n.levels[a] == m.levels[a]);
        } else {
            assert(0 <= m.level_total(l) <= m.value());
            assert(0 <= n.level_total(l) <= n.value());
            if k != 0 {
                lemma_apart(m, l, 0, l, k);
                assert(n.levels[l][0] == q[0]);
            } else if q.len() > 1 {
                assert(n.levels[l][0] == q[1]);
            }
            let last = q.len() - 1;
            if k != last {
                lemma_apart(m, l, last, l, k);
                assert(n.levels[l][last - 1] == q[last]);
            } else if q.len() > 1 {
                assert(n.levels[l][last - 1] == q[last - 1]);
            }
        }
    }
}

/// The arena after the `k`-th order of level `l` has left: its neighbours
/// in the queue are linked to each other. What its own slot holds is free.
pub proof fn lemma_remove_orders(m: Ladder, before: Seq<Order>, after: Seq<Order>, l: int, k: int)
    requires
        m.wf(),
        m.at(l, k),
        orders_stored(m, before),
        after.len() == before.len(),
        ({
            let gone = m.levels[l][k];
            let record = m.order_record(l, k);
            forall|s: int|
                0 <= s < before.len() && s != gone.slot ==> #[trigger] after[s] == unlink(
                    before,
                    record.prev,
                    record.next,
                )[s]
        }),
    ensures
        orders_stored(m.remove_at(l, k), after),
{
    reveal(orders_stored);
    let n = m.remove_at(l, k);
    let q = m.levels[l];
    let last = q.len() - 1;
    let gone = q[k];
    let record = m.order_record(l, k);
    let target = unlink(before, record.prev, record.next);
    lemma_remove_wf(m, l, k);
    lemma_remove_places(m, l, k);
    lemma_wf_positive(m);
    if k > 0 {
        assert(m.at(l, k - 1));
        assert(q[k - 1].slot < m.arena_len);
    }
    if k < last {
        assert(m.at(l, k + 1));
        assert(q[k + 1].slot < m.arena_len);
    }
    if 0 < k < last {
        lemma_apart(m, l, k - 1, l, k + 1);
    }
    assert forall|a: int, b: int|
        #![trigger n.levels[a][b]]
        n.at(a, b) implies after[n.levels[a][b].slot as int] == n.order_record(a, b) by {
        let b0 = if a == l && b >= k {
            b + 1
        } else {
            b
        };
        assert(m.at(a, b0) && n.levels[a][b] == m.levels[a][b0]);
        let e = m.levels[a][b0];
        assert(before[e.slot as int] == m.order_record(a, b0));
        lemma_apart(m, a, b0, l, k);
        assert(e.slot < m.arena_len);
        assert(after[e.slot as int] == target[e.slot as int]);
        if k > 0 && !(a == l && b0 == k - 1) {
            lemma_apart(m, a, b0, l, k - 1);
        }
        if k < last && !(a == l && b0 == k + 1) {
            lemma_apart(m, a, b0, l, k + 1);
        }
        if b > 0 {
            let p0 = if a == l && b - 1 >= k {
                b
            } else {
                b - 1
            };
            assert(n.levels[a][b - 1] == m.levels[a][p0]);
        }
        if b < n.levels[a].len() - 1 {
            let x0 = if a == l && b + 1 >= k {
                b + 2
            } else {
                b + 1
            };
            assert(n.levels[a][b + 1] == m.levels[a][x0]);
        }
    }
}

/// The ladder slots after the `k`-th order of level `l` has changed its
/// size: the total of the level changes by the difference.
pub proof fn lemma_resize_levels(
    m: Ladder,
    before: Seq<PriceLevel>,
    after: Seq<PriceLevel>,
    l: int,
    k: int,
    size: int,
)
    requires
        m.wf(),
        m.at(l, k),
        size > 0,
        m.value() + (size - m.levels[l][k].size) * m.price_at(l) <= i64::MAX,
        levels_stored(m, before),
        after.len() == before.len(),
        forall|a: int| 0 <= a < before.len() && a != l ==> #[trigger] after[a] == before[a],
        after[l] == (PriceLevel {
            total_size: (before[l].total_size - m.levels[l][k].size + size) as i64,
            ..before[l]
        }),
    ensures
        levels_stored(m.resize_at(l, k, size), after),
{
    reveal(levels_stored);
    let n = m.resize_at(l, k, size);
    let q = m.levels[l];
    lemma_resize(m, l, k, size);
    lemma_wf_positive(m);
    lemma_aggregate_bounds(m);
    lemma_wf_positive(n);
    lemma_aggregate_bounds(n);
    lemma_queue_total_update(q, k, n.levels[l][k]);
    assert forall|a: int| 0 <= a < n.levels.len() implies #[trigger] after[a] == n.level_record(
        a,
    ) by {
        assert(before[a] == m.level_record(a));
        if a != l {
            assert(n.levels[a] == m.levels[a]);
        } else {
            assert(0 <= m.level_total(l) <= m.value());
            assert(0 <= n.level_total(l) <= n.value());
            assert(n.levels[l][0].slot == q[0].slot);
            assert(n.levels[l].last().slot == q.last().slot);
        }
    }
}

/// The arena after the `k`-th order of level `l` has changed its size: its
/// record has the new size, and nothing else has changed.
pub proof fn lemma_resize_orders(
    m: Ladder,
    before: Seq<Order>,
    after: Seq<Order>,
    l: int,
    k: int,
    size: int,
)
    requires
        m.wf(),
        m.at(l, k),
        0 < size <= i64::MAX,
        orders_stored(m, before),
        after == before.update(
            m.levels[l][k].slot as int,
            Order { size: size as i64, ..before[m.levels[l][k].slot as int] },
        ),
    ensures
        orders_stored(m.resize_at(l, k, size), after),
{
    reveal(orders_stored);
    let n = m.resize_at(l, k, size);
    let q = m.levels[l];
    assert forall|a: int, b: int|
        #![trigger n.levels[a][b]]
        n.at(a, b) implies after[n.levels[a][b].slot as int] == n.order_record(a, b) by {
        assert(m.at(a, b));
        assert(before[m.levels[a][b].slot as int] == m.order_record(a, b));
        assert(m.levels[a][b].slot < m.arena_len);
        if a != l || b != k {
            lemma_apart(m, a, b, l, k);
        }
        if b > 0 {
            assert(n.levels[a][b - 1].slot == m.levels[a][b - 1].slot);
        }
        if b < n.levels[a].len() - 1 {
            assert(n.levels[a][b + 1].slot == m.levels[a][b + 1].slot);
        }
    }
}

} // verus!
