//! Laws of the half-book, stated over its model.

use vstd::prelude::*;
use crate::grid::{
    lemma_aggregate_bounds,
    lemma_level_price,
    lemma_replace_level,
    lemma_valid_price_index,
};
use crate::ladder::Ladder;
use crate::matching::{lemma_remains_holds, lemma_sweep, remains};
use crate::moves::{
    lemma_free_apart,
    lemma_held,
    lemma_insert_distinct,
    lemma_insert_index,
    lemma_insert_places,
    lemma_locate,
    lemma_remove_index,
    lemma_remove_places,
    lemma_remove_wf,
    lemma_resize,
    lemma_wf_positive,
};
use crate::priority::{lemma_best_found, lemma_best_is_best, lemma_best_none, lemma_best_same};
use crate::sums::{lemma_queue_total_push, lemma_queue_total_update};

verus! {

/// Top of book: the best level is a populated level that no populated
/// level improves on, and there is none exactly when every level is empty.
pub proof fn law_top_of_book(m: Ladder, i: int)
    ensures
        m.best() == Some(i) <==> m.populated(i) && forall|j: int|
            m.better(j, i) ==> !#[trigger] m.populated(j),
        m.best() is None <==> forall|j: int| !#[trigger] m.populated(j),
{
    lemma_best_is_best(m);
    if m.populated(i) && (forall|j: int| m.better(j, i) ==> !#[trigger] m.populated(j)) {
        lemma_best_found(m, i);
    }
    if forall|j: int| !#[trigger] m.populated(j) {
        lemma_best_none(m);
    }
}

/// Conservation of size on insertion: the liquidity grows by the size of
/// the order.
pub proof fn law_insert_liquidity(m: Ladder, id: u64, price: int, size: int)
    requires
        m.wf(),
        m.accepts(price, size),
    ensures
        m.insert(id, price, size).total_liquidity() == m.total_liquidity() + size,
{
    let n = m.insert(id, price, size);
    let l = m.index_of(price);
    lemma_valid_price_index(m, price);
    lemma_insert_places(m, id, price, size);
    lemma_replace_level(m, n, l);
    lemma_queue_total_push(m.levels[l], n.levels[l][m.levels[l].len() as int]);
}

/// Conservation of size on removal: the liquidity shrinks by the size
/// that the order had left.
pub proof fn law_remove_liquidity(m: Ladder, id: u64)
    requires
        m.wf(),
        m.holds(id),
    ensures
        m.remove(id).total_liquidity() == m.total_liquidity() - m.order(id).size,
{
    lemma_held(m, id);
    lemma_remove_wf(m, m.locate(id).0, m.locate(id).1);
}

/// Conservation of size on modification: the liquidity changes by the
/// difference between the new size and the old one.
pub proof fn law_modify_liquidity(m: Ladder, id: u64, price: int, size: int)
    requires
        m.wf(),
        m.holds(id),
        m.accepts(price, size),
    ensures
        m.modify(id, price, size).total_liquidity() == m.total_liquidity() - m.order(id).size
            + size,
{
    let (l, k) = m.locate(id);
    lemma_held(m, id);
    if m.index_of(price) == l {
        let n = m.resize_at(l, k, size);
        lemma_replace_level(m, n, l);
        lemma_queue_total_update(m.levels[l], k, n.levels[l][k]);
    } else {
        lemma_remove_wf(m, l, k);
        law_insert_liquidity(m.remove_at(l, k), id, price, size);
    }
}

/// Conservation of size on matching: the liquidity shrinks by the size
/// of the taker, or to nothing if the taker is larger than the liquidity.
/// The cash traded is the value that the ladder lost.
pub proof fn law_match_liquidity(m: Ladder, size: int)
    requires
        m.wf(),
        size > 0,
    ensures
        m.match_size(size).0.total_liquidity() == if size <= m.total_liquidity() {
            m.total_liquidity() - size
        } else {
            0
        },
        m.match_size(size).1 == m.value() - m.match_size(size).0.value(),
{
    let (rest, cash) = m.match_size(size);
    lemma_sweep(m, m.start(), size);
    let filled = m.total_liquidity() - rest.total_liquidity();
    lemma_wf_positive(rest);
    lemma_aggregate_bounds(rest);
    if filled != size {
        assert forall|l: int| 0 <= l < rest.levels.len() implies #[trigger] rest.level_totals()[l]
            == 0 by {
            assert(!m.better(l, m.start()));
            assert(!rest.populated(l));
            assert(rest.levels[l].len() == 0);
        }
        crate::sums::lemma_seq_sum_zero(rest.level_totals());
    }
}

/// A valid ladder stays valid when a taker trades against it, and every
/// order that is left rested before, under its identifier and in its slot.
pub proof fn law_match_valid(m: Ladder, size: int)
    requires
        m.wf(),
    ensures
        m.match_size(size).0.wf(),
        remains(m, m.match_size(size).0),
        forall|id: u64| #[trigger] m.match_size(size).0.holds(id) ==> m.holds(id),
{
    lemma_sweep(m, m.start(), size);
    let rest = m.match_size(size).0;
    assert forall|id: u64| #[trigger] rest.holds(id) implies m.holds(id) by {
        lemma_remains_holds(m, rest, id);
    }
}

/// Time priority: of two orders in one queue, the later one is untouched
/// by a taker for as long as the earlier one rests.
pub proof fn law_fifo(m: Ladder, l: int, a: int, b: int, size: int)
    requires
        m.wf(),
        m.at(l, a),
        m.at(l, b),
        a < b,
    ensures
        m.match_size(size).0.holds(m.levels[l][a].id) ==> {
            &&& m.match_size(size).0.holds(m.levels[l][b].id)
            &&& m.match_size(size).0.order(m.levels[l][b].id) == m.levels[l][b]
        },
{
    let rest = m.match_size(size).0;
    let first = m.levels[l][a];
    let second = m.levels[l][b];
    lemma_sweep(m, m.start(), size);
    if rest.holds(first.id) {
        lemma_remains_holds(m, rest, first.id);
        lemma_locate(m, l, a);
        let (rl, ri) = rest.locate(first.id);
        lemma_held(rest, first.id);
        assert(rl == l);
        let gone = m.levels[l].len() - rest.levels[l].len();
        assert(ri + gone == a);
        let rj = b - gone;
        assert(rest.at(l, rj));
        let now = rest.levels[l][rj];
        assert(now.id == second.id && now.slot == second.slot && now.size == second.size);
        lemma_locate(rest, l, rj);
    }
}

/// Time priority: a new order stands behind every order of its level, and
/// every other order keeps its place.
pub proof fn law_insert_goes_last(m: Ladder, id: u64, price: int, size: int)
    requires
        m.wf(),
        m.accepts(price, size),
        !m.holds(id),
    ensures
        m.insert(id, price, size).locate(id) == (
            m.index_of(price),
            m.levels[m.index_of(price)].len() as int,
        ),
        forall|other: u64|
            other != id && m.holds(other) ==> #[trigger] m.insert(id, price, size).locate(other)
                == m.locate(other),
{
    lemma_valid_price_index(m, price);
    lemma_insert_distinct(m, id, price, size);
    lemma_insert_index(m, id, price, size);
}

/// Time priority: an order whose size is modified at its price keeps its
/// place in the queue, and so does every other order.
pub proof fn law_modify_keeps_place(m: Ladder, id: u64, size: int)
    requires
        m.wf(),
        m.holds(id),
        size > 0,
        m.value() + (size - m.order(id).size) * m.price_at(m.locate(id).0) <= i64::MAX,
    ensures
        forall|other: u64|
            m.holds(other) ==> #[trigger] m.modify(
                id,
                m.price_at(m.locate(id).0),
                size,
            ).locate(other) == m.locate(other),
{
    let (l, k) = m.locate(id);
    lemma_held(m, id);
    lemma_level_price(m, l);
    lemma_resize(m, l, k, size);
}

/// Time priority: when an order leaves, the orders that stay keep their
/// order in the queue.
pub proof fn law_remove_keeps_order(m: Ladder, id: u64, first: u64, second: u64)
    requires
        m.wf(),
        m.holds(id),
        m.holds(first),
        m.holds(second),
        first != id,
        second != id,
        m.locate(first).0 == m.locate(second).0,
        m.locate(first).1 < m.locate(second).1,
    ensures
        m.remove(id).holds(first),
        m.remove(id).holds(second),
        m.remove(id).locate(first).0 == m.locate(first).0,
        m.remove(id).locate(second).0 == m.locate(first).0,
        m.remove(id).locate(first).1 < m.remove(id).locate(second).1,
{
    let (l, k) = m.locate(id);
    let n = m.remove_at(l, k);
    lemma_held(m, id);
    lemma_held(m, first);
    lemma_held(m, second);
    lemma_remove_wf(m, l, k);
    lemma_remove_index(m, l, k);
    lemma_remove_places(m, l, k);
    let (fl, fk) = m.locate(first);
    let (sl, sk) = m.locate(second);
    let fk1 = if fl == l && fk > k {
        fk - 1
    } else {
        fk
    };
    let sk1 = if sl == l && sk > k {
        sk - 1
    } else {
        sk
    };
    assert(m.levels[fl][fk].id == first);
    assert(m.levels[sl][sk].id == second);
    assert(n.at(fl, fk1) && n.levels[fl][fk1] == m.levels[fl][fk]);
    assert(n.at(sl, sk1) && n.levels[sl][sk1] == m.levels[sl][sk]);
    lemma_locate(n, fl, fk1);
    lemma_locate(n, sl, sk1);
}

/// Arena and identifiers: every resting order is indexed under its
/// identifier with its slot, and every slot is either free or holds a
/// resting order, never both.
pub proof fn law_index_consistent(m: Ladder)
    requires
        m.wf(),
    ensures
        forall|l: int, k: int|
            #![trigger m.levels[l][k]]
            m.at(l, k) ==> m.id_map().contains_key(m.levels[l][k].id) && m.id_map()[m.levels[l][k].id]
                == m.levels[l][k].slot,
        forall|j: int, l: int, k: int|
            #![trigger m.free[j], m.levels[l][k]]
            0 <= j < m.free.len() && m.at(l, k) ==> m.free[j] != m.levels[l][k].slot,
        m.arena_len == m.order_count() + m.free.len(),
{
    assert forall|l: int, k: int| #![trigger m.levels[l][k]] m.at(l, k) implies m.id_map().contains_key(
        m.levels[l][k].id,
    ) && m.id_map()[m.levels[l][k].id] == m.levels[l][k].slot by {
        lemma_locate(m, l, k);
    }
    assert forall|j: int, l: int, k: int|
        #![trigger m.free[j], m.levels[l][k]]
        0 <= j < m.free.len() && m.at(l, k) implies m.free[j] != m.levels[l][k].slot by {
        lemma_free_apart(m, j);
    }
}

/// A valid ladder on which an order rests has a populated level.
proof fn lemma_some_populated(m: Ladder) -> (l: int)
    requires
        m.wf(),
        m.order_count() != 0,
    ensures
        m.at(l, 0),
{
    if forall|l: int| 0 <= l < m.levels.len() ==> #[trigger] m.level_counts()[l] == 0 {
        crate::sums::lemma_seq_sum_zero(m.level_counts());
    }
    let l = choose|l: int| 0 <= l < m.levels.len() && #[trigger] m.level_counts()[l] != 0;
    l
}

/// A ladder on which no order rests holds no identifier.
proof fn lemma_none_held(m: Ladder)
    requires
        m.wf(),
        m.order_count() == 0,
    ensures
        m.id_map().dom() == Set::<u64>::empty(),
{
    lemma_wf_positive(m);
    lemma_aggregate_bounds(m);
    assert forall|id: u64| !m.holds(id) by {
        if m.holds(id) {
            lemma_held(m, id);
            let l = m.locate(id).0;
            assert(m.levels[l].len() <= m.level_total(l));
            assert(m.level_counts()[l] > 0);
            crate::sums::lemma_seq_sum_bounds(m.level_counts());
        }
    }
    assert(m.id_map().dom() =~= Set::<u64>::empty());
}

/// Arena and identifiers: the index holds as many identifiers as orders rest.
pub proof fn law_index_count(m: Ladder)
    requires
        m.wf(),
    ensures
        m.id_map().dom().finite(),
        m.id_map().dom().len() == m.order_count(),
    decreases m.order_count(),
{
    lemma_wf_positive(m);
    lemma_aggregate_bounds(m);
    if m.order_count() == 0 {
        lemma_none_held(m);
    } else {
        let l = lemma_some_populated(m);
        let id = m.levels[l][0].id;
        let n = m.remove_at(l, 0);
        lemma_remove_wf(m, l, 0);
        lemma_remove_index(m, l, 0);
        lemma_locate(m, l, 0);
        law_index_count(n);
        assert(m.id_map().dom() =~= n.id_map().dom().insert(id));
    }
}

/// Level records: a level has a head exactly when it has a tail, and
/// exactly when its total is not zero; the total is never negative.
pub proof fn law_level_record(m: Ladder, l: int)
    requires
        m.wf(),
        0 <= l < m.levels.len(),
    ensures
        m.level_record(l).head is None <==> m.level_record(l).tail is None,
        m.level_record(l).head is None <==> m.level_record(l).total_size == 0,
        m.level_record(l).total_size == m.level_total(l),
        m.level_record(l).total_size >= 0,
{
    lemma_wf_positive(m);
    lemma_aggregate_bounds(m);
    assert(0 <= m.levels[l].len() <= m.level_total(l) <= m.value());
}

/// Queue links: the head of a queue has no order before it and the tail
/// none after it; of two neighbours, the earlier one points forward to
/// the later one and the later one back to the earlier one.
pub proof fn law_links(m: Ladder, l: int, k: int)
    requires
        m.wf(),
        m.at(l, k),
    ensures
        k == 0 <==> m.order_record(l, k).prev is None,
        k == m.levels[l].len() - 1 <==> m.order_record(l, k).next is None,
        k > 0 ==> m.order_record(l, k).prev == Some(m.levels[l][k - 1].slot) && m.order_record(
            l,
            k - 1,
        ).next == Some(m.levels[l][k].slot),
        m.order_record(l, k).price_index == l,
        m.order_record(l, k).size == m.levels[l][k].size,
        m.order_record(l, k).size > 0,
{
    lemma_wf_positive(m);
    lemma_aggregate_bounds(m);
    assert(0 < m.levels[l][k].size <= m.level_total(l) <= m.value());
}

/// Slot reuse: an order that joins directly after another has left takes
/// the slot that the other has left.
pub proof fn law_slot_reuse(m: Ladder, id: u64, next: u64, price: int, size: int)
    requires
        m.wf(),
        m.holds(id),
        m.accepts(price, size),
        next == id || !m.holds(next),
    ensures
        m.remove(id).insert(next, price, size).holds(next),
        m.remove(id).insert(next, price, size).order(next).slot == m.order(id).slot,
{
    let (l, k) = m.locate(id);
    let n = m.remove_at(l, k);
    lemma_held(m, id);
    lemma_locate(m, l, k);
    lemma_remove_wf(m, l, k);
    lemma_remove_index(m, l, k);
    lemma_valid_price_index(n, price);
    lemma_insert_distinct(n, next, price, size);
    lemma_insert_index(n, next, price, size);
}

/// Round trip: a ladder from which a new order is removed again has the
/// queues it had, and so the best level, the totals of its levels and the
/// liquidity it had. If a slot was free for the order, the whole ladder is
/// as it was.
pub proof fn law_insert_remove(m: Ladder, id: u64, price: int, size: int)
    requires
        m.wf(),
        m.accepts(price, size),
        !m.holds(id),
    ensures
        m.insert(id, price, size).remove(id).levels == m.levels,
        m.insert(id, price, size).remove(id).best() == m.best(),
        m.insert(id, price, size).remove(id).top() == m.top(),
        m.insert(id, price, size).remove(id).total_liquidity() == m.total_liquidity(),
        forall|l: int|
            m.insert(id, price, size).remove(id).level_total(l) == m.level_total(l),
        m.free.len() > 0 ==> m.insert(id, price, size).remove(id) == m,
{
    let n = m.insert(id, price, size);
    let l = m.index_of(price);
    let last = m.levels[l].len() as int;
    lemma_valid_price_index(m, price);
    lemma_insert_places(m, id, price, size);
    lemma_insert_distinct(m, id, price, size);
    lemma_insert_index(m, id, price, size);
    let r = n.remove(id);
    assert(n.locate(id) == (l, last));
    assert(r == n.remove_at(l, last));
    assert(n.levels[l].remove(last) =~= m.levels[l]);
    assert(r.levels =~= m.levels);
    assert(r.level_totals() =~= m.level_totals());
    assert forall|j: int| #[trigger] m.populated(j) <==> r.populated(j) by {}
    lemma_best_same(m, r);
    if m.free.len() > 0 {
        assert(r.free =~= m.free);
    }
}

/// Round trip: a modification to the price and the size that an order
/// has changes nothing.
pub proof fn law_modify_same(m: Ladder, id: u64)
    requires
        m.wf(),
        m.holds(id),
    ensures
        m.modify(id, m.price_at(m.locate(id).0), m.order(id).size) == m,
{
    let (l, k) = m.locate(id);
    lemma_held(m, id);
    lemma_level_price(m, l);
    let n = m.resize_at(l, k, m.order(id).size);
    assert(n.levels[l] =~= m.levels[l]);
    assert(n.levels =~= m.levels);
}

} // verus!
