//! What each transition of a ladder preserves and changes.

use vstd::prelude::*;
use crate::grid::{lemma_replace_level, lemma_valid_price_index, positive};
use crate::ladder::{Ladder, Resting};
use crate::priority::{lemma_best_found, lemma_best_is_best, lemma_best_none, lemma_best_same};
use crate::sums::{lemma_queue_total_push, lemma_queue_total_remove, lemma_queue_total_update};

verus! {

/// Two different places of a ladder without repetition hold different
/// identifiers in different slots.
pub proof fn lemma_apart(m: Ladder, l1: int, k1: int, l2: int, k2: int)
    requires
        m.distinct(),
        m.at(l1, k1),
        m.at(l2, k2),
        l1 != l2 || k1 != k2,
    ensures
        m.levels[l1][k1].id != m.levels[l2][k2].id,
        m.levels[l1][k1].slot != m.levels[l2][k2].slot,
{
    reveal(Ladder::distinct);
}

/// A free slot holds no resting order, and is free once.
pub proof fn lemma_free_apart(m: Ladder, j: int)
    requires
        m.free_apart(),
        0 <= j < m.free.len(),
    ensures
        forall|l: int, k: int| #![trigger m.levels[l][k]] m.at(l, k) ==> m.levels[l][k].slot != m.free[j],
        forall|i: int| 0 <= i < m.free.len() && i != j ==> #[trigger] m.free[i] != m.free[j],
{
    reveal(Ladder::free_apart);
    assert forall|i: int| 0 <= i < m.free.len() && i != j implies #[trigger] m.free[i] != m.free[j] by {
        if i < j {
            assert(m.free[i] != m.free[j]);
        } else {
            assert(m.free[j] != m.free[i]);
        }
    }
}

/// On a ladder without repeated identifiers, an order is found where it rests.
pub proof fn lemma_locate(m: Ladder, l: int, k: int)
    requires
        m.distinct(),
        m.at(l, k),
    ensures
        m.holds(m.levels[l][k].id),
        m.locate(m.levels[l][k].id) == (l, k),
        m.order(m.levels[l][k].id) == m.levels[l][k],
{
    let id = m.levels[l][k].id;
    let (a, b) = m.locate(id);
    assert(m.at(a, b) && m.levels[a][b].id == id);
    if a != l || b != k {
        lemma_apart(m, a, b, l, k);
    }
}

/// An identifier that is held rests at the place where it is found.
pub proof fn lemma_held(m: Ladder, id: u64)
    requires
        m.holds(id),
    ensures
        m.at(m.locate(id).0, m.locate(id).1),
        m.order(id).id == id,
{
}

/// An identifier that is not held rests nowhere.
pub proof fn lemma_not_held(m: Ladder, id: u64, l: int, k: int)
    requires
        !m.holds(id),
        m.at(l, k),
    ensures
        m.levels[l][k].id != id,
{
}

/// A valid ladder has positive sizes and prices where orders rest.
pub proof fn lemma_wf_positive(m: Ladder)
    requires
        m.wf(),
    ensures
        positive(m),
{
}

/// The slot that the next order takes holds no resting order, and lies
/// below the number of slots that will exist.
pub proof fn lemma_fresh_slot(m: Ladder)
    requires
        m.wf(),
        m.free.len() == 0 ==> m.arena_len < usize::MAX,
    ensures
        forall|l: int, k: int| #![trigger m.levels[l][k]] m.at(l, k) ==> m.levels[l][k].slot != m.next_slot(),
        forall|j: int| 0 <= j < m.free.len() - 1 ==> #[trigger] m.free[j] != m.next_slot(),
        m.free.len() > 0 ==> m.next_slot() < m.arena_len,
        m.free.len() == 0 ==> m.next_slot() == m.arena_len,
{
    if m.free.len() > 0 {
        lemma_free_apart(m, m.free.len() - 1);
    }
}

/// Where the orders of a ladder rest after one more has joined.
pub proof fn lemma_insert_places(m: Ladder, id: u64, price: int, size: int)
    requires
        0 <= m.index_of(price) < m.levels.len(),
    ensures
        ({
            let n = m.insert(id, price, size);
            let l = m.index_of(price);
            let last = m.levels[l].len() as int;
            &&& n.levels.len() == m.levels.len()
            &&& n.at(l, last)
            &&& n.levels[l][last] == (Resting { id, size, slot: m.next_slot() })
            &&& n.levels[l] == m.levels[l].push(n.levels[l][last])
            &&& forall|a: int| 0 <= a < m.levels.len() && a != l ==> #[trigger] n.levels[a] == m.levels[a]
            &&& forall|a: int, b: int|
                #![trigger n.levels[a][b]]
                #![trigger m.levels[a][b]]
                m.at(a, b) ==> n.at(a, b) && n.levels[a][b] == m.levels[a][b]
            &&& forall|a: int, b: int|
                #![trigger n.levels[a][b]]
                #![trigger m.levels[a][b]]
                n.at(a, b) ==> (a == l && b == last) || m.at(a, b)
        }),
{
}

/// After an order with a new identifier has joined a valid ladder, no two
/// resting orders share an identifier or a slot.
pub proof fn lemma_insert_distinct(m: Ladder, id: u64, price: int, size: int)
    requires
        m.wf(),
        0 <= m.index_of(price) < m.levels.len(),
        !m.holds(id),
    ensures
        m.insert(id, price, size).distinct(),
{
    let n = m.insert(id, price, size);
    let l = m.index_of(price);
    let last = m.levels[l].len() as int;
    lemma_insert_places(m, id, price, size);
    if m.free.len() > 0 {
        lemma_free_apart(m, m.free.len() - 1);
    }
    reveal(Ladder::distinct);
    assert forall|l1: int, k1: int, l2: int, k2: int|
        n.at(l1, k1) && n.at(l2, k2) && (l1 != l2 || k1 != k2) implies {
        &&& (#[trigger] n.levels[l1][k1]).id != (#[trigger] n.levels[l2][k2]).id
        &&& n.levels[l1][k1].slot != n.levels[l2][k2].slot
    } by {
        let new1 = l1 == l && k1 == last;
        let new2 = l2 == l && k2 == last;
        if !new1 {
            assert(m.at(l1, k1) && n.levels[l1][k1] == m.levels[l1][k1]);
            lemma_not_held(m, id, l1, k1);
        }
        if !new2 {
            assert(m.at(l2, k2) && n.levels[l2][k2] == m.levels[l2][k2]);
            lemma_not_held(m, id, l2, k2);
        }
    }
}

/// An accepted order that joins a valid ladder leaves it valid.
pub proof fn lemma_insert_wf(m: Ladder, id: u64, price: int, size: int)
    requires
        m.wf(),
        m.accepts(price, size),
        !m.holds(id),
        m.value() + size * price <= i64::MAX,
        m.free.len() == 0 ==> m.arena_len < usize::MAX,
    ensures
        0 <= m.index_of(price) < m.levels.len(),
        m.price_at(m.index_of(price)) == price,
        m.insert(id, price, size).wf(),
        m.insert(id, price, size).total_liquidity() == m.total_liquidity() + size,
        m.insert(id, price, size).value() == m.value() + size * price,
        m.insert(id, price, size).order_count() == m.order_count() + 1,
{
    let n = m.insert(id, price, size);
    let l = m.index_of(price);
    let q = m.levels[l];
    let last = q.len() as int;
    let r = Resting { id, size, slot: m.next_slot() };
    lemma_valid_price_index(m, price);
    lemma_insert_places(m, id, price, size);
    lemma_fresh_slot(m);
    // Aggregates.
    lemma_replace_level(m, n, l);
    lemma_queue_total_push(q, r);
    assert((m.level_total(l) + size) * price == m.level_total(l) * price + size * price)
        by (nonlinear_arith);
    // Validity.
    assert forall|a: int, b: int| #![trigger n.at(a, b)] #![trigger n.levels[a][b]] n.at(a, b) implies {
        &&& n.levels[a][b].size > 0
        &&& n.price_at(a) > 0
        &&& (n.levels[a][b].slot < n.arena_len)
    } by {
        if !(a == l && b == last) {
            assert(m.at(a, b) && n.levels[a][b] == m.levels[a][b]);
        }
    }
    assert forall|j: int| 0 <= j < n.free.len() implies (#[trigger] n.free[j] < n.arena_len) by {
        assert(n.free[j] == m.free[j]);
    }
    assert(n.distinct()) by {
        reveal(Ladder::distinct);
        assert forall|l1: int, k1: int, l2: int, k2: int|
            n.at(l1, k1) && n.at(l2, k2) && (l1 != l2 || k1 != k2) implies {
            &&& (#[trigger] n.levels[l1][k1]).id != (#[trigger] n.levels[l2][k2]).id
            &&& n.levels[l1][k1].slot != n.levels[l2][k2].slot
        } by {
            let new1 = l1 == l && k1 == last;
            let new2 = l2 == l && k2 == last;
            if !new1 {
                assert(m.at(l1, k1) && n.levels[l1][k1] == m.levels[l1][k1]);
                lemma_not_held(m, id, l1, k1);
            }
            if !new2 {
                assert(m.at(l2, k2) && n.levels[l2][k2] == m.levels[l2][k2]);
                lemma_not_held(m, id, l2, k2);
            }
        }
    }
    assert(n.free_apart()) by {
        reveal(Ladder::free_apart);
        assert forall|i: int, j: int| 0 <= i < j < n.free.len() implies #[trigger] n.free[i]
            != #[trigger] n.free[j] by {
            assert(n.free[i] == m.free[i] && n.free[j] == m.free[j]);
        }
        assert forall|j: int, a: int, b: int| 0 <= j < n.free.len() && n.at(a, b) implies
            #[trigger] n.free[j] != (#[trigger] n.levels[a][b]).slot by {
            assert(n.free[j] == m.free[j]);
            if !(a == l && b == last) {
                assert(m.at(a, b) && n.levels[a][b] == m.levels[a][b]);
            }
        }
    }
}

/// After an order has joined, it is found at the back of its queue, under
/// its identifier, in the slot that was next; every other identifier is found
/// where it was.
pub proof fn lemma_insert_index(m: Ladder, id: u64, price: int, size: int)
    requires
        m.wf(),
        0 <= m.index_of(price) < m.levels.len(),
        m.insert(id, price, size).distinct(),
    ensures
        m.insert(id, price, size).holds(id),
        m.insert(id, price, size).locate(id) == (
            m.index_of(price),
            m.levels[m.index_of(price)].len() as int,
        ),
        m.insert(id, price, size).order(id) == (Resting { id, size, slot: m.next_slot() }),
        forall|other: u64|
            other != id ==> (#[trigger] m.insert(id, price, size).holds(other) <==> m.holds(other)),
        forall|other: u64|
            other != id && m.holds(other) ==> #[trigger] m.insert(id, price, size).locate(other)
                == m.locate(other) && m.insert(id, price, size).order(other) == m.order(other),
        m.insert(id, price, size).id_map() == m.id_map().insert(id, m.next_slot()),
{
    let n = m.insert(id, price, size);
    let l = m.index_of(price);
    let last = m.levels[l].len() as int;
    lemma_insert_places(m, id, price, size);
    lemma_locate(n, l, last);
    assert forall|other: u64| other != id implies (#[trigger] n.holds(other) <==> m.holds(other)) by {
        if m.holds(other) {
            let (a, b) = m.locate(other);
            assert(n.at(a, b) && n.levels[a][b] == m.levels[a][b]);
        }
        if n.holds(other) {
            let (a, b) = n.locate(other);
            assert(m.at(a, b) && n.levels[a][b] == m.levels[a][b]);
        }
    }
    assert forall|other: u64| other != id && m.holds(other) implies #[trigger] n.locate(other)
        == m.locate(other) && n.order(other) == m.order(other) by {
        let (a, b) = m.locate(other);
        assert(n.at(a, b) && n.levels[a][b] == m.levels[a][b]);
        lemma_locate(n, a, b);
    }
    assert(n.id_map() =~= m.id_map().insert(id, m.next_slot()));
}

/// After an order has joined, its level is the best one if it improves on
/// the best, and the best is unchanged if not.
pub proof fn lemma_insert_best(m: Ladder, id: u64, price: int, size: int)
    requires
        0 <= m.index_of(price) < m.levels.len(),
    ensures
        m.insert(id, price, size).best() == match m.best() {
            None => Some(m.index_of(price)),
            Some(b) => if m.better(m.index_of(price), b) {
                Some(m.index_of(price))
            } else {
                Some(b)
            },
        },
{
    let n = m.insert(id, price, size);
    let l = m.index_of(price);
    lemma_insert_places(m, id, price, size);
    lemma_best_is_best(m);
    let target = match m.best() {
        None => l,
        Some(b) => if m.better(l, b) {
            l
        } else {
            b
        },
    };
    assert(n.levels[l].len() > 0);
    if target != l {
        assert(n.levels[target] == m.levels[target]);
    }
    assert(n.populated(target));
    assert forall|j: int| n.better(j, target) implies !#[trigger] n.populated(j) by {
        if 0 <= j < m.levels.len() {
            assert(j != l);
            assert(n.levels[j] == m.levels[j]);
            assert(!m.populated(j));
        }
    }
    lemma_best_found(n, target);
}

/// Where the orders of a ladder rest after one has left.
pub proof fn lemma_remove_places(m: Ladder, l: int, k: int)
    requires
        m.at(l, k),
    ensures
        ({
            let n = m.remove_at(l, k);
            &&& n.levels.len() == m.levels.len()
            &&& n.levels[l] == m.levels[l].remove(k)
            &&& n.levels[l].len() == m.levels[l].len() - 1
            &&& n.free == m.free.push(m.levels[l][k].slot)
            &&& forall|a: int| 0 <= a < m.levels.len() && a != l ==> #[trigger] n.levels[a] == m.levels[a]
            &&& forall|a: int, b: int|
                #![trigger n.levels[a][b]]
                n.at(a, b) ==> {
                    let b0 = if a == l && b >= k {
                        b + 1
                    } else {
                        b
                    };
                    m.at(a, b0) && n.levels[a][b] == m.levels[a][b0] && (a != l || b0 != k)
                }
            &&& forall|a: int, b: int|
                #![trigger m.levels[a][b]]
                m.at(a, b) && (a != l || b != k) ==> {
                    let b1 = if a == l && b > k {
                        b - 1
                    } else {
                        b
                    };
                    n.at(a, b1) && n.levels[a][b1] == m.levels[a][b]
                }
        }),
{
}

/// An order that leaves a valid ladder leaves it valid, and takes its size
/// from the liquidity and its cash from the value.
pub proof fn lemma_remove_wf(m: Ladder, l: int, k: int)
    requires
        m.wf(),
        m.at(l, k),
    ensures
        m.remove_at(l, k).wf(),
        m.remove_at(l, k).total_liquidity() == m.total_liquidity() - m.levels[l][k].size,
        m.remove_at(l, k).value() == m.value() - m.levels[l][k].size * m.price_at(l),
        m.remove_at(l, k).order_count() == m.order_count() - 1,
{
    let n = m.remove_at(l, k);
    let gone = m.levels[l][k];
    lemma_remove_places(m, l, k);
    lemma_replace_level(m, n, l);
    lemma_queue_total_remove(m.levels[l], k);
    assert((m.level_total(l) - gone.size) * m.price_at(l) == m.level_total(l) * m.price_at(l)
        - gone.size * m.price_at(l)) by (nonlinear_arith);
    assert(gone.size * m.price_at(l) >= 0) by (nonlinear_arith)
        requires
            gone.size > 0,
            m.price_at(l) > 0,
    ;
    assert forall|a: int, b: int| #![trigger n.at(a, b)] #![trigger n.levels[a][b]] n.at(a, b) implies {
        &&& n.levels[a][b].size > 0
        &&& n.price_at(a) > 0
        &&& (n.levels[a][b].slot < n.arena_len)
    } by {
        let b0 = if a == l && b >= k {
            b + 1
        } else {
            b
        };
        assert(m.at(a, b0) && n.levels[a][b] == m.levels[a][b0]);
    }
    assert forall|j: int| 0 <= j < n.free.len() implies (#[trigger] n.free[j] < n.arena_len) by {
        if j < m.free.len() {
            assert(n.free[j] == m.free[j]);
        }
    }
    assert(n.distinct()) by {
        reveal(Ladder::distinct);
        assert forall|l1: int, k1: int, l2: int, k2: int|
            n.at(l1, k1) && n.at(l2, k2) && (l1 != l2 || k1 != k2) implies {
            &&& (#[trigger] n.levels[l1][k1]).id != (#[trigger] n.levels[l2][k2]).id
            &&& n.levels[l1][k1].slot != n.levels[l2][k2].slot
        } by {
            let j1 = if l1 == l && k1 >= k {
                k1 + 1
            } else {
                k1
            };
            let j2 = if l2 == l && k2 >= k {
                k2 + 1
            } else {
                k2
            };
            assert(m.at(l1, j1) && n.levels[l1][k1] == m.levels[l1][j1]);
            assert(m.at(l2, j2) && n.levels[l2][k2] == m.levels[l2][j2]);
        }
    }
    assert(n.free_apart()) by {
        reveal(Ladder::free_apart);
        reveal(Ladder::distinct);
        assert forall|i: int, j: int| 0 <= i < j < n.free.len() implies #[trigger] n.free[i]
            != #[trigger] n.free[j] by {
            assert(n.free[i] == m.free[i]);
            if j < m.free.len() {
                assert(n.free[j] == m.free[j]);
            } else {
                assert(m.free[i] != m.levels[l][k].slot);
            }
        }
        assert forall|j: int, a: int, b: int| 0 <= j < n.free.len() && n.at(a, b) implies
            #[trigger] n.free[j] != (#[trigger] n.levels[a][b]).slot by {
            let b0 = if a == l && b >= k {
                b + 1
            } else {
                b
            };
            assert(m.at(a, b0) && n.levels[a][b] == m.levels[a][b0]);
            if j < m.free.len() {
                assert(n.free[j] == m.free[j]);
            } else {
                assert(m.levels[a][b0].slot != m.levels[l][k].slot);
            }
        }
    }
}

/// After an order has left, its identifier is held no more, and every other
/// order is found as before.
pub proof fn lemma_remove_index(m: Ladder, l: int, k: int)
    requires
        m.wf(),
        m.at(l, k),
    ensures
        !m.remove_at(l, k).holds(m.levels[l][k].id),
        forall|other: u64|
            other != m.levels[l][k].id ==> (#[trigger] m.remove_at(l, k).holds(other) <==> m.holds(
                other,
            )),
        forall|other: u64|
            other != m.levels[l][k].id && m.holds(other) ==> #[trigger] m.remove_at(l, k).order(
                other,
            ) == m.order(other),
        m.remove_at(l, k).id_map() == m.id_map().remove(m.levels[l][k].id),
{
    let n = m.remove_at(l, k);
    let id = m.levels[l][k].id;
    lemma_remove_wf(m, l, k);
    lemma_remove_places(m, l, k);
    if n.holds(id) {
        let (a, b) = n.locate(id);
        let b0 = if a == l && b >= k {
            b + 1
        } else {
            b
        };
        assert(m.at(a, b0) && n.levels[a][b] == m.levels[a][b0]);
        lemma_apart(m, a, b0, l, k);
    }
    assert forall|other: u64| other != id implies (#[trigger] n.holds(other) <==> m.holds(other)) by {
        if m.holds(other) {
            let (a, b) = m.locate(other);
            let b1 = if a == l && b > k {
                b - 1
            } else {
                b
            };
            assert(n.at(a, b1) && n.levels[a][b1] == m.levels[a][b]);
        }
        if n.holds(other) {
            let (a, b) = n.locate(other);
            let b0 = if a == l && b >= k {
                b + 1
            } else {
                b
            };
            assert(m.at(a, b0) && n.levels[a][b] == m.levels[a][b0]);
        }
    }
    assert forall|other: u64| other != id && m.holds(other) implies #[trigger] n.order(other)
        == m.order(other) by {
        let (a, b) = m.locate(other);
        let b1 = if a == l && b > k {
            b - 1
        } else {
            b
        };
        assert(n.at(a, b1) && n.levels[a][b1] == m.levels[a][b]);
        lemma_locate(n, a, b1);
    }
    lemma_locate(m, l, k);
    assert(n.id_map() =~= m.id_map().remove(id));
}

/// Where the best level has been emptied, the best level is the first
/// populated one after it.
pub proof fn lemma_best_after_emptied(n: Ladder, l: int)
    requires
        0 <= l < n.levels.len(),
        n.levels[l].len() == 0,
        forall|j: int| n.better(j, l) ==> !#[trigger] n.populated(j),
    ensures
        n.best() == n.first_populated(n.worse(l)),
{
    crate::priority::lemma_first_populated(n, n.worse(l));
    match n.first_populated(n.worse(l)) {
        Some(i) => {
            assert forall|j: int| n.better(j, i) implies !#[trigger] n.populated(j) by {
                if j != l && !n.better(j, l) {
                    assert(!n.better(j, n.worse(l)));
                }
            }
            lemma_best_found(n, i);
        },
        None => {
            assert forall|j: int| !#[trigger] n.populated(j) by {
                if j != l && !n.better(j, l) {
                    assert(!n.better(j, n.worse(l)));
                }
            }
            lemma_best_none(n);
        },
    }
}

/// The best level after an order has left: unchanged, unless the order was
/// the last one of the best level; then it is the first populated level
/// after that one.
pub proof fn lemma_remove_best(m: Ladder, l: int, k: int)
    requires
        m.at(l, k),
    ensures
        m.remove_at(l, k).best() == if m.best() == Some(l) && m.levels[l].len() == 1 {
            m.remove_at(l, k).first_populated(m.worse(l))
        } else {
            m.best()
        },
{
    let n = m.remove_at(l, k);
    lemma_remove_places(m, l, k);
    lemma_best_is_best(m);
    assert forall|j: int| j != l implies (#[trigger] n.populated(j) <==> m.populated(j)) by {
        if 0 <= j < m.levels.len() {
            assert(n.levels[j] == m.levels[j]);
        }
    }
    if m.best() == Some(l) && m.levels[l].len() == 1 {
        assert forall|j: int| n.better(j, l) implies !#[trigger] n.populated(j) by {
            assert(!m.populated(j));
        }
        lemma_best_after_emptied(n, l);
    } else {
        let b = m.best().unwrap();
        assert(m.populated(l));
        assert(n.populated(b));
        assert forall|j: int| n.better(j, b) implies !#[trigger] n.populated(j) by {
            assert(!m.populated(j));
            assert(j != l);
        }
        lemma_best_found(n, b);
    }
}

/// An order that changes its size on a valid ladder leaves it valid, keeps
/// its place and its slot, and changes the liquidity and the value by the
/// difference.
pub proof fn lemma_resize(m: Ladder, l: int, k: int, size: int)
    requires
        m.wf(),
        m.at(l, k),
        size > 0,
        m.value() + (size - m.levels[l][k].size) * m.price_at(l) <= i64::MAX,
    ensures
        m.resize_at(l, k, size).wf(),
        m.resize_at(l, k, size).total_liquidity() == m.total_liquidity() + size
            - m.levels[l][k].size,
        m.resize_at(l, k, size).value() == m.value() + (size - m.levels[l][k].size) * m.price_at(l),
        m.resize_at(l, k, size).order_count() == m.order_count(),
        m.resize_at(l, k, size).best() == m.best(),
        m.resize_at(l, k, size).id_map() == m.id_map(),
        forall|id: u64| #[trigger] m.resize_at(l, k, size).holds(id) <==> m.holds(id),
        forall|id: u64|
            m.holds(id) ==> #[trigger] m.resize_at(l, k, size).locate(id) == m.locate(id),
{
    let n = m.resize_at(l, k, size);
    let was = m.levels[l][k];
    let r = Resting { size, ..was };
    assert(n.levels[l] == m.levels[l].update(k, r));
    assert forall|a: int, b: int| #![trigger n.levels[a][b]] #![trigger m.levels[a][b]] n.at(a, b)
        == m.at(a, b) && (m.at(a, b) ==> n.levels[a][b] == if a == l && b == k {
        r
    } else {
        m.levels[a][b]
    }) by {}
    lemma_replace_level(m, n, l);
    lemma_queue_total_update(m.levels[l], k, r);
    assert((m.level_total(l) - was.size + size) * m.price_at(l) == m.level_total(l) * m.price_at(l)
        + (size - was.size) * m.price_at(l)) by (nonlinear_arith);
    assert forall|a: int, b: int| #![trigger n.at(a, b)] #![trigger n.levels[a][b]] n.at(a, b) implies {
        &&& n.levels[a][b].size > 0
        &&& n.price_at(a) > 0
        &&& (n.levels[a][b].slot < n.arena_len)
    } by {
        assert(m.at(a, b));
        assert(m.levels[a][b].slot < m.arena_len);
    }
    assert(n.distinct()) by {
        reveal(Ladder::distinct);
        assert forall|l1: int, k1: int, l2: int, k2: int|
            n.at(l1, k1) && n.at(l2, k2) && (l1 != l2 || k1 != k2) implies {
            &&& (#[trigger] n.levels[l1][k1]).id != (#[trigger] n.levels[l2][k2]).id
            &&& n.levels[l1][k1].slot != n.levels[l2][k2].slot
        } by {
            assert(m.at(l1, k1) && m.at(l2, k2));
            assert(m.levels[l1][k1].id != m.levels[l2][k2].id);
        }
    }
    assert(n.free_apart()) by {
        reveal(Ladder::free_apart);
        assert forall|j: int, a: int, b: int| 0 <= j < n.free.len() && n.at(a, b) implies
            #[trigger] n.free[j] != (#[trigger] n.levels[a][b]).slot by {
            assert(m.at(a, b));
            assert(m.free[j] != m.levels[a][b].slot);
        }
    }
    assert forall|j: int| #[trigger] m.populated(j) <==> n.populated(j) by {
        if 0 <= j < m.levels.len() && j != l {
            assert(n.levels[j] == m.levels[j]);
        }
    }
    lemma_best_same(m, n);
    assert forall|id: u64| #[trigger] n.holds(id) <==> m.holds(id) by {
        if m.holds(id) {
            let (a, b) = m.locate(id);
            assert(n.at(a, b) && n.levels[a][b].id == id);
        }
        if n.holds(id) {
            let (a, b) = n.locate(id);
            assert(m.at(a, b) && m.levels[a][b].id == id);
        }
    }
    assert forall|id: u64| m.holds(id) implies #[trigger] n.locate(id) == m.locate(id) by {
        let (a, b) = m.locate(id);
        assert(n.at(a, b) && n.levels[a][b].id == id);
        lemma_locate(n, a, b);
    }
    assert(n.id_map() =~= m.id_map()) by {
        assert forall|id: u64| m.holds(id) implies n.order(id).slot == m.order(id).slot by {
            assert(n.locate(id) == m.locate(id));
        }
    }
}

} // verus!
