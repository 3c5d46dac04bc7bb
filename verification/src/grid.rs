//! Lemmas on the price grid and on the aggregates of a ladder.

use vstd::prelude::*;
use vstd::arithmetic::div_mod::{
    lemma_div_is_ordered,
    lemma_div_pos_is_pos,
    lemma_fundamental_div_mod,
    lemma_fundamental_div_mod_converse,
};
use crate::ladder::{Ladder, ladder_len, queue_total, seq_sum};
use crate::sums::{
    lemma_queue_total_positive,
    lemma_seq_sum_bounds,
    lemma_seq_sum_le,
    lemma_seq_sum_update,
    lemma_seq_sum_zero,
};

verus! {

/// A valid price lies on a level of the ladder, and that level has its price.
pub proof fn lemma_valid_price_index(m: Ladder, price: int)
    requires
        m.tick_size >= 1,
        m.levels.len() == ladder_len(m.min_price, m.max_price, m.tick_size),
        m.min_price <= price <= m.max_price,
    ensures
        0 <= m.index_of(price) < m.levels.len(),
        m.price_at(m.index_of(price)) <= price,
        (price - m.min_price) % m.tick_size == 0 <==> m.price_at(m.index_of(price)) == price,
{
    let d = price - m.min_price;
    let t = m.tick_size;
    lemma_div_pos_is_pos(d, t);
    lemma_div_is_ordered(d, m.max_price - m.min_price, t);
    lemma_fundamental_div_mod(d, t);
    assert(t * (d / t) == (d / t) * t) by (nonlinear_arith);
    assert(0 <= d % t < t) by (nonlinear_arith)
        requires
            t >= 1,
    ;
}

/// Each level of the ladder has a price inside the range, and is the level of that price.
pub proof fn lemma_level_price(m: Ladder, l: int)
    requires
        m.tick_size >= 1,
        m.min_price <= m.max_price,
        m.levels.len() == ladder_len(m.min_price, m.max_price, m.tick_size),
        0 <= l < m.levels.len(),
    ensures
        m.min_price <= m.price_at(l) <= m.max_price,
        (m.price_at(l) - m.min_price) % m.tick_size == 0,
        m.index_of(m.price_at(l)) == l,
{
    let t = m.tick_size;
    let d = m.max_price - m.min_price;
    lemma_fundamental_div_mod(d, t);
    assert(0 <= d % t < t) by (nonlinear_arith)
        requires
            t >= 1,
    ;
    assert(l * t <= (d / t) * t) by (nonlinear_arith)
        requires
            l <= d / t,
            t >= 1,
    ;
    assert(t * (d / t) == (d / t) * t) by (nonlinear_arith);
    assert(l * t >= 0) by (nonlinear_arith)
        requires
            l >= 0,
            t >= 1,
    ;
    lemma_fundamental_div_mod_converse(l * t, t, l, 0);
}

/// Prices grow with the level.
pub proof fn lemma_price_monotonic(m: Ladder, a: int, b: int)
    requires
        m.tick_size >= 1,
    ensures
        a < b <==> m.price_at(a) < m.price_at(b),
        a == b <==> m.price_at(a) == m.price_at(b),
{
    let t = m.tick_size;
    assert(a < b ==> a * t < b * t) by (nonlinear_arith)
        requires
            t >= 1,
    ;
    assert(b < a ==> b * t < a * t) by (nonlinear_arith)
        requires
            t >= 1,
    ;
}

/// How the aggregates change when the queue of one level is replaced.
pub proof fn lemma_replace_level(m: Ladder, n: Ladder, l: int)
    requires
        0 <= l < m.levels.len(),
        n.levels == m.levels.update(l, n.levels[l]),
        n.min_price == m.min_price,
        n.tick_size == m.tick_size,
    ensures
        n.total_liquidity() == m.total_liquidity() - m.level_total(l) + n.level_total(l),
        n.order_count() == m.order_count() - m.levels[l].len() + n.levels[l].len(),
        n.value() == m.value() - m.level_total(l) * m.price_at(l) + n.level_total(l) * m.price_at(l),
{
    assert(n.level_totals() =~= m.level_totals().update(l, n.level_total(l)));
    lemma_seq_sum_update(m.level_totals(), l, n.level_total(l));
    assert(n.level_counts() =~= m.level_counts().update(l, n.levels[l].len() as int));
    lemma_seq_sum_update(m.level_counts(), l, n.levels[l].len() as int);
    assert(n.level_values() =~= m.level_values().update(l, n.level_total(l) * m.price_at(l)));
    lemma_seq_sum_update(m.level_values(), l, n.level_total(l) * m.price_at(l));
}

/// The sizes on a ladder are positive where orders rest, and priced at one or more.
pub open spec fn positive(m: Ladder) -> bool {
    forall|l: int, k: int|
        #![trigger m.at(l, k)]
        #![trigger m.levels[l][k]]
        m.at(l, k) ==> m.levels[l][k].size > 0 && m.price_at(l) > 0
}

/// The aggregates of a ladder bound each other: no total is negative, each
/// level's total is at most the liquidity, and the liquidity is at most the
/// cash value.
pub proof fn lemma_aggregate_bounds(m: Ladder)
    requires
        positive(m),
    ensures
        0 <= m.order_count() <= m.total_liquidity() <= m.value(),
        forall|l: int|
            0 <= l < m.levels.len() ==> 0 <= m.levels[l].len() <= #[trigger] m.level_total(l)
                <= m.level_total(l) * m.price_at(l) <= m.value(),
        forall|l: int| 0 <= l < m.levels.len() ==> #[trigger] m.level_total(l) <= m.total_liquidity(),
        forall|l: int, k: int|
            m.at(l, k) ==> (#[trigger] m.levels[l][k]).size <= m.level_total(l),
{
    let totals = m.level_totals();
    let counts = m.level_counts();
    let values = m.level_values();
    assert forall|l: int| 0 <= l < m.levels.len() implies 0 <= #[trigger] counts[l] <= totals[l]
        <= values[l] by {
        let q = m.levels[l];
        assert forall|k: int| 0 <= k < q.len() implies (#[trigger] q[k]).size > 0 by {
            assert(m.at(l, k));
            assert(m.levels[l][k].size > 0);
        }
        lemma_queue_total_positive(q);
        if q.len() > 0 {
            assert(m.at(l, 0));
            assert(m.levels[l][0].size > 0);
            let p = m.price_at(l);
            let t = queue_total(q);
            assert(t <= t * p) by (nonlinear_arith)
                requires
                    t >= 0,
                    p >= 1,
            ;
        } else {
            assert(queue_total(q) == 0);
            assert(0 * m.price_at(l) == 0);
        }
    }
    assert forall|l: int| 0 <= l < totals.len() implies #[trigger] totals[l] >= 0 by {
        assert(0 <= counts[l] <= totals[l]);
    }
    assert forall|l: int| 0 <= l < values.len() implies #[trigger] values[l] >= 0 by {
        assert(0 <= counts[l] <= totals[l] <= values[l]);
    }
    lemma_seq_sum_bounds(counts);
    lemma_seq_sum_bounds(totals);
    lemma_seq_sum_bounds(values);
    lemma_seq_sum_le(counts, totals);
    lemma_seq_sum_le(totals, values);
    assert forall|l: int| 0 <= l < m.levels.len() implies 0 <= m.levels[l].len()
        <= #[trigger] m.level_total(l) <= m.level_total(l) * m.price_at(l) <= m.value() by {
        assert(counts[l] <= totals[l] <= values[l]);
    }
    assert forall|l: int| 0 <= l < m.levels.len() implies #[trigger] m.level_total(l)
        <= m.total_liquidity() by {
        assert(totals[l] <= seq_sum(totals));
    }
    assert forall|l: int, k: int| m.at(l, k) implies (#[trigger] m.levels[l][k]).size
        <= m.level_total(l) by {
        let q = m.levels[l];
        assert forall|j: int| 0 <= j < q.len() implies (#[trigger] q[j]).size > 0 by {
            assert(m.at(l, j));
            assert(m.levels[l][j].size > 0);
        }
        lemma_queue_total_positive(q);
    }
}

/// A ladder without orders has no liquidity and no value.
pub proof fn lemma_empty_aggregates(m: Ladder)
    requires
        forall|l: int| 0 <= l < m.levels.len() ==> (#[trigger] m.levels[l]).len() == 0,
    ensures
        m.order_count() == 0,
        m.total_liquidity() == 0,
        m.value() == 0,
{
    assert forall|l: int| 0 <= l < m.levels.len() implies #[trigger] m.level_values()[l] == 0 by {
        assert(m.levels[l].len() == 0);
        assert(queue_total(m.levels[l]) == 0);
        assert(0 * m.price_at(l) == 0);
    }
    assert forall|l: int| 0 <= l < m.levels.len() implies #[trigger] m.level_totals()[l] == 0 by {
        assert(m.levels[l].len() == 0);
    }
    assert forall|l: int| 0 <= l < m.levels.len() implies #[trigger] m.level_counts()[l] == 0 by {
        assert(m.levels[l].len() == 0);
    }
    lemma_seq_sum_zero(m.level_counts());
    lemma_seq_sum_zero(m.level_totals());
    lemma_seq_sum_zero(m.level_values());
}

} // verus!
