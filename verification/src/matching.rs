//! How a taker trades against a ladder, one resting order at a time.

use vstd::prelude::*;
use crate::grid::lemma_aggregate_bounds;
use crate::ladder::Ladder;
use crate::moves::{
    lemma_held,
    lemma_locate,
    lemma_remove_best,
    lemma_remove_places,
    lemma_remove_wf,
    lemma_resize,
    lemma_wf_positive,
};
use crate::priority::{
    lemma_best_found,
    lemma_best_is_best,
    lemma_best_none,
    lemma_first_populated,
    lemma_match_from_best,
    lemma_sweep_skip,
};

verus! {

/// A taker who finds only empty levels before `c` trades as a walk from `c` does.
pub proof fn lemma_match_from(m: Ladder, c: int, size: int)
    requires
        0 <= c < m.levels.len(),
        forall|j: int| m.better(j, c) ==> !#[trigger] m.populated(j),
    ensures
        m.match_size(size) == m.sweep(c, size),
        m.best() == m.first_populated(c),
{
    lemma_first_populated(m, c);
    match m.first_populated(c) {
        Some(i) => {
            assert forall|j: int| m.better(j, i) implies !#[trigger] m.populated(j) by {
                if !m.better(j, c) {
                    assert(!m.populated(j));
                }
            }
            lemma_best_found(m, i);
        },
        None => {
            assert forall|j: int| !#[trigger] m.populated(j) by {
                if !m.better(j, c) {
                    assert(!m.populated(j));
                }
            }
            lemma_best_none(m);
        },
    }
    lemma_sweep_skip(m, c, size);
    lemma_match_from_best(m, size);
}

/// No taker, or one who finds no resting order, trades nothing and changes nothing.
pub proof fn lemma_match_nothing(m: Ladder, size: int)
    requires
        size <= 0 || m.best() is None,
    ensures
        m.match_size(size) == (m, 0int),
{
    lemma_match_from_best(m, size);
}

/// A taker who takes all of the oldest order at the best level goes on
/// against the ladder without that order, with what is left of its size.
pub proof fn lemma_match_step_full(m: Ladder, tob: int, size: int)
    requires
        m.wf(),
        m.best() == Some(tob),
        m.levels[tob][0].size <= size,
    ensures
        ({
            let head = m.levels[tob][0];
            let n = m.remove_at(tob, 0);
            let (rest, cash) = n.match_size(size - head.size);
            &&& m.at(tob, 0)
            &&& n.wf()
            &&& m.match_size(size) == (rest, cash + head.size * m.price_at(tob))
            &&& n.value() == m.value() - head.size * m.price_at(tob)
            &&& n.total_liquidity() == m.total_liquidity() - head.size
            &&& n.best() == if m.levels[tob].len() == 1 {
                n.first_populated(m.worse(tob))
            } else {
                Some(tob)
            }
        }),
{
    let head = m.levels[tob][0];
    let n = m.remove_at(tob, 0);
    lemma_best_is_best(m);
    assert(m.at(tob, 0));
    lemma_remove_wf(m, tob, 0);
    lemma_remove_places(m, tob, 0);
    lemma_remove_best(m, tob, 0);
    lemma_match_from_best(m, size);
    assert forall|j: int| n.better(j, tob) implies !#[trigger] n.populated(j) by {
        assert(!m.populated(j));
        if 0 <= j < m.levels.len() {
            assert(n.levels[j] == m.levels[j]);
        }
    }
    lemma_match_from(n, tob, size - head.size);
}

/// A taker who takes a part of the oldest order at the best level leaves
/// that order in its place with the rest of its size, and is done.
pub proof fn lemma_match_step_partial(m: Ladder, tob: int, size: int)
    requires
        m.wf(),
        m.best() == Some(tob),
        0 < size < m.levels[tob][0].size,
    ensures
        ({
            let head = m.levels[tob][0];
            let n = m.resize_at(tob, 0, head.size - size);
            &&& m.at(tob, 0)
            &&& n.wf()
            &&& m.match_size(size) == (n, size * m.price_at(tob))
            &&& n.value() == m.value() - size * m.price_at(tob)
            &&& n.total_liquidity() == m.total_liquidity() - size
            &&& n.best() == m.best()
            &&& n.id_map() == m.id_map()
        }),
{
    let head = m.levels[tob][0];
    lemma_best_is_best(m);
    assert(m.at(tob, 0));
    let p = m.price_at(tob);
    assert((0 - size) * p == -(size * p)) by (nonlinear_arith);
    assert(size * p >= 0) by (nonlinear_arith)
        requires
            size > 0,
            p > 0,
    ;
    assert(head.size - size - head.size == 0 - size);
    lemma_resize(m, tob, 0, head.size - size);
    lemma_match_from_best(m, size);
}

/// The cash of a trade of `traded` at the best level fits in the value of
/// the ladder when `traded` is at most the size of the oldest order there.
pub proof fn lemma_trade_fits(m: Ladder, tob: int, traded: int)
    requires
        m.wf(),
        m.best() == Some(tob),
        0 <= traded <= m.levels[tob][0].size,
    ensures
        0 <= traded * m.price_at(tob) <= m.levels[tob][0].size * m.price_at(tob) <= m.value(),
{
    lemma_best_is_best(m);
    assert(m.at(tob, 0));
    lemma_wf_positive(m);
    lemma_aggregate_bounds(m);
    let p = m.price_at(tob);
    let h = m.levels[tob][0].size;
    let t = m.level_total(tob);
    assert(h <= t);
    assert(0 <= traded * p <= h * p <= t * p) by (nonlinear_arith)
        requires
            0 <= traded <= h <= t,
            p > 0,
    ;
}

/// `rest` is what is left of `m` after takers have traded against it: at
/// each level the front of the queue is gone, the order now at the head may
/// have lost a part of its size, and the orders behind it are untouched.
pub open spec fn remains(m: Ladder, rest: Ladder) -> bool {
    &&& rest.side == m.side
    &&& rest.min_price == m.min_price
    &&& rest.max_price == m.max_price
    &&& rest.tick_size == m.tick_size
    &&& rest.levels.len() == m.levels.len()
    &&& forall|l: int| 0 <= l < m.levels.len() ==> (#[trigger] rest.levels[l]).len() <= m.levels[l].len()
    &&& forall|l: int, i: int|
        #![trigger rest.levels[l][i]]
        rest.at(l, i) ==> {
            let was = m.levels[l][i + m.levels[l].len() - rest.levels[l].len()];
            let now = rest.levels[l][i];
            &&& now.id == was.id
            &&& now.slot == was.slot
            &&& 0 < now.size <= was.size
            &&& i > 0 ==> now.size == was.size
        }
}

/// What is left of what is left of a ladder is left of that ladder.
pub proof fn lemma_remains_trans(m: Ladder, n: Ladder, rest: Ladder)
    requires
        remains(m, n),
        remains(n, rest),
    ensures
        remains(m, rest),
{
    assert forall|l: int| 0 <= l < m.levels.len() implies (#[trigger] rest.levels[l]).len()
        <= m.levels[l].len() by {
        assert(n.levels[l].len() <= m.levels[l].len());
    }
    assert forall|l: int, i: int| #![trigger rest.levels[l][i]] rest.at(l, i) implies {
        let was = m.levels[l][i + m.levels[l].len() - rest.levels[l].len()];
        let now = rest.levels[l][i];
        &&& now.id == was.id
        &&& now.slot == was.slot
        &&& 0 < now.size <= was.size
        &&& i > 0 ==> now.size == was.size
    } by {
        assert(rest.levels[l].len() <= n.levels[l].len());
        assert(n.levels[l].len() <= m.levels[l].len());
        let j = i + n.levels[l].len() - rest.levels[l].len();
        assert(n.at(l, j));
        let mid = n.levels[l][j];
        assert(mid.id == m.levels[l][j + m.levels[l].len() - n.levels[l].len()].id);
    }
}

/// A valid ladder is left of itself.
pub proof fn lemma_remains_self(m: Ladder)
    requires
        m.wf(),
    ensures
        remains(m, m),
{
}

/// The ladder without the head of a level is left of the ladder.
pub proof fn lemma_remains_pop(m: Ladder, l: int)
    requires
        m.wf(),
        m.at(l, 0),
    ensures
        remains(m, m.remove_at(l, 0)),
{
    let n = m.remove_at(l, 0);
    lemma_remove_places(m, l, 0);
    assert forall|a: int| 0 <= a < m.levels.len() implies (#[trigger] n.levels[a]).len()
        <= m.levels[a].len() by {
        if a != l {
            assert(n.levels[a] == m.levels[a]);
        }
    }
    assert forall|a: int, i: int| #![trigger n.levels[a][i]] n.at(a, i) implies {
        let was = m.levels[a][i + m.levels[a].len() - n.levels[a].len()];
        let now = n.levels[a][i];
        &&& now.id == was.id
        &&& now.slot == was.slot
        &&& 0 < now.size <= was.size
        &&& i > 0 ==> now.size == was.size
    } by {
        if a != l {
            assert(n.levels[a] == m.levels[a]);
            assert(m.at(a, i));
        } else {
            assert(m.at(a, i + 1));
        }
    }
}

/// The ladder with the head of a level cut to a smaller size is left of the ladder.
pub proof fn lemma_remains_cut(m: Ladder, l: int, size: int)
    requires
        m.wf(),
        m.at(l, 0),
        0 < size <= m.levels[l][0].size,
    ensures
        remains(m, m.resize_at(l, 0, size)),
{
    let n = m.resize_at(l, 0, size);
    assert forall|a: int| 0 <= a < m.levels.len() implies (#[trigger] n.levels[a]).len()
        == m.levels[a].len() by {
        if a != l {
            assert(n.levels[a] == m.levels[a]);
        }
    }
    assert forall|a: int, i: int| #![trigger n.levels[a][i]] n.at(a, i) implies {
        let was = m.levels[a][i + m.levels[a].len() - n.levels[a].len()];
        let now = n.levels[a][i];
        &&& now.id == was.id
        &&& now.slot == was.slot
        &&& 0 < now.size <= was.size
        &&& i > 0 ==> now.size == was.size
    } by {
        assert(n.levels[a].len() == m.levels[a].len());
        assert(m.at(a, i));
        if a != l {
            assert(n.levels[a] == m.levels[a]);
        }
    }
}

/// What a walk of a taker leaves: a valid ladder that is left of the one it
/// started on. The cash traded is the value that the ladder lost. The size
/// traded is the liquidity that it lost: all of the taker's size, unless
/// every level from `c` on has been emptied.
pub proof fn lemma_sweep(m: Ladder, c: int, size: int)
    requires
        m.wf(),
        m.rank(c) <= m.levels.len(),
    ensures
        ({
            let (rest, cash) = m.sweep(c, size);
            let filled = m.total_liquidity() - rest.total_liquidity();
            &&& rest.wf()
            &&& remains(m, rest)
            &&& cash == m.value() - rest.value()
            &&& cash >= 0
            &&& 0 <= filled
            &&& size >= 0 ==> filled <= size
            &&& rest.arena_len == m.arena_len
            &&& size <= 0 || filled == size || (forall|j: int|
                !m.better(j, c) ==> !#[trigger] rest.populated(j))
        }),
    decreases m.rank(c), m.levels[c].len(),
{
    let (rest, cash) = m.sweep(c, size);
    if size <= 0 || c < 0 || c >= m.levels.len() {
        lemma_remains_self(m);
    } else if m.levels[c].len() == 0 {
        lemma_sweep(m, m.worse(c), size);
        let filled = m.total_liquidity() - rest.total_liquidity();
        if filled != size {
            assert forall|j: int| !m.better(j, c) implies !#[trigger] rest.populated(j) by {
                if j == c {
                    assert(rest.levels[c].len() <= m.levels[c].len());
                } else {
                    assert(!m.better(j, m.worse(c)));
                }
            }
        }
    } else {
        let head = m.levels[c][0];
        assert(m.at(c, 0));
        let p = m.price_at(c);
        if head.size <= size {
            let n = m.remove_at(c, 0);
            lemma_remove_wf(m, c, 0);
            lemma_remains_pop(m, c);
            lemma_sweep(n, c, size - head.size);
            lemma_remains_trans(m, n, rest);
            assert(head.size * p >= 0) by (nonlinear_arith)
                requires
                    head.size > 0,
                    p > 0,
            ;
        } else {
            let n = m.resize_at(c, 0, head.size - size);
            assert((head.size - size - head.size) * p == -(size * p)) by (nonlinear_arith);
            assert(size * p >= 0) by (nonlinear_arith)
                requires
                    size > 0,
                    p > 0,
            ;
            lemma_resize(m, c, 0, head.size - size);
            lemma_remains_cut(m, c, head.size - size);
        }
    }
}

/// An order that rests on what is left of a ladder rested on the ladder,
/// under the same identifier and in the same slot.
pub proof fn lemma_remains_holds(m: Ladder, rest: Ladder, id: u64)
    requires
        m.wf(),
        remains(m, rest),
        rest.holds(id),
    ensures
        m.holds(id),
        m.locate(id).0 == rest.locate(id).0,
        m.locate(id).1 == rest.locate(id).1 + m.levels[rest.locate(id).0].len()
            - rest.levels[rest.locate(id).0].len(),
        m.order(id).slot == rest.order(id).slot,
        rest.order(id).size <= m.order(id).size,
{
    let (l, i) = rest.locate(id);
    lemma_held(rest, id);
    let j = i + m.levels[l].len() - rest.levels[l].len();
    assert(rest.levels[l].len() <= m.levels[l].len());
    assert(rest.levels[l][i].id == m.levels[l][j].id);
    assert(m.at(l, j));
    lemma_locate(m, l, j);
}

/// A level that is populated on what is left of a ladder was populated on the ladder.
pub proof fn lemma_remains_populated(m: Ladder, rest: Ladder)
    requires
        remains(m, rest),
    ensures
        forall|l: int| #[trigger] rest.populated(l) ==> m.populated(l),
{
    assert forall|l: int| #[trigger] rest.populated(l) implies m.populated(l) by {
        assert(rest.levels[l].len() <= m.levels[l].len());
    }
}

/// The best level of what is left of a ladder is no better than the best
/// level of the ladder.
pub proof fn lemma_remains_best(m: Ladder, rest: Ladder)
    requires
        remains(m, rest),
    ensures
        rest.best() is Some ==> m.best() is Some && !m.better(
            rest.best().unwrap(),
            m.best().unwrap(),
        ),
{
    lemma_remains_populated(m, rest);
    lemma_best_is_best(m);
    lemma_best_is_best(rest);
    if rest.best() is Some {
        let r = rest.best().unwrap();
        assert(rest.populated(r));
        assert(m.populated(r));
    }
}

} // verus!
