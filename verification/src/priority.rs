//! Price priority: which level is the best one, and where a taker starts.

use vstd::prelude::*;
use crate::ladder::Ladder;

verus! {

/// What `first_populated` finds: the nearest populated level at `c` or
/// worse, with only empty levels between `c` and it.
pub proof fn lemma_first_populated(m: Ladder, c: int)
    requires
        m.rank(c) <= m.levels.len(),
    ensures
        match m.first_populated(c) {
            Some(i) => {
                &&& m.populated(i)
                &&& !m.better(i, c)
                &&& forall|j: int| !m.better(j, c) && m.better(j, i) ==> !#[trigger] m.populated(j)
            },
            None => forall|j: int| !m.better(j, c) ==> !#[trigger] m.populated(j),
        },
    decreases m.rank(c),
{
    if c < 0 || c >= m.levels.len() {
    } else if m.levels[c].len() > 0 {
    } else {
        lemma_first_populated(m, m.worse(c));
    }
}

/// A populated level at `c` or worse with only empty levels between `c` and
/// it is what `first_populated` finds.
pub proof fn lemma_first_populated_is(m: Ladder, c: int, i: int)
    requires
        m.rank(c) <= m.levels.len(),
        m.populated(i),
        !m.better(i, c),
        forall|j: int| !m.better(j, c) && m.better(j, i) ==> !#[trigger] m.populated(j),
    ensures
        m.first_populated(c) == Some(i),
{
    lemma_first_populated(m, c);
}

/// Where every level at `c` or worse is empty, `first_populated` finds none.
pub proof fn lemma_first_populated_none(m: Ladder, c: int)
    requires
        m.rank(c) <= m.levels.len(),
        forall|j: int| !m.better(j, c) ==> !#[trigger] m.populated(j),
    ensures
        m.first_populated(c) is None,
{
    lemma_first_populated(m, c);
}

/// The best level is populated and no populated level has a better price;
/// where there is none, every level is empty.
pub proof fn lemma_best_is_best(m: Ladder)
    ensures
        match m.best() {
            Some(i) => m.populated(i) && forall|j: int|
                m.better(j, i) ==> !#[trigger] m.populated(j),
            None => forall|j: int| !#[trigger] m.populated(j),
        },
{
    lemma_first_populated(m, m.start());
}

/// A populated level that no populated level improves on is the best one.
pub proof fn lemma_best_found(m: Ladder, i: int)
    requires
        m.populated(i),
        forall|j: int| m.better(j, i) ==> !#[trigger] m.populated(j),
    ensures
        m.best() == Some(i),
{
    lemma_first_populated_is(m, m.start(), i);
}

/// A ladder whose levels are all empty has no best level.
pub proof fn lemma_best_none(m: Ladder)
    requires
        forall|j: int| !#[trigger] m.populated(j),
    ensures
        m.best() is None,
{
    lemma_first_populated_none(m, m.start());
}

/// Two ladders with the same populated levels have the same best level.
pub proof fn lemma_best_same(m: Ladder, n: Ladder)
    requires
        m.side == n.side,
        m.levels.len() == n.levels.len(),
        forall|l: int| #[trigger] m.populated(l) <==> n.populated(l),
    ensures
        m.best() == n.best(),
{
    lemma_best_is_best(m);
    match m.best() {
        Some(i) => {
            assert(m.populated(i));
            assert forall|j: int| n.better(j, i) implies !#[trigger] n.populated(j) by {
                assert(m.better(j, i));
                assert(!m.populated(j));
            }
            lemma_best_found(n, i);
        },
        None => {
            assert forall|j: int| !#[trigger] n.populated(j) by {
                assert(!m.populated(j));
            }
            lemma_best_none(n);
        },
    }
}

/// A walk that starts at `c` trades as the walk that starts at the first
/// populated level at `c` or worse.
pub proof fn lemma_sweep_skip(m: Ladder, c: int, size: int)
    requires
        m.rank(c) <= m.levels.len(),
    ensures
        m.sweep(c, size) == match m.first_populated(c) {
            Some(i) => m.sweep(i, size),
            None => (m, 0int),
        },
    decreases m.rank(c),
{
    if c < 0 || c >= m.levels.len() {
    } else if m.levels[c].len() > 0 {
    } else {
        lemma_sweep_skip(m, m.worse(c), size);
        if size <= 0 {
            match m.first_populated(c) {
                Some(i) => {
                    lemma_first_populated(m, c);
                },
                None => {},
            }
        }
    }
}

/// A taker trades as a walk from the best level does; against an empty
/// ladder it trades nothing.
pub proof fn lemma_match_from_best(m: Ladder, size: int)
    ensures
        m.match_size(size) == match m.best() {
            Some(i) => m.sweep(i, size),
            None => (m, 0int),
        },
{
    lemma_sweep_skip(m, m.start(), size);
}

} // verus!
