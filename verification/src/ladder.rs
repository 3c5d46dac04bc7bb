//! The mathematical model of one side of the book.
//!
//! A [`Ladder`] is what a half-book *is*, independent of how it is stored: a
//! fixed grid of price levels, each holding a first-in-first-out queue of
//! resting orders, together with the pool of storage slots that the orders
//! occupy. Every operation of the half-book is specified as a function from
//! one `Ladder` to the next.

use vstd::prelude::*;
use crate::{Order, PriceLevel, Side};

verus! {

/// A resting order as the model sees it.
pub struct Resting {
    /// Caller-visible identifier.
    pub id: u64,
    /// Remaining size.
    pub size: int,
    /// Storage slot that holds the order.
    pub slot: usize,
}

/// Sum of a sequence of integers.
pub open spec fn seq_sum(s: Seq<int>) -> int
    decreases s.len(),
{
    if s.len() == 0 {
        0
    } else {
        seq_sum(s.drop_last()) + s.last()
    }
}

/// Sum of the remaining sizes of a queue.
pub open spec fn queue_total(q: Seq<Resting>) -> int
    decreases q.len(),
{
    if q.len() == 0 {
        0
    } else {
        queue_total(q.drop_last()) + q.last().size
    }
}

/// Number of levels of a grid from `min_price` to `max_price` in steps of `tick_size`.
pub open spec fn ladder_len(min_price: int, max_price: int, tick_size: int) -> int {
    (max_price - min_price) / tick_size + 1
}

/// The model of one side of the book.
pub struct Ladder {
    pub side: Side,
    pub min_price: int,
    pub max_price: int,
    pub tick_size: int,
    /// One queue per price level, oldest order first.
    pub levels: Seq<Seq<Resting>>,
    /// Reclaimed slots; the last one is reused first.
    pub free: Seq<usize>,
    /// Number of slots that exist.
    pub arena_len: nat,
}

impl Ladder {
    // ------------------------------------------------------------------
    // The price grid
    // ------------------------------------------------------------------

    /// Level that holds `price`.
    pub open spec fn index_of(self, price: int) -> int {
        (price - self.min_price) / self.tick_size
    }

    /// Price of level `i`.
    pub open spec fn price_at(self, i: int) -> int {
        self.min_price + i * self.tick_size
    }

    /// A price that an order may rest at: positive, inside the range and on the grid.
    pub open spec fn valid_price(self, price: int) -> bool {
        &&& price > 0
        &&& self.min_price <= price <= self.max_price
        &&& (price - self.min_price) % self.tick_size == 0
    }

    /// An order that may rest.
    pub open spec fn accepts(self, price: int, size: int) -> bool {
        size > 0 && self.valid_price(price)
    }

    // ------------------------------------------------------------------
    // What rests where
    // ------------------------------------------------------------------

    /// `(l, k)` names an order: the `k`-th of level `l`.
    pub open spec fn at(self, l: int, k: int) -> bool {
        0 <= l < self.levels.len() && 0 <= k < self.levels[l].len()
    }

    /// Some order rests under `id`.
    pub open spec fn holds(self, id: u64) -> bool {
        exists|l: int, k: int| self.at(l, k) && #[trigger] self.levels[l][k].id == id
    }

    /// Where the order `id` rests.
    pub open spec fn locate(self, id: u64) -> (int, int) {
        choose|l: int, k: int| self.at(l, k) && #[trigger] self.levels[l][k].id == id
    }

    /// The order resting under `id`.
    pub open spec fn order(self, id: u64) -> Resting {
        self.levels[self.locate(id).0][self.locate(id).1]
    }

    /// The identifier index: each resting identifier with its slot.
    pub open spec fn id_map(self) -> Map<u64, usize> {
        Map::new(|id: u64| self.holds(id), |id: u64| self.order(id).slot)
    }

    /// Level `l` holds at least one order.
    pub open spec fn populated(self, l: int) -> bool {
        0 <= l < self.levels.len() && self.levels[l].len() > 0
    }

    /// Total remaining size at level `l`.
    pub open spec fn level_total(self, l: int) -> int {
        queue_total(self.levels[l])
    }

    pub open spec fn level_totals(self) -> Seq<int> {
        Seq::new(self.levels.len(), |l: int| queue_total(self.levels[l]))
    }

    pub open spec fn level_counts(self) -> Seq<int> {
        Seq::new(self.levels.len(), |l: int| self.levels[l].len() as int)
    }

    pub open spec fn level_values(self) -> Seq<int> {
        Seq::new(self.levels.len(), |l: int| queue_total(self.levels[l]) * self.price_at(l))
    }

    /// Sum of the remaining sizes of all resting orders.
    pub open spec fn total_liquidity(self) -> int {
        seq_sum(self.level_totals())
    }

    /// Number of resting orders.
    pub open spec fn order_count(self) -> int {
        seq_sum(self.level_counts())
    }

    /// Cash value of everything resting: the sum of size times price.
    pub open spec fn value(self) -> int {
        seq_sum(self.level_values())
    }

    /// The record that the ladder slot of level `l` holds: the slots of the
    /// first and of the last order of the queue, and the queue's total.
    pub open spec fn level_record(self, l: int) -> PriceLevel {
        let q = self.levels[l];
        PriceLevel {
            head: if q.len() == 0 {
                None
            } else {
                Some(q[0].slot)
            },
            tail: if q.len() == 0 {
                None
            } else {
                Some(q.last().slot)
            },
            total_size: queue_total(q) as i64,
        }
    }

    /// The record that the arena holds for the `k`-th order of level `l`:
    /// the order, linked to its neighbours in the queue.
    pub open spec fn order_record(self, l: int, k: int) -> Order {
        let q = self.levels[l];
        Order {
            id: q[k].id,
            price_index: l as usize,
            size: q[k].size as i64,
            prev: if k == 0 {
                None
            } else {
                Some(q[k - 1].slot)
            },
            next: if k == q.len() - 1 {
                None
            } else {
                Some(q[k + 1].slot)
            },
        }
    }

    // ------------------------------------------------------------------
    // Price priority
    // ------------------------------------------------------------------

    /// The level a taker looks at first: the highest on the buy side, the lowest on the sell side.
    pub open spec fn start(self) -> int {
        match self.side {
            Side::Buy => self.levels.len() - 1,
            Side::Sell => 0,
        }
    }

    /// The next level after `l` in the direction of worse prices.
    pub open spec fn worse(self, l: int) -> int {
        match self.side {
            Side::Buy => l - 1,
            Side::Sell => l + 1,
        }
    }

    /// Number of levels from `l` to the worst one, `l` included.
    pub open spec fn rank(self, l: int) -> int {
        match self.side {
            Side::Buy => l + 1,
            Side::Sell => self.levels.len() - l,
        }
    }

    /// Level `a` has a strictly better price than level `b`.
    pub open spec fn better(self, a: int, b: int) -> bool {
        match self.side {
            Side::Buy => a > b,
            Side::Sell => a < b,
        }
    }

    /// The first populated level at `l` or worse.
    pub open spec fn first_populated(self, l: int) -> Option<int>
        decreases self.rank(l),
    {
        if l < 0 || l >= self.levels.len() {
            None
        } else if self.levels[l].len() > 0 {
            Some(l)
        } else {
            self.first_populated(self.worse(l))
        }
    }

    /// The best populated level, if any order rests.
    pub open spec fn best(self) -> Option<int> {
        self.first_populated(self.start())
    }

    /// Price and total size of the best populated level.
    pub open spec fn top(self) -> Option<(int, int)> {
        match self.best() {
            Some(l) => Some((self.price_at(l), self.level_total(l))),
            None => None,
        }
    }

    // ------------------------------------------------------------------
    // Transitions
    // ------------------------------------------------------------------

    /// The slot that the next resting order takes: the most recently freed
    /// one, or a fresh one when none is free.
    pub open spec fn next_slot(self) -> usize {
        if self.free.len() > 0 {
            self.free.last()
        } else {
            self.arena_len as usize
        }
    }

    /// A new order joins the back of the queue at `price`.
    pub open spec fn insert(self, id: u64, price: int, size: int) -> Ladder {
        let l = self.index_of(price);
        let r = Resting { id, size, slot: self.next_slot() };
        Ladder {
            levels: self.levels.update(l, self.levels[l].push(r)),
            free: if self.free.len() > 0 {
                self.free.drop_last()
            } else {
                self.free
            },
            arena_len: if self.free.len() > 0 {
                self.arena_len
            } else {
                self.arena_len + 1
            },
            ..self
        }
    }

    /// The `k`-th order of level `l` leaves; its slot becomes the next to be reused.
    pub open spec fn remove_at(self, l: int, k: int) -> Ladder {
        Ladder {
            levels: self.levels.update(l, self.levels[l].remove(k)),
            free: self.free.push(self.levels[l][k].slot),
            ..self
        }
    }

    /// The `k`-th order of level `l` keeps its place and gets the size `size`.
    pub open spec fn resize_at(self, l: int, k: int, size: int) -> Ladder {
        let r = Resting { size, ..self.levels[l][k] };
        Ladder { levels: self.levels.update(l, self.levels[l].update(k, r)), ..self }
    }

    /// The order `id` leaves.
    pub open spec fn remove(self, id: u64) -> Ladder {
        self.remove_at(self.locate(id).0, self.locate(id).1)
    }

    /// The order `id` gets a new size, and a new price if `price` lies at
    /// another level. At the same level it keeps its place in the queue; at
    /// another it leaves and joins the back of the queue there.
    pub open spec fn modify(self, id: u64, price: int, size: int) -> Ladder {
        let (l, k) = self.locate(id);
        if self.index_of(price) == l {
            self.resize_at(l, k, size)
        } else {
            self.remove_at(l, k).insert(id, price, size)
        }
    }

    /// A taker of `size` walks the ladder from level `l` towards worse
    /// prices, consuming each queue from its head. The result is the ladder
    /// that is left and the cash traded.
    pub open spec fn sweep(self, l: int, size: int) -> (Ladder, int)
        decreases self.rank(l), self.levels[l].len(),
    {
        if size <= 0 || l < 0 || l >= self.levels.len() {
            (self, 0)
        } else if self.levels[l].len() == 0 {
            self.sweep(self.worse(l), size)
        } else {
            let head = self.levels[l][0];
            if head.size <= size {
                let (rest, cash) = self.remove_at(l, 0).sweep(l, size - head.size);
                (rest, cash + head.size * self.price_at(l))
            } else {
                (self.resize_at(l, 0, head.size - size), size * self.price_at(l))
            }
        }
    }

    /// A taker of `size` trades against the ladder, best price first.
    pub open spec fn match_size(self, size: int) -> (Ladder, int) {
        self.sweep(self.start(), size)
    }

    // ------------------------------------------------------------------
    // Validity
    // ------------------------------------------------------------------

    /// No two resting orders share an identifier or a slot.
    #[verifier::opaque]
    pub open spec fn distinct(self) -> bool {
        forall|l1: int, k1: int, l2: int, k2: int|
            self.at(l1, k1) && self.at(l2, k2) && (l1 != l2 || k1 != k2) ==> {
                &&& (#[trigger] self.levels[l1][k1]).id != (#[trigger] self.levels[l2][k2]).id
                &&& self.levels[l1][k1].slot != self.levels[l2][k2].slot
            }
    }

    /// No slot is free twice, and no free slot holds a resting order.
    #[verifier::opaque]
    pub open spec fn free_apart(self) -> bool {
        &&& forall|i: int, j: int|
            0 <= i < j < self.free.len() ==> #[trigger] self.free[i] != #[trigger] self.free[j]
        &&& forall|j: int, l: int, k: int|
            0 <= j < self.free.len() && self.at(l, k) ==> #[trigger] self.free[j]
                != (#[trigger] self.levels[l][k]).slot
    }

    /// What holds of every ladder that the operations produce.
    pub open spec fn wf(self) -> bool {
        &&& self.tick_size >= 1
        &&& self.min_price <= self.max_price
        &&& self.levels.len() == ladder_len(self.min_price, self.max_price, self.tick_size)
        &&& self.levels.len() <= usize::MAX
        &&& forall|l: int, k: int|
            #![trigger self.at(l, k)]
            #![trigger self.levels[l][k]]
            self.at(l, k) ==> {
                &&& self.levels[l][k].size > 0
                &&& self.price_at(l) > 0
                &&& (self.levels[l][k].slot < self.arena_len)
            }
        &&& forall|j: int| 0 <= j < self.free.len() ==> (#[trigger] self.free[j] < self.arena_len)
        &&& self.distinct()
        &&& self.free_apart()
        &&& self.arena_len == self.order_count() + self.free.len()
        &&& self.arena_len <= usize::MAX
        &&& self.value() <= i64::MAX
    }
}

} // verus!
