//! One side of the book: a direct-indexed ladder of price levels over an
//! arena of orders, with a free list, an identifier index and a cached best
//! level.

use vstd::prelude::*;
use std::collections::HashMap;
use crate::grid::{
    lemma_aggregate_bounds,
    lemma_empty_aggregates,
    lemma_level_price,
    lemma_valid_price_index,
};
use crate::matching::{
    lemma_match_nothing,
    lemma_match_step_full,
    lemma_match_step_partial,
    lemma_trade_fits,
};
use crate::moves::{
    lemma_fresh_slot,
    lemma_held,
    lemma_insert_best,
    lemma_insert_index,
    lemma_insert_places,
    lemma_insert_wf,
    lemma_locate,
    lemma_remove_best,
    lemma_remove_index,
    lemma_remove_wf,
    lemma_resize,
    lemma_wf_positive,
};
use crate::priority::lemma_best_is_best;
use crate::sums::{lemma_seq_sum_prefix, lemma_seq_sum_take};
use crate::ladder::{Ladder, ladder_len, queue_total, Resting, seq_sum};
use crate::storage::{
    lemma_insert_levels,
    lemma_insert_orders,
    lemma_remove_levels,
    lemma_remove_orders,
    lemma_resize_levels,
    lemma_resize_orders,
    levels_stored,
    orders_stored,
    unlink,
};
use crate::{Error, Order, PriceLevel, PriceSize, Side};

verus! {

/// One side of the book.
///
/// Orders live in `arena`, addressed by slot. Each price level of `orders`
/// names the head and the tail of a doubly linked queue through the arena.
/// `free_list` holds the slots that no order occupies, `ids` the slot of
/// each resting identifier, and `top_of_book` the best populated level.
pub struct HalfBook {
    min_price: i64,
    max_price: i64,
    tick_size: i64,
    side: Side,
    orders: Vec<PriceLevel>,
    top_of_book: Option<usize>,
    arena: Vec<Order>,
    free_list: Vec<usize>,
    ids: HashMap<u64, usize>,
    model: Ghost<Ladder>,
}

impl View for HalfBook {
    type V = Ladder;

    closed spec fn view(&self) -> Ladder {
        self.model@
    }
}

impl HalfBook {
    /// The storage holds what the model says: each ladder slot and each
    /// arena record of a resting order is the record that the model gives,
    /// and the free list and the identifier index are the model's.
    spec fn rep(&self) -> bool {
        &&& levels_stored(self.model@, self.orders@)
        &&& orders_stored(self.model@, self.arena@)
        &&& self.free_list@ == self.model@.free
        &&& self.ids@ == self.model@.id_map()
    }

    /// The storage holds a valid ladder; nothing is said of the cached best level.
    spec fn stored(&self) -> bool {
        &&& self.rep()
        &&& self@.wf()
        &&& self@.side == self.side
        &&& self@.min_price == self.min_price
        &&& self@.max_price == self.max_price
        &&& self@.tick_size == self.tick_size
    }

    /// The book is valid: its storage holds its model, the model is a valid
    /// ladder, and the cached best level is the model's best level.
    pub closed spec fn wf(&self) -> bool {
        &&& self.stored()
        &&& self.top_of_book == match self@.best() {
            Some(l) => Some(l as usize),
            None => None,
        }
    }

    /// A valid book has a valid ladder as its model.
    pub proof fn lemma_wf(&self)
        requires
            self.wf(),
        ensures
            self@.wf(),
    {
    }

    /// The two books store the same: the same price grid, ladder slots,
    /// arena and free list.
    pub closed spec fn same_storage(&self, other: &HalfBook) -> bool {
        &&& self.side == other.side
        &&& self.min_price == other.min_price
        &&& self.max_price == other.max_price
        &&& self.tick_size == other.tick_size
        &&& self.orders@ == other.orders@
        &&& self.arena@ == other.arena@
        &&& self.free_list@ == other.free_list@
    }

    /// The model of a valid book is determined by what the book stores:
    /// two valid books with the same ladder slots, arena, free list and
    /// price grid have the same model.
    pub proof fn lemma_model_determined(&self, other: &HalfBook)
        requires
            self.wf(),
            other.wf(),
            self.same_storage(other),
        ensures
            self@ == other@,
    {
        let a = self@;
        let b = other@;
        self.lemma_lens();
        other.lemma_lens();
        assert forall|l: int| 0 <= l < a.levels.len() implies a.levels[l] == b.levels[l] by {
            self.lemma_level(l);
            other.lemma_level(l);
            assert forall|k: int| 0 <= k implies (k < a.levels[l].len() <==> k < b.levels[l].len())
                && (k < a.levels[l].len() ==> a.levels[l][k] == b.levels[l][k]) by {
                self.lemma_queue_determined(other, l, k);
            }
            assert(a.levels[l].len() == b.levels[l].len()) by {
                let n = a.levels[l].len() as int;
                let o = b.levels[l].len() as int;
                if n < o {
                    assert(n < a.levels[l].len() <==> n < b.levels[l].len());
                }
                if o < n {
                    assert(o < a.levels[l].len() <==> o < b.levels[l].len());
                }
            }
            assert(a.levels[l] =~= b.levels[l]);
        }
        assert(a.levels =~= b.levels);
    }

    /// Two valid books with the same storage have the same `k`-th order in
    /// the queue of level `l`, or both have none.
    proof fn lemma_queue_determined(&self, other: &HalfBook, l: int, k: int)
        requires
            self.stored(),
            other.stored(),
            self.orders@ == other.orders@,
            self.arena@ == other.arena@,
            0 <= l < self@.levels.len(),
            self@.levels.len() == other@.levels.len(),
            0 <= k,
        ensures
            k < self@.levels[l].len() <==> k < other@.levels[l].len(),
            k < self@.levels[l].len() ==> self@.levels[l][k] == other@.levels[l][k],
        decreases k,
    {
        let a = self@.levels[l];
        let b = other@.levels[l];
        self.lemma_level(l);
        other.lemma_level(l);
        if k == 0 {
            if a.len() > 0 {
                self.lemma_order(l, 0);
                other.lemma_order(l, 0);
            }
        } else {
            self.lemma_queue_determined(other, l, k - 1);
            if k - 1 < a.len() {
                self.lemma_order(l, k - 1);
                other.lemma_order(l, k - 1);
                if k < a.len() {
                    self.lemma_order(l, k);
                }
                if k < b.len() {
                    other.lemma_order(l, k);
                }
                if k < a.len() && k < b.len() {
                    assert(a[k].slot == b[k].slot);
                }
            }
        }
    }

    /// What the storage of a valid book holds.
    proof fn lemma_rep(&self)
        requires
            self.stored(),
        ensures
            levels_stored(self@, self.orders@),
            orders_stored(self@, self.arena@),
            self.free_list@ == self@.free,
            self.ids@ == self@.id_map(),
            self@.wf(),
    {
    }

    /// The sizes of the stored vectors.
    proof fn lemma_lens(&self)
        requires
            self.stored(),
        ensures
            self.orders@.len() == self@.levels.len(),
            self.arena@.len() == self@.arena_len,
            self.free_list@ == self@.free,
            self.ids@ == self@.id_map(),
            self@.levels.len() == ladder_len(
                self.min_price as int,
                self.max_price as int,
                self.tick_size as int,
            ),
            self@.levels.len() <= usize::MAX,
            self.tick_size >= 1,
            self.min_price <= self.max_price,
    {
        reveal(levels_stored);
        reveal(orders_stored);
        assert(self.orders@.len() == self.orders.len());
    }

    /// What the ladder slot of level `l` holds.
    proof fn lemma_level(&self, l: int)
        requires
            self.stored(),
            0 <= l < self@.levels.len(),
        ensures
            l < self.orders@.len(),
            self.orders@[l] == self@.level_record(l),
            self.orders@[l].total_size == self@.level_total(l),
            0 <= self@.level_total(l) <= self@.total_liquidity() <= self@.value() <= i64::MAX,
            self.orders@[l].total_size != 0 <==> self@.levels[l].len() > 0,
            self.orders@[l].head is Some <==> self@.levels[l].len() > 0,
    {
        reveal(levels_stored);
        lemma_wf_positive(self@);
        lemma_aggregate_bounds(self@);
        assert(self@.levels[l].len() <= self@.level_total(l));
        if self@.levels[l].len() == 0 {
            assert(crate::ladder::queue_total(self@.levels[l]) == 0);
        }
    }

    /// What the arena holds for the `k`-th order of level `l`.
    proof fn lemma_order(&self, l: int, k: int)
        requires
            self.stored(),
            self@.at(l, k),
        ensures
            self@.levels[l][k].slot < self.arena@.len(),
            self.arena@[self@.levels[l][k].slot as int] == self@.order_record(l, k),
            self.arena@[self@.levels[l][k].slot as int].size == self@.levels[l][k].size,
            0 < self@.levels[l][k].size <= self@.level_total(l),
            self@.price_at(l) > 0,
    {
        reveal(orders_stored);
        lemma_wf_positive(self@);
        lemma_aggregate_bounds(self@);
        self.lemma_level(l);
    }

    /// An empty book for prices from `min_price` to `max_price` in steps of
    /// `tick_size`. Every slot of the arena starts out free.
    pub fn new(side: Side, max_price: i64, min_price: i64, tick_size: i64) -> (book: Self)
        requires
            tick_size >= 1,
            min_price <= max_price,
            ladder_len(min_price as int, max_price as int, tick_size as int) <= usize::MAX,
        ensures
            book.wf(),
            book@.wf(),
            book@.side == side,
            book@.min_price == min_price,
            book@.max_price == max_price,
            book@.tick_size == tick_size,
            book@.levels == Seq::new(
                ladder_len(min_price as int, max_price as int, tick_size as int) as nat,
                |l: int| Seq::<Resting>::empty(),
            ),
            book@.free == Seq::new(
                ladder_len(min_price as int, max_price as int, tick_size as int) as nat,
                |j: int| j as usize,
            ),
            book@.arena_len == ladder_len(min_price as int, max_price as int, tick_size as int),
            book@.best() is None,
            book@.total_liquidity() == 0,
            book@.value() == 0,
    {
        let span: i128 = max_price as i128 - min_price as i128;
        let count: i128 = span / (tick_size as i128) + 1;
        let ladder_size: usize = count as usize;
        let mut orders: Vec<PriceLevel> = Vec::new();
        let mut arena: Vec<Order> = Vec::new();
        let mut free_list: Vec<usize> = Vec::new();
        let mut i: usize = 0;
        while i < ladder_size
            invariant
                i <= ladder_size,
                orders@.len() == i,
                arena@.len() == i,
                free_list@.len() == i,
                forall|l: int|
                    0 <= l < i ==> #[trigger] orders@[l] == (PriceLevel {
                        head: None,
                        tail: None,
                        total_size: 0,
                    }),
                forall|j: int| 0 <= j < i ==> #[trigger] free_list@[j] == j as usize,
            decreases ladder_size - i,
        {
            orders.push(PriceLevel::default());
            arena.push(Order::default());
            free_list.push(i);
            i += 1;
        }
        let ghost model = Ladder {
            side,
            min_price: min_price as int,
            max_price: max_price as int,
            tick_size: tick_size as int,
            levels: Seq::new(ladder_size as nat, |l: int| Seq::<Resting>::empty()),
            free: Seq::new(ladder_size as nat, |j: int| j as usize),
            arena_len: ladder_size as nat,
        };
        let ids: HashMap<u64, usize> = HashMap::with_capacity(1000);
        proof {
            lemma_empty_aggregates(model);
            assert(model.distinct()) by {
                reveal(Ladder::distinct);
            }
            assert(model.free_apart()) by {
                reveal(Ladder::free_apart);
            }
            assert(model.wf());
            assert(free_list@ =~= model.free);
            assert(ids@ =~= model.id_map());
            crate::priority::lemma_best_none(model);
            assert(model.total_liquidity() == 0);
        }
        let book = HalfBook {
            min_price,
            max_price,
            tick_size,
            side,
            orders,
            top_of_book: None,
            arena,
            free_list,
            ids,
            model: Ghost(model),
        };
        proof {
            reveal(levels_stored);
            reveal(orders_stored);
        }
        book
    }

    /// The side of the market that rests here.
    pub fn side(&self) -> (side: Side)
        requires
            self.wf(),
        ensures
            side == self@.side,
    {
        self.side
    }

    /// The lowest price of the ladder.
    pub fn min_price(&self) -> (price: i64)
        requires
            self.wf(),
        ensures
            price == self@.min_price,
    {
        self.min_price
    }

    /// The upper end of the price range.
    pub fn max_price(&self) -> (price: i64)
        requires
            self.wf(),
        ensures
            price == self@.max_price,
    {
        self.max_price
    }

    /// The distance between two levels.
    pub fn tick_size(&self) -> (tick: i64)
        requires
            self.wf(),
        ensures
            tick == self@.tick_size,
    {
        self.tick_size
    }

    /// The cached best level: the highest populated one on the buy side,
    /// the lowest on the sell side, none when nothing rests.
    pub fn top_of_book(&self) -> (top: Option<usize>)
        requires
            self.wf(),
        ensures
            top == match self@.best() {
                Some(l) => Some(l as usize),
                None => None,
            },
    {
        self.top_of_book
    }

    /// The ladder: for each level the record of its queue.
    pub fn orders(&self) -> (levels: &Vec<PriceLevel>)
        requires
            self.wf(),
        ensures
            levels@.len() == self@.levels.len(),
            forall|l: int| 0 <= l < self@.levels.len() ==> #[trigger] levels@[l] == self@.level_record(l),
    {
        proof {
            self.lemma_lens();
            assert forall|l: int| 0 <= l < self@.levels.len() implies #[trigger] self.orders@[l]
                == self@.level_record(l) by {
                self.lemma_level(l);
            }
        }
        &self.orders
    }

    /// The arena: at the slot of each resting order, its record.
    pub fn arena(&self) -> (records: &Vec<Order>)
        requires
            self.wf(),
        ensures
            records@.len() == self@.arena_len,
            forall|l: int, k: int|
                #![trigger self@.levels[l][k]]
                self@.at(l, k) ==> records@[self@.levels[l][k].slot as int] == self@.order_record(l, k),
    {
        proof {
            self.lemma_lens();
            assert forall|l: int, k: int|
                #![trigger self@.levels[l][k]]
                self@.at(l, k) implies self.arena@[self@.levels[l][k].slot as int]
                == self@.order_record(l, k) by {
                self.lemma_order(l, k);
            }
        }
        &self.arena
    }

    /// The reclaimed slots; the last one is reused first.
    pub fn free_list(&self) -> (free: &Vec<usize>)
        requires
            self.wf(),
        ensures
            free@ == self@.free,
    {
        proof {
            self.lemma_lens();
        }
        &self.free_list
    }

    /// The identifier index: the slot of each resting identifier.
    pub fn ids(&self) -> (index: &HashMap<u64, usize>)
        requires
            self.wf(),
        ensures
            index@ == self@.id_map(),
    {
        proof {
            self.lemma_lens();
        }
        &self.ids
    }

    /// The level of a price inside the range of the book.
    pub fn calculate_price_index(&self, price: i64) -> (index: usize)
        requires
            self.wf(),
            self@.min_price <= price <= self@.max_price,
        ensures
            index == self@.index_of(price as int),
            index < self@.levels.len(),
    {
        proof {
            self.lemma_lens();
            lemma_valid_price_index(self@, price as int);
        }
        let offset: i128 = price as i128 - self.min_price as i128;
        let index: i128 = offset / (self.tick_size as i128);
        index as usize
    }

    /// The price of a level.
    pub fn get_price_from_index(&self, index: usize) -> (price: i64)
        requires
            self.wf(),
            index < self@.levels.len(),
        ensures
            price == self@.price_at(index as int),
    {
        proof {
            self.lemma_lens();
            lemma_level_price(self@, index as int);
            let l = index as int;
            let t = self.tick_size as int;
            assert(0 <= l * t <= self.max_price - self.min_price) by {
                assert(self@.price_at(l) == self.min_price + l * t);
            }
        }
        let offset: i128 = (index as i128) * (self.tick_size as i128);
        let price: i128 = self.min_price as i128 + offset;
        price as i64
    }

    /// The sum of the remaining sizes of all resting orders.
    pub fn get_total_liquidity(&self) -> (total: i64)
        requires
            self.wf(),
        ensures
            total == self@.total_liquidity(),
    {
        let ghost totals = self@.level_totals();
        proof {
            self.lemma_lens();
            assert forall|l: int| 0 <= l < totals.len() implies totals[l] >= 0 by {
                self.lemma_level(l);
            }
            lemma_seq_sum_prefix(totals, 0);
            lemma_seq_sum_prefix(totals, totals.len() as int);
            lemma_wf_positive(self@);
            lemma_aggregate_bounds(self@);
        }
        let mut total: i64 = 0;
        let mut i: usize = 0;
        while i < self.orders.len()
            invariant
                self.stored(),
                totals == self@.level_totals(),
                totals.len() == self.orders@.len(),
                forall|l: int| 0 <= l < totals.len() ==> totals[l] >= 0,
                seq_sum(totals) <= i64::MAX,
                i <= self.orders@.len(),
                total == seq_sum(totals.take(i as int)),
            decreases self.orders@.len() - i,
        {
            proof {
                lemma_seq_sum_take(totals, i as int);
                lemma_seq_sum_prefix(totals, i as int + 1);
                self.lemma_level(i as int);
            }
            total = total + self.orders[i].total_size;
            i += 1;
        }
        proof {
            assert(totals.take(i as int) =~= totals);
        }
        total
    }

    /// Price and total size of the best level, if any order rests.
    pub fn get_top_of_book(&self) -> (top: Option<PriceSize>)
        requires
            self.wf(),
        ensures
            top == match self@.top() {
                Some((price, size)) => Some(PriceSize { price: price as i64, size: size as i64 }),
                None => None,
            },
            top is Some ==> top.unwrap().price == self@.top().unwrap().0 && top.unwrap().size
                == self@.top().unwrap().1,
    {
        match self.top_of_book {
            None => None,
            Some(tob) => {
                proof {
                    lemma_best_is_best(self@);
                    self.lemma_lens();
                    self.lemma_level(tob as int);
                    lemma_level_price(self@, tob as int);
                }
                let price = self.get_price_from_index(tob);
                Some(PriceSize { size: self.orders[tob].total_size, price })
            },
        }
    }

    /// The first populated level after `tob` in the direction of worse
    /// prices: downwards on the buy side, upwards on the sell side.
    fn find_next_best_level(&self, tob: usize) -> (next: Option<usize>)
        requires
            self.stored(),
            tob < self@.levels.len(),
        ensures
            next == match self@.first_populated(self@.worse(tob as int)) {
                Some(l) => Some(l as usize),
                None => None,
            },
    {
        proof {
            self.lemma_lens();
        }
        let mut cur = tob;
        match self.side {
            Side::Buy => {
                while cur > 0
                    invariant
                        self.stored(),
                        self@.side == Side::Buy,
                        self.orders@.len() == self@.levels.len(),
                        cur <= tob < self@.levels.len(),
                        self@.first_populated(tob - 1) == self@.first_populated(cur - 1),
                    decreases cur,
                {
                    cur -= 1;
                    proof {
                        self.lemma_level(cur as int);
                    }
                    if self.orders[cur].total_size != 0 {
                        return Some(cur);
                    }
                }
                None
            },
            Side::Sell => {
                while cur + 1 < self.orders.len()
                    invariant
                        self.stored(),
                        self@.levels.len() <= usize::MAX,
                        self@.side == Side::Sell,
                        self.orders@.len() == self@.levels.len(),
                        tob <= cur < self@.levels.len(),
                        self@.first_populated(tob + 1) == self@.first_populated(cur + 1),
                    decreases self.orders@.len() - cur,
                {
                    cur += 1;
                    proof {
                        self.lemma_level(cur as int);
                    }
                    if self.orders[cur].total_size != 0 {
                        return Some(cur);
                    }
                }
                None
            },
        }
    }

    /// Whether an order of this price and size may rest: both are positive,
    /// and the price lies inside the range of the ladder and on its grid.
    fn accepts(&self, price: i64, size: i64) -> (ok: bool)
        requires
            self.wf(),
        ensures
            ok == self@.accepts(price as int, size as int),
    {
        proof {
            self.lemma_lens();
        }
        if price <= 0 || size <= 0 || price < self.min_price || price > self.max_price {
            return false;
        }
        let offset: i128 = price as i128 - self.min_price as i128;
        offset % (self.tick_size as i128) == 0
    }

    /// Rests a new order at the back of the queue at `price`.
    ///
    /// The order is rejected, and the book left as it is, unless its size
    /// and price are positive and the price lies inside the range of the
    /// ladder and on its grid. An accepted order takes the most recently
    /// freed slot of the arena, or a new one when none is free.
    ///
    /// The identifier must not be in use, and the cash value of the book
    /// with the new order must fit the type in which it is reported.
    pub fn insert(&mut self, id: u64, price: i64, size: i64) -> (result: Result<(), Error>)
        requires
            old(self).wf(),
            !old(self)@.holds(id),
            old(self)@.accepts(price as int, size as int) ==> old(self)@.value() + size * price
                <= i64::MAX,
        ensures
            final(self).wf(),
            final(self)@.wf(),
            match result {
                Ok(_) => {
                    &&& old(self)@.accepts(price as int, size as int)
                    &&& final(self)@ == old(self)@.insert(id, price as int, size as int)
                    &&& final(self)@.total_liquidity() == old(self)@.total_liquidity() + size
                    &&& final(self)@.value() == old(self)@.value() + size * price
                },
                Err(e) => {
                    &&& e == Error::InvalidOrder
                    &&& !old(self)@.accepts(price as int, size as int)
                    &&& final(self)@ == old(self)@
                },
            },
    {
        proof {
            self.lemma_lens();
        }
        if !self.accepts(price, size) {
            return Err(Error::InvalidOrder);
        }
        let price_index = self.calculate_price_index(price);
        let ghost pre = *self;
        let ghost m = self@;
        let ghost n = m.insert(id, price as int, size as int);
        let ghost q = m.levels[price_index as int];
        let ghost last = q.len() as int;
        proof {
            self.lemma_level(price_index as int);
            if last > 0 {
                self.lemma_order(price_index as int, last - 1);
            }
        }

        let arena_index = match self.free_list.pop() {
            Some(arena_index) => arena_index,
            None => {
                self.arena.push(Order::default());
                self.arena.len() - 1
            },
        };
        proof {
            assert(self.arena@.len() == self.arena.len());
            assert(arena_index == m.next_slot());
            lemma_insert_wf(m, id, price as int, size as int);
            lemma_insert_places(m, id, price as int, size as int);
            lemma_insert_index(m, id, price as int, size as int);
            lemma_insert_best(m, id, price as int, size as int);
            lemma_fresh_slot(m);
            lemma_wf_positive(n);
            lemma_aggregate_bounds(n);
            assert(n.level_total(price_index as int) == m.level_total(price_index as int) + size) by {
                crate::sums::lemma_queue_total_push(q, n.levels[price_index as int][last]);
            }
        }

        let old_tail = self.orders[price_index].tail;
        self.orders[price_index].total_size = self.orders[price_index].total_size + size;
        if self.orders[price_index].head.is_none() {
            self.orders[price_index].head = Some(arena_index);
        }
        if let Some(tail_index) = old_tail {
            self.arena[tail_index].next = Some(arena_index);
        }
        self.orders[price_index].tail = Some(arena_index);
        self.arena[arena_index].overwrite(id, price_index, size, old_tail, None);
        self.ids.insert(id, arena_index);

        match self.side {
            Side::Buy => {
                match self.top_of_book {
                    None => {
                        self.top_of_book = Some(price_index);
                    },
                    Some(tob) => {
                        if tob < price_index {
                            self.top_of_book = Some(price_index);
                        }
                    },
                }
            },
            Side::Sell => {
                match self.top_of_book {
                    None => {
                        self.top_of_book = Some(price_index);
                    },
                    Some(tob) => {
                        if tob > price_index {
                            self.top_of_book = Some(price_index);
                        }
                    },
                }
            },
        }
        proof {
            self.model = Ghost(n);
            lemma_best_is_best(m);
            pre.lemma_rep();
            lemma_insert_levels(m, pre.orders@, self.orders@, id, price as int, size as int);
            lemma_insert_orders(m, pre.arena@, self.arena@, id, price as int, size as int);
            assert(self.free_list@ =~= n.free);
            }
        Ok(())
    }

    /// Everything but the ladder slots and the arena is as in `other`.
    spec fn same_frame(&self, other: &HalfBook) -> bool {
        &&& self.min_price == other.min_price
        &&& self.max_price == other.max_price
        &&& self.tick_size == other.tick_size
        &&& self.side == other.side
        &&& self.top_of_book == other.top_of_book
        &&& self.free_list == other.free_list
        &&& self.ids == other.ids
        &&& self.model == other.model
    }

    /// The links, where there are any, are slots of the arena.
    spec fn links_in_bounds(&self, prev: Option<usize>, next: Option<usize>) -> bool {
        &&& (prev matches Some(p) ==> p < self.arena@.len())
        &&& (next matches Some(x) ==> x < self.arena@.len())
    }

    /// Level `index` exists, and if it has a head, that order and its links
    /// are slots of the arena and its size can be taken from the total.
    spec fn head_removable(&self, index: usize) -> bool {
        &&& index < self.orders@.len()
        &&& (self.orders@[index as int].head matches Some(h) ==> {
            &&& h < self.arena@.len()
            &&& self.links_in_bounds(self.arena@[h as int].prev, self.arena@[h as int].next)
            &&& i64::MIN <= self.orders@[index as int].total_size - self.arena@[h as int].size
                <= i64::MAX
        })
    }

    /// Given the links of a departing order, connects its neighbours to each
    /// other: the order before it points to the one after it, and the one
    /// after it back to the one before. Fails, and changes nothing, if a
    /// link is no slot of the arena.
    fn remove_order_from_linked_list(&mut self, prev: Option<usize>, next: Option<usize>) -> (result:
        Result<(), Error>)
        ensures
            final(self).same_frame(old(self)),
            final(self).orders == old(self).orders,
            match result {
                Ok(_) => {
                    &&& old(self).links_in_bounds(prev, next)
                    &&& final(self).arena@ == unlink(old(self).arena@, prev, next)
                },
                Err(e) => {
                    &&& e == Error::InternalInvariant
                    &&& !old(self).links_in_bounds(prev, next)
                    &&& final(self).arena == old(self).arena
                },
            },
    {
        if let Some(p) = prev {
            if p >= self.arena.len() {
                return Err(Error::InternalInvariant);
            }
        }
        if let Some(x) = next {
            if x >= self.arena.len() {
                return Err(Error::InternalInvariant);
            }
        }
        if let Some(p) = prev {
            self.arena[p].next = next;
        }
        if let Some(x) = next {
            self.arena[x].prev = prev;
        }
        Ok(())
    }

    /// Takes the head order of level `index` out of its queue: the level's
    /// head moves to the next order, its tail is cleared if the head was
    /// the tail too, and its total shrinks by the size that the head still
    /// has. Fails, and changes nothing, if the level or a slot does not
    /// exist.
    fn remove_head_of_price_level(&mut self, index: usize) -> (result: Result<(), Error>)
        ensures
            final(self).same_frame(old(self)),
            match result {
                Ok(_) => {
                    &&& old(self).head_removable(index)
                    &&& match old(self).orders@[index as int].head {
                        None => final(self).orders == old(self).orders && final(self).arena == old(
                            self,
                        ).arena,
                        Some(h) => {
                            let level = old(self).orders@[index as int];
                            let head = old(self).arena@[h as int];
                            &&& final(self).orders@ == old(self).orders@.update(
                                index as int,
                                PriceLevel {
                                    head: head.next,
                                    tail: if level.tail == Some(h) {
                                        None
                                    } else {
                                        level.tail
                                    },
                                    total_size: (level.total_size - head.size) as i64,
                                },
                            )
                            &&& final(self).arena@ == unlink(old(self).arena@, head.prev, head.next)
                        },
                    }
                },
                Err(e) => {
                    &&& e == Error::InternalInvariant
                    &&& !old(self).head_removable(index)
                    &&& final(self).orders == old(self).orders
                    &&& final(self).arena == old(self).arena
                },
            },
    {
        if index >= self.orders.len() {
            return Err(Error::InternalInvariant);
        }
        let level = self.orders[index];
        if let Some(head_arena_index) = level.head {
            if head_arena_index >= self.arena.len() {
                return Err(Error::InternalInvariant);
            }
            let head_order = self.arena[head_arena_index];
            let prev = head_order.prev;
            let next = head_order.next;
            let total_size = match level.total_size.checked_sub(head_order.size) {
                Some(total_size) => total_size,
                None => {
                    return Err(Error::InternalInvariant);
                },
            };
            match self.remove_order_from_linked_list(prev, next) {
                Ok(_) => {},
                Err(e) => {
                    return Err(e);
                },
            }
            self.orders[index].total_size = total_size;
            if let Some(tail) = level.tail {
                if tail == head_arena_index {
                    self.orders[index].tail = None;
                }
            }
            self.orders[index].head = next;
            proof {
                assert(self.orders@ =~= old(self).orders@.update(
                    index as int,
                    PriceLevel {
                        head: head_order.next,
                        tail: if level.tail == Some(head_arena_index) {
                            None
                        } else {
                            level.tail
                        },
                        total_size: (level.total_size - head_order.size) as i64,
                    },
                ));
            }
        }
        Ok(())
    }

    /// The storage after a removal holds the ladder after the removal.
    proof fn lemma_removed(&self, pre: HalfBook, id: u64, slot: usize)
        requires
            pre.stored(),
            pre@.holds(id),
            slot == pre@.order(id).slot,
            self@ == pre@.remove(id),
            self.min_price == pre.min_price,
            self.max_price == pre.max_price,
            self.tick_size == pre.tick_size,
            self.side == pre.side,
            self.ids@ == pre.ids@.remove(id),
            self.free_list@ == pre.free_list@.push(slot),
            slot < pre.arena@.len(),
            pre.arena@[slot as int].price_index < pre.orders@.len(),
            ({
                let order = pre.arena@[slot as int];
                let level = pre.orders@[order.price_index as int];
                &&& self.orders@ == pre.orders@.update(
                    order.price_index as int,
                    PriceLevel {
                        head: if level.head == Some(slot) {
                            order.next
                        } else {
                            level.head
                        },
                        tail: if level.tail == Some(slot) {
                            order.prev
                        } else {
                            level.tail
                        },
                        total_size: (level.total_size - order.size) as i64,
                    },
                )
                &&& self.arena@.len() == pre.arena@.len()
                &&& forall|s: int|
                    0 <= s < pre.arena@.len() && s != slot ==> #[trigger] self.arena@[s] == unlink(
                        pre.arena@,
                        order.prev,
                        order.next,
                    )[s]
            }),
        ensures
            self.stored(),
    {
        let m = pre@;
        let (l, k) = m.locate(id);
        lemma_held(m, id);
        pre.lemma_rep();
        pre.lemma_lens();
        pre.lemma_order(l, k);
        pre.lemma_level(l);
        assert(pre.arena@[slot as int].price_index == l);
        lemma_remove_wf(m, l, k);
        lemma_remove_index(m, l, k);
        lemma_remove_levels(m, pre.orders@, self.orders@, l, k);
        lemma_remove_orders(m, pre.arena@, self.arena@, l, k);
    }

    /// Cancels the order `id`: it leaves its queue, and its slot becomes
    /// the next one to be reused. Fails, and changes nothing, if no order
    /// rests under `id`.
    pub fn remove(&mut self, id: u64) -> (result: Result<(), Error>)
        requires
            old(self).wf(),
        ensures
            final(self).wf(),
            final(self)@.wf(),
            match result {
                Ok(_) => {
                    &&& old(self)@.holds(id)
                    &&& final(self)@ == old(self)@.remove(id)
                    &&& final(self)@.total_liquidity() == old(self)@.total_liquidity() - old(
                        self,
                    )@.order(id).size
                    &&& final(self)@.value() == old(self)@.value() - old(self)@.order(id).size
                        * old(self)@.price_at(old(self)@.locate(id).0)
                },
                Err(e) => {
                    &&& e == Error::UnknownId
                    &&& !old(self)@.holds(id)
                    &&& final(self)@ == old(self)@
                },
            },
    {
        let ghost pre = *self;
        let ghost m = self@;
        proof {
            pre.lemma_lens();
        }
        let arena_index = match self.ids.remove(&id) {
            Some(arena_index) => arena_index,
            None => {
                proof {
                    assert(self.ids@ =~= pre.ids@);
                            }
                return Err(Error::UnknownId);
            },
        };
        let ghost (l, k) = m.locate(id);
        proof {
            lemma_held(m, id);
            pre.lemma_order(l, k);
            pre.lemma_level(l);
        }
        let order = self.arena[arena_index];
        let price_index = order.price_index;
        let level = self.orders[price_index];
        // if we were the first, shift the head to our next
        if let Some(head) = level.head {
            if head == arena_index {
                self.orders[price_index].head = order.next;
            }
        }
        // if we were the last, then the tail is our prev
        if let Some(tail) = level.tail {
            if tail == arena_index {
                self.orders[price_index].tail = order.prev;
            }
        }
        let total_size = level.total_size - order.size;
        self.orders[price_index].total_size = total_size;
        proof {
            if k > 0 {
                pre.lemma_order(l, k - 1);
            }
            if k < m.levels[l].len() - 1 {
                pre.lemma_order(l, k + 1);
            }
        }
        match self.remove_order_from_linked_list(order.prev, order.next) {
            Ok(_) => {},
            Err(e) => {
                return Err(e);
            },
        }
        // Mark arena slot reusable.
        self.free_list.push(arena_index);
        proof {
            self.model = Ghost(m.remove_at(l, k));
            assert(self.orders@ =~= pre.orders@.update(
                price_index as int,
                PriceLevel {
                    head: if level.head == Some(arena_index) {
                        order.next
                    } else {
                        level.head
                    },
                    tail: if level.tail == Some(arena_index) {
                        order.prev
                    } else {
                        level.tail
                    },
                    total_size: (level.total_size - order.size) as i64,
                },
            ));
            self.lemma_removed(pre, id, arena_index);
            self.lemma_lens();
            self.lemma_level(l);
            lemma_remove_wf(m, l, k);
            lemma_remove_best(m, l, k);
            lemma_best_is_best(m);
            assert(self@.levels[l].len() == m.levels[l].len() - 1);
            assert(price_index as int == l);
        }
        // if we are removing our TOB
        if let Some(tob) = self.top_of_book {
            if tob == price_index && total_size == 0 {
                self.top_of_book = self.find_next_best_level(tob);
            }
        }
        Ok(())
    }

    /// The storage after a change of size holds the ladder after the change.
    proof fn lemma_resized(&self, pre: HalfBook, l: int, k: int, size: i64)
        requires
            pre.stored(),
            pre@.at(l, k),
            size > 0,
            pre@.value() + (size - pre@.levels[l][k].size) * pre@.price_at(l) <= i64::MAX,
            self@ == pre@.resize_at(l, k, size as int),
            self.min_price == pre.min_price,
            self.max_price == pre.max_price,
            self.tick_size == pre.tick_size,
            self.side == pre.side,
            self.ids == pre.ids,
            self.free_list == pre.free_list,
            self.orders@ == pre.orders@.update(
                l,
                PriceLevel {
                    total_size: (pre.orders@[l].total_size - pre@.levels[l][k].size + size) as i64,
                    ..pre.orders@[l]
                },
            ),
            self.arena@ == pre.arena@.update(
                pre@.levels[l][k].slot as int,
                Order { size, ..pre.arena@[pre@.levels[l][k].slot as int] },
            ),
        ensures
            self.stored(),
    {
        let m = pre@;
        pre.lemma_rep();
        pre.lemma_lens();
        lemma_resize(m, l, k, size as int);
        lemma_resize_levels(m, pre.orders@, self.orders@, l, k, size as int);
        lemma_resize_orders(m, pre.arena@, self.arena@, l, k, size as int);
    }

    /// Gives the order `id` the size `size`, and the price `price`.
    ///
    /// At the price it has, the order keeps its place in the queue. At
    /// another price it leaves its queue and joins the back of the queue
    /// there, in the slot it had. Fails, and changes nothing, if no order
    /// rests under `id`, or if the new price and size could not rest.
    ///
    /// The cash value of the book with the changed order must fit the type
    /// in which it is reported.
    pub fn modify(&mut self, id: u64, price: i64, size: i64) -> (result: Result<(), Error>)
        requires
            old(self).wf(),
            old(self)@.holds(id) && old(self)@.accepts(price as int, size as int) ==> old(
                self,
            )@.value() - old(self)@.order(id).size * old(self)@.price_at(old(self)@.locate(id).0)
                + size * price <= i64::MAX,
        ensures
            final(self).wf(),
            final(self)@.wf(),
            match result {
                Ok(_) => {
                    &&& old(self)@.holds(id)
                    &&& old(self)@.accepts(price as int, size as int)
                    &&& final(self)@ == old(self)@.modify(id, price as int, size as int)
                    &&& final(self)@.total_liquidity() == old(self)@.total_liquidity() - old(
                        self,
                    )@.order(id).size + size
                    &&& final(self)@.value() == old(self)@.value() - old(self)@.order(id).size
                        * old(self)@.price_at(old(self)@.locate(id).0) + size * price
                },
                Err(e) => {
                    &&& final(self)@ == old(self)@
                    &&& !old(self)@.holds(id) || !old(self)@.accepts(price as int, size as int)
                    &&& e == if old(self)@.holds(id) {
                        Error::InvalidOrder
                    } else {
                        Error::UnknownId
                    }
                },
            },
    {
        let ghost pre = *self;
        let ghost m = self@;
        proof {
            pre.lemma_lens();
            pre.lemma_rep();
        }
        let arena_index = match self.ids.get(&id) {
            Some(arena_index) => *arena_index,
            None => {
                return Err(Error::UnknownId);
            },
        };
        if !self.accepts(price, size) {
            return Err(Error::InvalidOrder);
        }
        let price_index = self.calculate_price_index(price);
        let ghost (l, k) = m.locate(id);
        proof {
            lemma_held(m, id);
            pre.lemma_order(l, k);
            pre.lemma_level(l);
            lemma_valid_price_index(m, price as int);
        }
        let order = self.arena[arena_index];
        if order.price_index != price_index {
            proof {
                lemma_remove_wf(m, l, k);
                lemma_remove_index(m, l, k);
            }
            match self.remove(id) {
                Ok(_) => {},
                Err(e) => {
                    return Err(e);
                },
            }
            match self.insert(id, price, size) {
                Ok(_) => {},
                Err(e) => {
                    return Err(e);
                },
            }
        } else {
            let ghost p = m.price_at(l);
            proof {
                assert(p == price);
                assert((size - order.size) * p == size * p - order.size * p) by (nonlinear_arith);
                lemma_resize(m, l, k, size as int);
                let n = m.resize_at(l, k, size as int);
                lemma_wf_positive(n);
                lemma_aggregate_bounds(n);
                assert(n.level_total(l) == m.level_total(l) - order.size + size) by {
                    crate::sums::lemma_queue_total_update(m.levels[l], k, n.levels[l][k]);
                }
                assert(0 <= n.level_total(l) <= n.value());
            }
            let total_size = self.orders[price_index].total_size - order.size;
            self.orders[price_index].total_size = total_size + size;
            self.arena[arena_index].size = size;
            proof {
                self.model = Ghost(m.resize_at(l, k, size as int));
                assert(self.orders@ =~= pre.orders@.update(
                    l,
                    PriceLevel {
                        total_size: (pre.orders@[l].total_size - m.levels[l][k].size + size) as i64,
                        ..pre.orders@[l]
                    },
                ));
                assert(self.arena@ =~= pre.arena@.update(
                    arena_index as int,
                    Order { size, ..pre.arena@[arena_index as int] },
                ));
                self.lemma_resized(pre, l, k, size);
            }
        }
        Ok(())
    }

    /// Trades a taker of `size` against the book, best price first and, at
    /// each price, oldest order first, until the taker is filled or the
    /// book is empty. Returns the cash traded: the sum over the fills of
    /// traded size times the price of the level.
    ///
    /// An order that is filled entirely leaves the book, and its slot
    /// becomes the next one to be reused; an order that is filled in part
    /// keeps its place. A taker that the book cannot fill entirely is no
    /// error. Fails, and changes nothing, if `size` is not positive.
    pub fn match_size(&mut self, size: i64) -> (result: Result<i64, Error>)
        requires
            old(self).wf(),
        ensures
            final(self).wf(),
            final(self)@.wf(),
            match result {
                Ok(notional) => {
                    &&& size > 0
                    &&& final(self)@ == old(self)@.match_size(size as int).0
                    &&& notional == old(self)@.match_size(size as int).1
                    &&& notional == old(self)@.value() - final(self)@.value()
                    &&& final(self)@.total_liquidity() == if size <= old(self)@.total_liquidity() {
                        old(self)@.total_liquidity() - size
                    } else {
                        0
                    }
                },
                Err(e) => {
                    &&& e == Error::InvalidOrder
                    &&& size <= 0
                    &&& final(self)@ == old(self)@
                },
            },
    {
        if size <= 0 {
            return Err(Error::InvalidOrder);
        }
        let ghost start = self@;
        let mut remaining = size;
        let mut notional: i64 = 0;
        proof {
            lemma_wf_positive(start);
            lemma_aggregate_bounds(start);
            crate::laws::law_match_liquidity(start, size as int);
        }
        while remaining > 0
            invariant
                self.wf(),
                start == old(self)@,
                start.match_size(size as int).0.total_liquidity() == if size
                    <= start.total_liquidity() {
                    start.total_liquidity() - size
                } else {
                    0
                },
                0 <= remaining <= size,
                0 <= notional,
                notional + self@.value() == start.value(),
                start.value() <= i64::MAX,
                0 <= self@.value(),
                start.match_size(size as int) == (
                    self@.match_size(remaining as int).0,
                    self@.match_size(remaining as int).1 + notional,
                ),
            decreases remaining,
        {
            let ghost pre = *self;
            let ghost m = self@;
            let tob = match self.top_of_book {
                Some(tob) => tob,
                None => {
                    proof {
                        lemma_match_nothing(m, remaining as int);
                    }
                    return Ok(notional);
                },
            };
            proof {
                pre.lemma_lens();
                lemma_best_is_best(m);
                pre.lemma_level(tob as int);
                pre.lemma_order(tob as int, 0);
                lemma_locate(m, tob as int, 0);
                pre.lemma_rep();
            }
            let order_index = match self.orders[tob].head {
                Some(order_index) => order_index,
                None => {
                    return Err(Error::InternalInvariant);
                },
            };
            let order = self.arena[order_index];
            let traded = if remaining < order.size {
                remaining
            } else {
                order.size
            };
            let price = self.get_price_from_index(tob);
            proof {
                lemma_trade_fits(m, tob as int, traded as int);
                if traded == order.size {
                    lemma_match_step_full(m, tob as int, remaining as int);
                    lemma_remove_index(m, tob as int, 0);
                    lemma_wf_positive(m.remove_at(tob as int, 0));
                    lemma_aggregate_bounds(m.remove_at(tob as int, 0));
                } else {
                    lemma_match_step_partial(m, tob as int, remaining as int);
                    lemma_wf_positive(m.resize_at(tob as int, 0, order.size - traded));
                    lemma_aggregate_bounds(m.resize_at(tob as int, 0, order.size - traded));
                    lemma_match_nothing(m.resize_at(tob as int, 0, order.size - traded), 0);
                }
            }
            let order_empty = order.size - traded == 0;
            self.arena[order_index].size = order.size - traded;
            let level_total = self.orders[tob].total_size - traded;
            self.orders[tob].total_size = level_total;
            remaining = remaining - traded;
            notional = notional + traded * price;

            if order_empty {
                let ghost mid = *self;
                match self.remove_head_of_price_level(tob) {
                    Ok(_) => {},
                    Err(e) => {
                        return Err(e);
                    },
                }
                self.ids.remove(&order.id);
                self.free_list.push(order_index);
                proof {
                    self.model = Ghost(m.remove_at(tob as int, 0));
                    assert(self.orders@ =~= pre.orders@.update(
                        tob as int,
                        PriceLevel {
                            head: if pre.orders@[tob as int].head == Some(order_index) {
                                order.next
                            } else {
                                pre.orders@[tob as int].head
                            },
                            tail: if pre.orders@[tob as int].tail == Some(order_index) {
                                order.prev
                            } else {
                                pre.orders@[tob as int].tail
                            },
                            total_size: (pre.orders@[tob as int].total_size - order.size) as i64,
                        },
                    ));
                    assert forall|s: int|
                        0 <= s < pre.arena@.len() && s != order_index implies #[trigger] self.arena@[s]
                        == unlink(pre.arena@, order.prev, order.next)[s] by {}
                    self.lemma_removed(pre, order.id, order_index);
                    self.lemma_lens();
                    self.lemma_level(tob as int);
                }
            } else {
                proof {
                    self.model = Ghost(m.resize_at(tob as int, 0, order.size - traded));
                    assert(self.orders@ =~= pre.orders@.update(
                        tob as int,
                        PriceLevel {
                            total_size: (pre.orders@[tob as int].total_size - order.size + (
                            order.size - traded)) as i64,
                            ..pre.orders@[tob as int]
                        },
                    ));
                    assert((order.size - traded - order.size) * m.price_at(tob as int) <= 0)
                        by (nonlinear_arith)
                        requires
                            traded > 0,
                            m.price_at(tob as int) > 0,
                    ;
                    self.lemma_resized(pre, tob as int, 0, (order.size - traded) as i64);
                    self.lemma_lens();
                    self.lemma_level(tob as int);
                }
            }
            if level_total == 0 {
                self.top_of_book = self.find_next_best_level(tob);
            }
        }
        proof {
            lemma_match_nothing(self@, 0);
        }
        Ok(notional)
    }
}

} // verus!
