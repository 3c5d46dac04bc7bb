//! The vector book: each side is a vector of orders sorted by price, with
//! the best order at the end.

use vstd::prelude::*;
use crate::orders::{
    LimitOrderResponse,
    MarketOrderResponse,
    Order,
    OrderResponse,
    OrderTicket,
    OrderType,
    Side,
};
use crate::Error;

verus! {

/// Room that a new book reserves for each side.
const INITIAL_ORDERBOOK_SIZE: usize = 500;

/// The symbol of the instrument that a new book trades.
pub const BTC: usize = 111;

/// Sum of the sizes of the orders of one side.
pub open spec fn side_size(half: Seq<Order>) -> int
    decreases half.len(),
{
    if half.len() == 0 {
        0
    } else {
        side_size(half.drop_last()) + half.last().size
    }
}

/// Cash value of the orders of one side: the sum of size times price.
pub open spec fn side_value(half: Seq<Order>) -> int
    decreases half.len(),
{
    if half.len() == 0 {
        0
    } else {
        side_value(half.drop_last()) + half.last().size * half.last().price
    }
}

/// An order at `resting` stays ahead of a new order of `side` at `price`:
/// its price is strictly worse, so the new order goes behind it, nearer to
/// the end of the vector.
pub open spec fn worse(side: Side, resting: int, price: int) -> bool {
    match side {
        Side::Sell => resting > price,
        Side::Buy => resting < price,
    }
}

/// Where a new order of `side` at `price` goes: directly behind the last
/// order with a strictly worse price, and at the front if there is none.
/// Orders at the same price stand behind it, and so trade before it.
pub open spec fn position(half: Seq<Order>, side: Side, price: int) -> int
    decreases half.len(),
{
    if half.len() == 0 {
        0
    } else if worse(side, half.last().price as int, price) {
        half.len() as int
    } else {
        position(half.drop_last(), side, price)
    }
}

/// A taker of `size` consumes the side from its end. The result is what
/// is left of the side, the cash traded, and whether the taker was filled.
pub open spec fn consume(half: Seq<Order>, size: int) -> (Seq<Order>, int, bool)
    decreases half.len(),
{
    if size == 0 {
        (half, 0, true)
    } else if half.len() == 0 {
        (half, 0, false)
    } else {
        let best = half.last();
        if best.size > size {
            (
                half.update(half.len() - 1, Order { size: (best.size - size) as i64, ..best }),
                size * best.price,
                true,
            )
        } else {
            let (rest, cash, filled) = consume(half.drop_last(), size - best.size);
            (rest, cash + best.size * best.price, filled)
        }
    }
}

/// The orders of one side have positive sizes and prices and stand in the
/// order of their prices, the best one last.
pub open spec fn side_sorted(half: Seq<Order>, side: Side) -> bool {
    &&& forall|i: int| 0 <= i < half.len() ==> (#[trigger] half[i]).size > 0 && half[i].price > 0
    &&& forall|i: int, j: int|
        0 <= i < j < half.len() ==> !worse(side, (#[trigger] half[j]).price as int, (
        #[trigger] half[i]).price as int)
}

/// The model of the vector book.
pub struct Book {
    pub bids: Seq<Order>,
    pub asks: Seq<Order>,
    pub next_id: usize,
}

impl Book {
    /// The side on which orders of `side` rest.
    pub open spec fn own(self, side: Side) -> Seq<Order> {
        match side {
            Side::Buy => self.bids,
            Side::Sell => self.asks,
        }
    }

    /// The side against which orders of `side` trade.
    pub open spec fn opposite(self, side: Side) -> Seq<Order> {
        match side {
            Side::Buy => self.asks,
            Side::Sell => self.bids,
        }
    }

    /// The book with `half` in place of the side on which `side` rests.
    pub open spec fn with_own(self, side: Side, half: Seq<Order>) -> Book {
        match side {
            Side::Buy => Book { bids: half, ..self },
            Side::Sell => Book { asks: half, ..self },
        }
    }

    /// The book with `half` in place of the side against which `side` trades.
    pub open spec fn with_opposite(self, side: Side, half: Seq<Order>) -> Book {
        match side {
            Side::Buy => Book { asks: half, ..self },
            Side::Sell => Book { bids: half, ..self },
        }
    }

    /// A limit order of `side` at `price` would trade at once.
    pub open spec fn crosses(self, side: Side, price: int) -> bool {
        let opposite = self.opposite(side);
        opposite.len() > 0 && match side {
            Side::Buy => opposite.last().price <= price,
            Side::Sell => opposite.last().price >= price,
        }
    }

    /// The best bid is lower than the best ask, where both exist.
    pub open spec fn uncrossed(self) -> bool {
        self.bids.len() > 0 && self.asks.len() > 0 ==> self.bids.last().price
            < self.asks.last().price
    }

    /// What holds of every book that the operations produce.
    pub open spec fn wf(self) -> bool {
        &&& side_sorted(self.bids, Side::Buy)
        &&& side_sorted(self.asks, Side::Sell)
        &&& self.uncrossed()
        &&& side_value(self.bids) <= i64::MAX
        &&& side_value(self.asks) <= i64::MAX
    }

    /// A taker of `side` trades `size` against the opposite side. A size
    /// that is not positive is refused. A taker that the side cannot fill
    /// is refused too, after it has consumed the side.
    pub open spec fn take(self, side: Side, size: int) -> (Book, Result<OrderResponse, Error>) {
        if size <= 0 {
            (self, Err(Error::InvalidOrder))
        } else {
            let (rest, cash, filled) = consume(self.opposite(side), size);
            (
                self.with_opposite(side, rest),
                if filled {
                    Ok(
                        OrderResponse::Market(
                            MarketOrderResponse { notional: cash as i64, size: 0 },
                        ),
                    )
                } else {
                    Err(Error::EmptyBook)
                },
            )
        }
    }

    /// A maker of `side` takes the next identifier and rests at the place
    /// of its price. A size or a price that is not positive is refused.
    pub open spec fn make(self, side: Side, price: int, size: int) -> (
        Book,
        Result<OrderResponse, Error>,
    ) {
        if size <= 0 || price <= 0 {
            (self, Err(Error::InvalidOrder))
        } else {
            let order = Order { id: self.next_id, price: price as i64, size: size as i64 };
            let own = self.own(side);
            (
                Book { next_id: (self.next_id + 1) as usize, ..self }.with_own(
                    side,
                    own.insert(position(own, side, price), order),
                ),
                Ok(OrderResponse::Limit(LimitOrderResponse { id: self.next_id })),
            )
        }
    }

    /// What a ticket does to the book, and what is answered.
    pub open spec fn accept(self, ticket: OrderTicket) -> (Book, Result<OrderResponse, Error>) {
        match ticket.order_type {
            OrderType::Market => self.take(ticket.side, ticket.size as int),
            OrderType::Limit(price) => if self.crosses(ticket.side, price as int) {
                self.take(ticket.side, ticket.size as int)
            } else {
                self.make(ticket.side, price as int, ticket.size as int)
            },
        }
    }

    /// The ticket can be served within the limits of the machine: if it
    /// rests, an identifier is left for it, and the cash value of its side
    /// with the new order fits the type in which it is reported.
    pub open spec fn admits(self, ticket: OrderTicket) -> bool {
        match ticket.order_type {
            OrderType::Market => true,
            OrderType::Limit(price) => self.crosses(ticket.side, price as int) || ticket.size <= 0
                || price <= 0 || {
                &&& self.next_id < usize::MAX
                &&& side_value(self.own(ticket.side)) + ticket.size * price <= i64::MAX
            },
        }
    }
}

/// An order that joins a side adds its size and its cash to the side.
pub proof fn lemma_side_insert(half: Seq<Order>, i: int, order: Order)
    requires
        0 <= i <= half.len(),
    ensures
        side_size(half.insert(i, order)) == side_size(half) + order.size,
        side_value(half.insert(i, order)) == side_value(half) + order.size * order.price,
    decreases half.len(),
{
    let joined = half.insert(i, order);
    if i == half.len() {
        assert(joined.drop_last() =~= half);
    } else {
        lemma_side_insert(half.drop_last(), i, order);
        assert(joined.drop_last() =~= half.drop_last().insert(i, order));
        assert(joined.last() == half.last());
    }
}

/// On a side of positive sizes and prices, no order is larger than the
/// size of the side, the size is at most the value, and value and size of
/// the side without its last order are not larger.
pub proof fn lemma_side_bounds(half: Seq<Order>)
    requires
        forall|i: int| 0 <= i < half.len() ==> (#[trigger] half[i]).size > 0 && half[i].price > 0,
    ensures
        0 <= side_size(half) <= side_value(half),
        half.len() > 0 ==> 0 <= side_value(half.drop_last()) <= side_value(half) - half.last().size
            * half.last().price,
        half.len() > 0 ==> half.last().size * half.last().price >= half.last().size,
    decreases half.len(),
{
    if half.len() > 0 {
        let front = half.drop_last();
        assert forall|i: int| 0 <= i < front.len() implies (#[trigger] front[i]).size > 0
            && front[i].price > 0 by {
            assert(front[i] == half[i]);
        }
        lemma_side_bounds(front);
        let s = half.last().size as int;
        let p = half.last().price as int;
        assert(s * p >= s) by (nonlinear_arith)
            requires
                s > 0,
                p > 0,
        ;
    }
}

/// Where a new order goes: behind an order with a strictly worse price, if
/// there is one, and in front of orders whose price is not worse.
pub proof fn lemma_position(half: Seq<Order>, side: Side, price: int)
    ensures
        0 <= position(half, side, price) <= half.len(),
        position(half, side, price) > 0 ==> worse(
            side,
            half[position(half, side, price) - 1].price as int,
            price,
        ),
        forall|j: int|
            position(half, side, price) <= j < half.len() ==> !worse(
                side,
                (#[trigger] half[j]).price as int,
                price,
            ),
    decreases half.len(),
{
    if half.len() > 0 && !worse(side, half.last().price as int, price) {
        let front = half.drop_last();
        lemma_position(front, side, price);
        let p = position(front, side, price);
        assert forall|j: int| p <= j < half.len() implies !worse(
            side,
            (#[trigger] half[j]).price as int,
            price,
        ) by {
            if j < front.len() {
                assert(front[j] == half[j]);
            }
        }
        if p > 0 {
            assert(front[p - 1] == half[p - 1]);
        }
    }
}

/// A sorted side stays sorted when an order with positive size and price
/// joins it at its position.
pub proof fn lemma_insert_sorted(half: Seq<Order>, side: Side, order: Order)
    requires
        side_sorted(half, side),
        order.size > 0,
        order.price > 0,
    ensures
        side_sorted(half.insert(position(half, side, order.price as int), order), side),
{
    let p = position(half, side, order.price as int);
    let joined = half.insert(p, order);
    lemma_position(half, side, order.price as int);
    assert forall|i: int| 0 <= i < joined.len() implies (#[trigger] joined[i]).size > 0
        && joined[i].price > 0 by {
        if i < p {
            assert(joined[i] == half[i]);
        } else if i > p {
            assert(joined[i] == half[i - 1]);
        }
    }
    assert forall|i: int, j: int| 0 <= i < j < joined.len() implies !worse(
        side,
        (#[trigger] joined[j]).price as int,
        (#[trigger] joined[i]).price as int,
    ) by {
        let a = if i < p {
            i
        } else {
            i - 1
        };
        let b = if j < p {
            j
        } else {
            j - 1
        };
        if i != p {
            assert(joined[i] == half[a]);
        }
        if j != p {
            assert(joined[j] == half[b]);
        }
        if i != p && j != p {
            assert(!worse(side, half[b].price as int, half[a].price as int));
        } else if j == p {
            // `i` stands in front of the new order
            if i < p - 1 {
                assert(!worse(side, half[p - 1].price as int, half[i].price as int));
            }
        } else {
            assert(!worse(side, half[b].price as int, order.price as int));
        }
    }
}

/// What a taker leaves of a sorted side: a front part of the side, with
/// its last order perhaps smaller, and nothing at all if the taker was not
/// filled. The cash traded is the value that the side lost.
pub proof fn lemma_consume(half: Seq<Order>, size: int)
    requires
        forall|i: int| 0 <= i < half.len() ==> (#[trigger] half[i]).size > 0 && half[i].price > 0,
        side_value(half) <= i64::MAX,
        size >= 0,
    ensures
        ({
            let (rest, cash, filled) = consume(half, size);
            &&& rest.len() <= half.len()
            &&& forall|i: int|
                0 <= i < rest.len() ==> {
                    &&& (#[trigger] rest[i]).id == half[i].id
                    &&& rest[i].price == half[i].price
                    &&& 0 < rest[i].size <= half[i].size
                }
            &&& cash == side_value(half) - side_value(rest)
            &&& 0 <= cash
            &&& 0 <= side_value(rest)
            &&& !filled ==> rest.len() == 0
            &&& filled ==> side_size(rest) == side_size(half) - size
        }),
    decreases half.len(),
{
    lemma_side_bounds(half);
    if size == 0 {
    } else if half.len() == 0 {
    } else {
        let best = half.last();
        let front = half.drop_last();
        assert forall|i: int| 0 <= i < front.len() implies (#[trigger] front[i]).size > 0
            && front[i].price > 0 by {
            assert(front[i] == half[i]);
        }
        if best.size > size {
            let cut = Order { size: (best.size - size) as i64, ..best };
            let rest = half.update(half.len() - 1, cut);
            assert(rest.drop_last() =~= front);
            let p = best.price as int;
            let s = best.size as int;
            assert((s - size) * p == s * p - size * p) by (nonlinear_arith);
            assert(size * p >= 0) by (nonlinear_arith)
                requires
                    size >= 0,
                    p > 0,
            ;
            assert((s - size) * p >= 0) by (nonlinear_arith)
                requires
                    s - size > 0,
                    p > 0,
            ;
        } else {
            lemma_consume(front, size - best.size);
            let (rest, cash, filled) = consume(front, size - best.size);
            assert forall|i: int| 0 <= i < rest.len() implies {
                &&& (#[trigger] rest[i]).id == half[i].id
                &&& rest[i].price == half[i].price
                &&& 0 < rest[i].size <= half[i].size
            } by {
                assert(front[i] == half[i]);
            }
        }
    }
}

/// What a taker leaves of a sorted side is sorted, and its best price is
/// no better than the best price was.
pub proof fn lemma_consume_sorted(half: Seq<Order>, side: Side, size: int)
    requires
        side_sorted(half, side),
        side_value(half) <= i64::MAX,
        size >= 0,
    ensures
        side_sorted(consume(half, size).0, side),
        side_value(consume(half, size).0) <= i64::MAX,
        consume(half, size).0.len() > 0 ==> !worse(
            side,
            half.last().price as int,
            consume(half, size).0.last().price as int,
        ),
{
    lemma_consume(half, size);
    let rest = consume(half, size).0;
    assert forall|i: int, j: int| 0 <= i < j < rest.len() implies !worse(
        side,
        (#[trigger] rest[j]).price as int,
        (#[trigger] rest[i]).price as int,
    ) by {
        assert(rest[i].price == half[i].price);
        assert(rest[j].price == half[j].price);
        assert(!worse(side, half[j].price as int, half[i].price as int));
    }
    if rest.len() > 0 {
        let k = rest.len() - 1;
        assert(rest[k].price == half[k].price);
        if k < half.len() - 1 {
            assert(!worse(side, half[half.len() - 1].price as int, half[k].price as int));
        }
    }
}

/// An order book that keeps each side as one sorted vector of orders.
#[derive(Debug)]
pub struct Orderbook {
    pub symbol: usize,
    /// Bids are in ascending order with the best bid at the end
    pub bids: Vec<Order>,
    /// Asks are in descending order with the best ask at the end
    pub asks: Vec<Order>,
    pub event_log: Vec<OrderTicket>,
    pub current_id: usize,
}

impl View for Orderbook {
    type V = Book;

    open spec fn view(&self) -> Book {
        Book { bids: self.bids@, asks: self.asks@, next_id: self.current_id }
    }
}

impl Orderbook {
    /// An empty book.
    pub fn new() -> (book: Self)
        ensures
            book@.wf(),
            book@.bids.len() == 0,
            book@.asks.len() == 0,
            book@.next_id == 0,
            book.symbol == BTC,
    {
        Self {
            symbol: BTC,
            bids: Vec::with_capacity(INITIAL_ORDERBOOK_SIZE),
            asks: Vec::with_capacity(INITIAL_ORDERBOOK_SIZE),
            event_log: Vec::with_capacity(INITIAL_ORDERBOOK_SIZE * 3),
            current_id: 0,
        }
    }

    fn get_top_of_book(&self, side: Side) -> (top: Option<&Order>)
        ensures
            top == if self@.own(side).len() > 0 {
                Some(&self@.own(side).last())
            } else {
                None
            },
    {
        match side {
            Side::Buy => {
                if self.bids.len() > 0 {
                    Some(&self.bids[self.bids.len() - 1])
                } else {
                    None
                }
            },
            Side::Sell => {
                if self.asks.len() > 0 {
                    Some(&self.asks[self.asks.len() - 1])
                } else {
                    None
                }
            },
        }
    }

    /// The order that a seller trades with first: the last of the bids.
    pub fn get_best_bid(&self) -> (top: Option<&Order>)
        ensures
            top == if self@.bids.len() > 0 {
                Some(&self@.bids.last())
            } else {
                None
            },
    {
        self.get_top_of_book(Side::Buy)
    }

    /// The order that a buyer trades with first: the last of the asks.
    pub fn get_best_ask(&self) -> (top: Option<&Order>)
        ensures
            top == if self@.asks.len() > 0 {
                Some(&self@.asks.last())
            } else {
                None
            },
    {
        self.get_top_of_book(Side::Sell)
    }

    /// The sum of the sizes of the orders that rest on `side`.
    pub fn total_liquidity(&self, side: Side) -> (total: i64)
        requires
            self@.wf(),
        ensures
            total == side_size(self@.own(side)),
    {
        let half = match side {
            Side::Buy => &self.bids,
            Side::Sell => &self.asks,
        };
        proof {
            lemma_side_prefix(half@, 0);
        }
        let mut total: i64 = 0;
        let mut i: usize = 0;
        while i < half.len()
            invariant
                i <= half@.len(),
                half@ == self@.own(side),
                forall|k: int| 0 <= k < half@.len() ==> (#[trigger] half@[k]).size > 0 && half@[k].price > 0,
                side_value(half@) <= i64::MAX,
                total == side_size(half@.take(i as int)),
            decreases half@.len() - i,
        {
            proof {
                lemma_side_prefix(half@, i as int + 1);
                assert(half@.take(i as int + 1).drop_last() =~= half@.take(i as int));
            }
            total = total + half[i].size;
            i += 1;
        }
        proof {
            assert(half@.take(i as int) =~= half@);
        }
        total
    }

    /// Serves one ticket. A market order trades against the opposite side.
    /// A limit order that crosses the opposite side trades like a market
    /// order; one that does not cross rests under a fresh identifier.
    pub fn accept_order(&mut self, order_ticket: OrderTicket) -> (result: Result<
        OrderResponse,
        Error,
    >)
        requires
            old(self)@.wf(),
            old(self)@.admits(order_ticket),
        ensures
            final(self)@.wf(),
            (final(self)@, result) == old(self)@.accept(order_ticket),
            final(self).symbol == old(self).symbol,
            final(self).event_log == old(self).event_log,
    {
        let r = match order_ticket.order_type {
            OrderType::Market => {
                match self.handle_taker(order_ticket.side, order_ticket.size) {
                    Ok(response) => Ok(OrderResponse::Market(response)),
                    Err(e) => Err(e),
                }
            },
            OrderType::Limit(price) => {
                let crosses_book = match order_ticket.side {
                    Side::Buy => match self.get_best_ask() {
                        Some(order) => order.price <= price,
                        None => false,
                    },
                    Side::Sell => match self.get_best_bid() {
                        Some(order) => order.price >= price,
                        None => false,
                    },
                };
                if crosses_book {
                    match self.handle_taker(order_ticket.side, order_ticket.size) {
                        Ok(response) => Ok(OrderResponse::Market(response)),
                        Err(e) => Err(e),
                    }
                } else {
                    match self.handle_maker(order_ticket.side, price, order_ticket.size) {
                        Ok(response) => Ok(OrderResponse::Limit(response)),
                        Err(e) => Err(e),
                    }
                }
            },
        };
        r
    }

    /// Taker is going to eat away all of the liquidity at the top of the orderbook,
    /// filling itself up until there are no more
    fn handle_taker(&mut self, side: Side, size: i64) -> (result: Result<MarketOrderResponse, Error>)
        requires
            old(self)@.wf(),
        ensures
            final(self)@.wf(),
            final(self)@ == old(self)@.take(side, size as int).0,
            match result {
                Ok(response) => old(self)@.take(side, size as int).1 == Ok::<OrderResponse, Error>(
                    OrderResponse::Market(response),
                ),
                Err(e) => old(self)@.take(side, size as int).1 == Err::<OrderResponse, Error>(e),
            },
            final(self).symbol == old(self).symbol,
            final(self).event_log == old(self).event_log,
    {
        if size <= 0 {
            return Err(Error::InvalidOrder);
        }
        let ghost start = self@;
        // takers buy from the asks and sell to the bids
        let ghost opposite = match side {
            Side::Buy => Side::Sell,
            Side::Sell => Side::Buy,
        };
        let mut remaining = size;
        let mut notional: i64 = 0;
        proof {
            lemma_consume_sorted(start.opposite(side), opposite, size as int);
            lemma_consume(start.opposite(side), size as int);
            lemma_side_bounds(start.opposite(side));
        }
        while remaining != 0
            invariant
                start == old(self)@,
                start.wf(),
                size > 0,
                self.symbol == old(self).symbol,
                self.event_log == old(self).event_log,
                self@ == start.with_opposite(side, self@.opposite(side)),
                0 <= remaining,
                0 <= notional,
                forall|i: int|
                    0 <= i < self@.opposite(side).len() ==> (#[trigger] self@.opposite(side)[i]).size
                        > 0 && self@.opposite(side)[i].price > 0,
                notional + side_value(self@.opposite(side)) == side_value(start.opposite(side)),
                side_value(start.opposite(side)) <= i64::MAX,
                consume(start.opposite(side), size as int) == (
                    consume(self@.opposite(side), remaining as int).0,
                    consume(self@.opposite(side), remaining as int).1 + notional,
                    consume(self@.opposite(side), remaining as int).2,
                ),
            decreases
                    self@.opposite(side).len() + if remaining != 0 {
                        1int
                    } else {
                        0int
                    },
        {
            let ghost current = self@.opposite(side);
            let ghost old_remaining = remaining;
            proof {
                lemma_side_bounds(current);
            }
            let half = match side {
                Side::Buy => &mut self.asks,
                Side::Sell => &mut self.bids,
            };
            if half.is_empty() {
                return Err(Error::EmptyBook);
            }
            let elem_index = half.len() - 1;
            let bbo = half[elem_index];
            proof {
                let front = current.drop_last();
                assert forall|i: int| 0 <= i < front.len() implies (#[trigger] front[i]).size > 0
                    && front[i].price > 0 by {
                    assert(front[i] == current[i]);
                }
                lemma_side_bounds(front);
                let s = bbo.size as int;
                let p = bbo.price as int;
                let r = remaining as int;
                assert(0 <= r * p <= s * p || r >= s) by (nonlinear_arith)
                    requires
                        r >= 0,
                        s > 0,
                        p > 0,
                ;
                assert((s - r) * p == s * p - r * p) by (nonlinear_arith);
            }
            // we can fill the whole order at this level
            if bbo.size > remaining {
                notional = notional + remaining * bbo.price;
                half[elem_index].size = bbo.size - remaining;
                remaining = 0;
                proof {
                    let left = self@.opposite(side);
                    assert(left =~= current.update(
                        current.len() - 1,
                        Order { size: (bbo.size - old_remaining) as i64, ..bbo },
                    ));
                    assert(left.drop_last() =~= current.drop_last());
                }
            }
            // we will have to remove this level and try the next
            else {
                notional = notional + bbo.size * bbo.price;
                remaining = remaining - bbo.size;
                half.remove(elem_index);
                proof {
                    assert(self@.opposite(side) =~= current.drop_last());
                }
            }
        }
        Ok(MarketOrderResponse { notional, size: remaining })
    }

    fn handle_maker(&mut self, side: Side, price: i64, size: i64) -> (result: Result<
        LimitOrderResponse,
        Error,
    >)
        requires
            old(self)@.wf(),
            !old(self)@.crosses(side, price as int),
            size > 0 && price > 0 ==> old(self)@.next_id < usize::MAX && side_value(
                old(self)@.own(side),
            ) + size * price <= i64::MAX,
        ensures
            final(self)@.wf(),
            final(self)@ == old(self)@.make(side, price as int, size as int).0,
            match result {
                Ok(response) => old(self)@.make(side, price as int, size as int).1 == Ok::<
                    OrderResponse,
                    Error,
                >(OrderResponse::Limit(response)),
                Err(e) => old(self)@.make(side, price as int, size as int).1 == Err::<
                    OrderResponse,
                    Error,
                >(e),
            },
            final(self).symbol == old(self).symbol,
            final(self).event_log == old(self).event_log,
    {
        if size <= 0 || price <= 0 {
            return Err(Error::InvalidOrder);
        }
        let ghost start = self@;
        let ghost own = start.own(side);
        let id = self.get_next_id();

        let new_order = Order { id, price, size };
        let response = LimitOrderResponse { id };
        proof {
            lemma_position(own, side, price as int);
            lemma_insert_sorted(own, side, new_order);
            lemma_side_insert(own, position(own, side, price as int), new_order);
        }

        let half = match side {
            Side::Buy => &self.bids,
            Side::Sell => &self.asks,
        };
        proof {
            assert(own.take(own.len() as int) =~= own);
        }
        let mut place: usize = 0;
        // counting backwards because the vecs are in reverse order
        let mut index: usize = half.len();
        while index > 0
            invariant_except_break
                place == 0,
                position(own, side, price as int) == position(
                    own.take(index as int),
                    side,
                    price as int,
                ),
            invariant
                half@ == own,
                index <= own.len(),
                new_order.price == price,
            ensures
                place == position(own, side, price as int),
            decreases index,
        {
            index -= 1;
            let order = half[index];
            proof {
                assert(own.take(index + 1).last() == own[index as int]);
                assert(own.take(index + 1).drop_last() =~= own.take(index as int));
            }
            let stays_ahead = match side {
                // asks need to be descending and have the smallest ask at the end
                Side::Sell => order.price > new_order.price,
                // bids need to be ascending and have the biggest at the end
                Side::Buy => order.price < new_order.price,
            };
            if stays_ahead {
                place = index + 1;
                break;
            }
        }
        match side {
            Side::Buy => self.bids.insert(place, new_order),
            Side::Sell => self.asks.insert(place, new_order),
        }
        Ok(response)
    }

    fn get_next_id(&mut self) -> (id: usize)
        requires
            old(self).current_id < usize::MAX,
        ensures
            id == old(self).current_id,
            final(self).current_id == old(self).current_id + 1,
            final(self).bids == old(self).bids,
            final(self).asks == old(self).asks,
            final(self).event_log == old(self).event_log,
            final(self).symbol == old(self).symbol,
    {
        let id = self.current_id;
        self.current_id += 1;
        id
    }
}

/// The sum of the sizes of the first orders of a side of positive sizes is
/// at most the size of the side.
pub proof fn lemma_side_prefix(half: Seq<Order>, i: int)
    requires
        0 <= i <= half.len(),
        forall|k: int| 0 <= k < half.len() ==> (#[trigger] half[k]).size > 0 && half[k].price > 0,
    ensures
        0 <= side_size(half.take(i)) <= side_size(half) <= side_value(half),
    decreases half.len() - i,
{
    lemma_side_bounds(half);
    assert forall|k: int| 0 <= k < half.take(i).len() implies (#[trigger] half.take(i)[k]).size > 0
        && half.take(i)[k].price > 0 by {
        assert(half.take(i)[k] == half[k]);
    }
    lemma_side_bounds(half.take(i));
    if i == half.len() {
        assert(half.take(i) =~= half);
    } else {
        lemma_side_prefix(half, i + 1);
        assert(half.take(i + 1).drop_last() =~= half.take(i));
    }
}

} // verus!
