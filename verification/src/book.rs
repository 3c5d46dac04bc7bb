//! The order book: a buy side and a sell side, and the rule that decides
//! whether a ticket trades or rests.

use vstd::prelude::*;
use crate::grid::{lemma_price_monotonic, lemma_valid_price_index};
use crate::half::HalfBook;
use crate::ladder::Ladder;
use crate::matching::{lemma_remains_best, lemma_remains_holds, lemma_sweep};
use crate::moves::{lemma_insert_best, lemma_insert_index};
use crate::priority::lemma_best_is_best;
use crate::{
    Error,
    LimitOrderResponse,
    MarketOrderResponse,
    OrderResponse,
    OrderTicket,
    OrderType,
    PriceSize,
    Side,
};

verus! {

/// The lowest price of the book.
pub const MIN_PRICE: i64 = 1;

/// The highest price of the book.
pub const MAX_PRICE: i64 = 999999;

/// The distance between two prices of the book.
pub const TICK_SIZE: i64 = 1;

/// The model of an order book: the ladders of its two sides and the
/// identifier that the next resting order gets.
pub struct Market {
    pub bids: Ladder,
    pub asks: Ladder,
    pub next_id: u64,
}

impl Market {
    /// The ladder on which orders of `side` rest.
    pub open spec fn own(self, side: Side) -> Ladder {
        match side {
            Side::Buy => self.bids,
            Side::Sell => self.asks,
        }
    }

    /// The ladder against which orders of `side` trade.
    pub open spec fn opposite(self, side: Side) -> Ladder {
        match side {
            Side::Buy => self.asks,
            Side::Sell => self.bids,
        }
    }

    /// The market with `ladder` in place of the ladder of `side`.
    pub open spec fn with(self, side: Side, ladder: Ladder) -> Market {
        match side {
            Side::Buy => Market { bids: ladder, ..self },
            Side::Sell => Market { asks: ladder, ..self },
        }
    }

    /// A limit order of `side` at `price` would trade at once: the best
    /// price of the opposite side is at least as good as `price`.
    pub open spec fn crosses(self, side: Side, price: int) -> bool {
        match self.opposite(side).top() {
            Some((best, _)) => match side {
                Side::Buy => best <= price,
                Side::Sell => best >= price,
            },
            None => false,
        }
    }

    /// The best bid is lower than the best ask, where both exist.
    pub open spec fn uncrossed(self) -> bool {
        match (self.bids.top(), self.asks.top()) {
            (Some((bid, _)), Some((ask, _))) => bid < ask,
            _ => true,
        }
    }

    /// Every identifier that rests is smaller than the next one to be given.
    pub open spec fn ids_below(self) -> bool {
        forall|id: u64|
            #![trigger self.bids.holds(id)]
            #![trigger self.asks.holds(id)]
            self.bids.holds(id) || self.asks.holds(id) ==> id < self.next_id
    }

    /// What holds of every market that the operations produce.
    pub open spec fn wf(self) -> bool {
        &&& self.bids.wf()
        &&& self.asks.wf()
        &&& self.bids.side == Side::Buy
        &&& self.asks.side == Side::Sell
        &&& self.bids.min_price == MIN_PRICE && self.asks.min_price == MIN_PRICE
        &&& self.bids.max_price == MAX_PRICE && self.asks.max_price == MAX_PRICE
        &&& self.bids.tick_size == TICK_SIZE && self.asks.tick_size == TICK_SIZE
        &&& self.uncrossed()
        &&& self.ids_below()
    }

    /// A taker of `side` trades `size` against the opposite ladder. A size
    /// that is not positive is refused.
    pub open spec fn take(self, side: Side, size: int) -> (Market, Result<OrderResponse, Error>) {
        if size <= 0 {
            (self, Err(Error::InvalidOrder))
        } else {
            let (rest, cash) = self.opposite(side).match_size(size);
            (
                self.with(side.opposite(), rest),
                Ok(
                    OrderResponse::Market(
                        MarketOrderResponse { notional: cash as i64, size: size as i64 },
                    ),
                ),
            )
        }
    }

    /// A maker of `side` takes the next identifier and rests at `price`.
    /// The identifier is spent even if the order is refused.
    pub open spec fn make(self, side: Side, price: int, size: int) -> (
        Market,
        Result<OrderResponse, Error>,
    ) {
        let spent = Market { next_id: (self.next_id + 1) as u64, ..self };
        if self.own(side).accepts(price, size) {
            (
                spent.with(side, self.own(side).insert(self.next_id, price, size)),
                Ok(OrderResponse::Limit(LimitOrderResponse { id: self.next_id })),
            )
        } else {
            (spent, Err(Error::InvalidOrder))
        }
    }

    /// What a ticket does to the market, and what is answered. A market
    /// order trades. A limit order that crosses the opposite side trades
    /// like a market order, all of it; one that does not cross rests.
    pub open spec fn accept(self, ticket: OrderTicket) -> (Market, Result<OrderResponse, Error>) {
        match ticket.order_type {
            OrderType::Market => self.take(ticket.side, ticket.size as int),
            OrderType::Limit(price) => if self.crosses(ticket.side, price as int) {
                self.take(ticket.side, ticket.size as int)
            } else {
                self.make(ticket.side, price as int, ticket.size as int)
            },
        }
    }

    /// How the aggregates of `self` have moved when `ticket` has led to
    /// `after` and `result`: a maker adds its size and its cash to its own
    /// side, a taker takes what it traded from the opposite side, and a
    /// refused ticket leaves both sides as they were.
    pub open spec fn settles(
        self,
        ticket: OrderTicket,
        after: Market,
        result: Result<OrderResponse, Error>,
    ) -> bool {
        let side = ticket.side;
        match result {
            Ok(OrderResponse::Limit(_)) => {
                &&& ticket.order_type matches OrderType::Limit(price)
                &&& after.own(side).value() == self.own(side).value() + ticket.size * price
                &&& after.own(side).total_liquidity() == self.own(side).total_liquidity()
                    + ticket.size
                &&& after.opposite(side) == self.opposite(side)
            },
            Ok(OrderResponse::Market(response)) => {
                &&& after.opposite(side).value() == self.opposite(side).value() - response.notional
                &&& after.opposite(side).total_liquidity() == if ticket.size <= self.opposite(
                    side,
                ).total_liquidity() {
                    self.opposite(side).total_liquidity() - ticket.size
                } else {
                    0
                }
                &&& after.own(side) == self.own(side)
            },
            Err(_) => after.bids == self.bids && after.asks == self.asks,
        }
    }

    /// The ticket can be served within the limits of the machine: if it
    /// rests, an identifier is left for it, and the cash value of its side
    /// with the new order fits the type in which it is reported.
    pub open spec fn admits(self, ticket: OrderTicket) -> bool {
        match ticket.order_type {
            OrderType::Market => true,
            OrderType::Limit(price) => self.crosses(ticket.side, price as int) || {
                &&& self.next_id < u64::MAX
                &&& self.own(ticket.side).accepts(price as int, ticket.size as int) ==> self.own(
                    ticket.side,
                ).value() + ticket.size * price <= i64::MAX
            },
        }
    }
}

/// A valid market stays valid under every ticket that it admits: its
/// sides stay valid ladders, it does not cross, and no resting identifier
/// reaches the next one to be given.
pub proof fn law_accept_valid(m: Market, ticket: OrderTicket)
    requires
        m.wf(),
        m.admits(ticket),
        m.own(ticket.side).free.len() == 0 ==> m.own(ticket.side).arena_len < usize::MAX,
    ensures
        m.accept(ticket).0.wf(),
{
    let side = ticket.side;
    let size = ticket.size as int;
    let takes = match ticket.order_type {
        OrderType::Market => true,
        OrderType::Limit(price) => m.crosses(side, price as int),
    };
    if takes {
        if size > 0 {
            law_take_valid(m, side, size);
        }
    } else {
        let price = match ticket.order_type {
            OrderType::Market => 0,
            OrderType::Limit(price) => price as int,
        };
        law_make_valid(m, side, price, size);
    }
}

/// A valid market stays valid when a taker trades against it.
pub proof fn law_take_valid(m: Market, side: Side, size: int)
    requires
        m.wf(),
        size > 0,
    ensures
        m.take(side, size).0.wf(),
{
    let opposite = m.opposite(side);
    let rest = opposite.match_size(size).0;
    lemma_sweep(opposite, opposite.start(), size);
    lemma_remains_best(opposite, rest);
    lemma_best_is_best(m.bids);
    lemma_best_is_best(m.asks);
    lemma_best_is_best(rest);
    assert forall|id: u64| rest.holds(id) implies opposite.holds(id) by {
        lemma_remains_holds(opposite, rest, id);
    }
    if rest.best() is Some && m.own(side).best() is Some {
        lemma_price_monotonic(opposite, rest.best().unwrap(), opposite.best().unwrap());
    }
}

/// A valid market stays valid when a maker that does not cross rests, and
/// when a maker is refused.
pub proof fn law_make_valid(m: Market, side: Side, price: int, size: int)
    requires
        m.wf(),
        !m.crosses(side, price),
        m.next_id < u64::MAX,
        m.own(side).accepts(price, size) ==> m.own(side).value() + size * price <= i64::MAX,
        m.own(side).free.len() == 0 ==> m.own(side).arena_len < usize::MAX,
    ensures
        m.make(side, price, size).0.wf(),
{
    let own = m.own(side);
    let id = m.next_id;
    if own.accepts(price, size) {
        assert(!own.holds(id));
        lemma_valid_price_index(own, price);
        crate::moves::lemma_insert_wf(own, id, price, size);
        lemma_insert_index(own, id, price, size);
        lemma_insert_best(own, id, price, size);
        lemma_best_is_best(own);
        lemma_best_is_best(m.opposite(side));
        if own.best() is Some {
            lemma_price_monotonic(own, own.index_of(price), own.best().unwrap());
        }
    }
}

/// The order book of one instrument.
pub struct Orderbook {
    /// Bids are an arena
    pub bids: HalfBook,
    /// Asks are an arena
    pub asks: HalfBook,
    pub event_log: Vec<OrderTicket>,
    pub current_id: u64,
}

impl View for Orderbook {
    type V = Market;

    open spec fn view(&self) -> Market {
        Market { bids: self.bids@, asks: self.asks@, next_id: self.current_id }
    }
}

impl Orderbook {
    /// Both sides are valid books, and together they are a valid market.
    pub open spec fn wf(&self) -> bool {
        &&& self.bids.wf()
        &&& self.asks.wf()
        &&& self@.wf()
    }

    /// No crossed book: where a bid and an ask rest, the best bid is lower
    /// than the best ask.
    pub proof fn law_uncrossed(&self)
        requires
            self.wf(),
        ensures
            match (self@.bids.top(), self@.asks.top()) {
                (Some((bid, _)), Some((ask, _))) => bid < ask,
                _ => true,
            },
    {
    }

    /// An empty book.
    pub fn new() -> (book: Self)
        ensures
            book.wf(),
            book@.bids.total_liquidity() == 0,
            book@.asks.total_liquidity() == 0,
            book@.bids.best() is None,
            book@.asks.best() is None,
            book@.bids.value() == 0,
            book@.asks.value() == 0,
            book@.next_id == 0,
            book.event_log@.len() == 0,
    {
        let bids = HalfBook::new(Side::Buy, MAX_PRICE, MIN_PRICE, TICK_SIZE);
        let asks = HalfBook::new(Side::Sell, MAX_PRICE, MIN_PRICE, TICK_SIZE);
        proof {
            crate::grid::lemma_empty_aggregates(bids@);
            crate::grid::lemma_empty_aggregates(asks@);
            crate::priority::lemma_best_none(bids@);
            crate::priority::lemma_best_none(asks@);
        }
        Self { bids, asks, event_log: Vec::with_capacity(1000), current_id: 0 }
    }

    fn get_top_of_book(&self, side: Side) -> (top: Option<PriceSize>)
        requires
            self.wf(),
        ensures
            top == match self@.own(side).top() {
                Some((price, size)) => Some(PriceSize { price: price as i64, size: size as i64 }),
                None => None,
            },
            top is Some ==> top.unwrap().price == self@.own(side).top().unwrap().0
                && top.unwrap().size == self@.own(side).top().unwrap().1,
    {
        match side {
            Side::Sell => self.asks.get_top_of_book(),
            Side::Buy => self.bids.get_top_of_book(),
        }
    }

    /// The highest price at which a buy order rests, and the total size there.
    pub fn get_best_bid(&self) -> (top: Option<PriceSize>)
        requires
            self.wf(),
        ensures
            top == match self@.bids.top() {
                Some((price, size)) => Some(PriceSize { price: price as i64, size: size as i64 }),
                None => None,
            },
            top is Some ==> top.unwrap().price == self@.bids.top().unwrap().0 && top.unwrap().size
                == self@.bids.top().unwrap().1,
    {
        self.get_top_of_book(Side::Buy)
    }

    /// The lowest price at which a sell order rests, and the total size there.
    pub fn get_best_ask(&self) -> (top: Option<PriceSize>)
        requires
            self.wf(),
        ensures
            top == match self@.asks.top() {
                Some((price, size)) => Some(PriceSize { price: price as i64, size: size as i64 }),
                None => None,
            },
            top is Some ==> top.unwrap().price == self@.asks.top().unwrap().0 && top.unwrap().size
                == self@.asks.top().unwrap().1,
    {
        self.get_top_of_book(Side::Sell)
    }

    /// The sum of the remaining sizes of the orders that rest on `side`.
    pub fn total_liquidity(&self, side: Side) -> (total: i64)
        requires
            self.wf(),
        ensures
            total == self@.own(side).total_liquidity(),
    {
        match side {
            Side::Sell => self.asks.get_total_liquidity(),
            Side::Buy => self.bids.get_total_liquidity(),
        }
    }

    /// Serves one ticket. A market order trades against the opposite side.
    /// A limit order that crosses the opposite side trades like a market
    /// order and never rests; one that does not cross rests under a fresh
    /// identifier, which the answer names.
    pub fn accept_order(&mut self, order_ticket: OrderTicket) -> (result: Result<
        OrderResponse,
        Error,
    >)
        requires
            old(self).wf(),
            old(self)@.admits(order_ticket),
        ensures
            final(self).wf(),
            (final(self)@, result) == old(self)@.accept(order_ticket),
            final(self).event_log == old(self).event_log,
            old(self)@.settles(order_ticket, final(self)@, result),
    {
        match order_ticket.order_type {
            OrderType::Market => {
                match self.handle_taker(order_ticket.side, order_ticket.size) {
                    Ok(response) => Ok(OrderResponse::Market(response)),
                    Err(e) => Err(e),
                }
            },
            OrderType::Limit(price) => {
                let crosses_book = match order_ticket.side {
                    Side::Buy => match self.get_best_ask() {
                        Some(order) => order.price <= price,
                        None => false,
                    },
                    Side::Sell => match self.get_best_bid() {
                        Some(order) => order.price >= price,
                        None => false,
                    },
                };
                if crosses_book {
                    match self.handle_taker(order_ticket.side, order_ticket.size) {
                        Ok(response) => Ok(OrderResponse::Market(response)),
                        Err(e) => Err(e),
                    }
                } else {
                    match self.handle_maker(order_ticket.side, price, order_ticket.size) {
                        Ok(response) => Ok(OrderResponse::Limit(response)),
                        Err(e) => Err(e),
                    }
                }
            },
        }
    }

    fn handle_taker(&mut self, side: Side, size: i64) -> (result: Result<MarketOrderResponse, Error>)
        requires
            old(self).wf(),
        ensures
            final(self).wf(),
            final(self)@ == old(self)@.take(side, size as int).0,
            match result {
                Ok(response) => old(self)@.take(side, size as int).1 == Ok::<OrderResponse, Error>(
                    OrderResponse::Market(response),
                ),
                Err(e) => old(self)@.take(side, size as int).1 == Err::<OrderResponse, Error>(e),
            },
            final(self).event_log == old(self).event_log,
            final(self)@.own(side) == old(self)@.own(side),
            match result {
                Ok(response) => {
                    &&& final(self)@.opposite(side).value() == old(self)@.opposite(side).value()
                        - response.notional
                    &&& final(self)@.opposite(side).total_liquidity() == if size <= old(
                        self,
                    )@.opposite(side).total_liquidity() {
                        old(self)@.opposite(side).total_liquidity() - size
                    } else {
                        0
                    }
                },
                Err(_) => final(self)@.opposite(side) == old(self)@.opposite(side),
            },
    {
        let ghost before = self@;
        proof {
            self.bids.lemma_wf();
            self.asks.lemma_wf();
            if size > 0 {
                law_take_valid(before, side, size as int);
            }
        }
        let notional = match side {
            Side::Sell => match self.bids.match_size(size) {
                Ok(notional) => notional,
                Err(e) => {
                    return Err(e);
                },
            },
            Side::Buy => match self.asks.match_size(size) {
                Ok(notional) => notional,
                Err(e) => {
                    return Err(e);
                },
            },
        };
        Ok(MarketOrderResponse { notional, size })
    }

    fn handle_maker(&mut self, side: Side, price: i64, size: i64) -> (result: Result<
        LimitOrderResponse,
        Error,
    >)
        requires
            old(self).wf(),
            !old(self)@.crosses(side, price as int),
            old(self)@.next_id < u64::MAX,
            old(self)@.own(side).accepts(price as int, size as int) ==> old(self)@.own(side).value()
                + size * price <= i64::MAX,
        ensures
            final(self).wf(),
            final(self)@ == old(self)@.make(side, price as int, size as int).0,
            match result {
                Ok(response) => old(self)@.make(side, price as int, size as int).1 == Ok::<
                    OrderResponse,
                    Error,
                >(OrderResponse::Limit(response)),
                Err(e) => old(self)@.make(side, price as int, size as int).1 == Err::<
                    OrderResponse,
                    Error,
                >(e),
            },
            final(self).event_log == old(self).event_log,
            final(self)@.opposite(side) == old(self)@.opposite(side),
            match result {
                Ok(_) => {
                    &&& final(self)@.own(side).value() == old(self)@.own(side).value() + size
                        * price
                    &&& final(self)@.own(side).total_liquidity() == old(self)@.own(
                        side,
                    ).total_liquidity() + size
                },
                Err(_) => final(self)@.own(side) == old(self)@.own(side),
            },
    {
        let ghost before = self@;
        let id = self.get_next_id();
        proof {
            self.bids.lemma_wf();
            self.asks.lemma_wf();
            assert(!before.own(side).holds(id));
        }
        match side {
            Side::Sell => match self.asks.insert(id, price, size) {
                Ok(_) => {},
                Err(e) => {
                    return Err(e);
                },
            },
            Side::Buy => match self.bids.insert(id, price, size) {
                Ok(_) => {},
                Err(e) => {
                    return Err(e);
                },
            },
        };
        proof {
            self.bids.lemma_wf();
            self.asks.lemma_wf();
            let own = before.own(side);
            lemma_valid_price_index(own, price as int);
            lemma_insert_index(own, id, price as int, size as int);
            lemma_insert_best(own, id, price as int, size as int);
            lemma_best_is_best(own);
            lemma_best_is_best(before.opposite(side));
            let l = own.index_of(price as int);
            if own.best() is Some {
                lemma_price_monotonic(own, l, own.best().unwrap());
            }
        }
        Ok(LimitOrderResponse { id })
    }

    fn get_next_id(&mut self) -> (id: u64)
        requires
            old(self).current_id < u64::MAX,
        ensures
            id == old(self).current_id,
            final(self).current_id == old(self).current_id + 1,
            final(self).bids == old(self).bids,
            final(self).asks == old(self).asks,
            final(self).event_log == old(self).event_log,
    {
        let id = self.current_id;
        self.current_id += 1;
        id
    }
}

} // verus!
