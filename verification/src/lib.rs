//! A price-time priority limit order book for one instrument.
//!
//! [`half::HalfBook`] is one side of the book: a ladder of price levels over
//! an arena of orders. [`book::Orderbook`] holds two of them and interprets
//! order tickets. [`orderbook::Orderbook`] is an earlier book that keeps each
//! side as a sorted vector.

use vstd::prelude::*;

pub mod book;
pub mod grid;
pub mod half;
pub mod ladder;
pub mod laws;
pub mod matching;
pub mod moves;
pub mod orderbook;
pub mod orders;
pub mod priority;
pub mod storage;
pub mod sums;

verus! {

/// Why the book refused a request.
#[derive(Copy, Clone, Debug, PartialEq, Eq, Structural)]
pub enum Error {
    /// The size is not positive, or the price is not positive, outside the
    /// range of the book or off its tick grid.
    InvalidOrder,
    /// No resting order has the identifier.
    UnknownId,
    /// The stored book contradicts itself.
    InternalInvariant,
    /// The book ran out of resting orders before the taker was filled.
    EmptyBook,
}

impl Error {
    /// A sentence that describes the error.
    pub fn message(&self) -> (s: String)
        ensures
            s@ == match *self {
                Error::InvalidOrder => "Invalid order"@,
                Error::UnknownId => "This order is not in our ids map"@,
                Error::InternalInvariant => "The book is inconsistent"@,
                Error::EmptyBook => "Not able to fill this order anymore, the book is empty"@,
            },
    {
        match self {
            Error::InvalidOrder => "Invalid order".to_owned(),
            Error::UnknownId => "This order is not in our ids map".to_owned(),
            Error::InternalInvariant => "The book is inconsistent".to_owned(),
            Error::EmptyBook => "Not able to fill this order anymore, the book is empty".to_owned(),
        }
    }
}

/// A price together with the size available at it.
#[derive(Copy, Clone, Debug, PartialEq, Eq, Structural)]
pub struct PriceSize {
    pub price: i64,
    pub size: i64,
}

/// Market orders trade at once; limit orders name the worst price they accept.
#[derive(Copy, Clone, Debug, PartialEq, Eq, Structural)]
pub enum OrderType {
    Market,
    Limit(i64),
}

/// Which side of the market an order or a half-book belongs to.
#[derive(Copy, Clone, Debug, PartialEq, Eq, Structural)]
pub enum Side {
    Buy,
    Sell,
}

impl Side {
    /// The side that a taker on `self` trades against.
    pub open spec fn opposite(self) -> Side {
        match self {
            Side::Buy => Side::Sell,
            Side::Sell => Side::Buy,
        }
    }
}

/// A request to trade.
#[derive(Copy, Clone, Debug, PartialEq, Eq, Structural)]
pub struct OrderTicket {
    pub order_type: OrderType,
    pub size: i64,
    pub side: Side,
}

/// One record of the arena: an order and its links in the queue of its level.
#[derive(Copy, Clone, Debug, PartialEq, Eq, Structural)]
pub struct Order {
    pub id: u64,
    pub price_index: usize,
    pub size: i64,
    pub prev: Option<usize>,
    pub next: Option<usize>,
}

impl Order {
    pub fn new(
        id: u64,
        price_index: usize,
        size: i64,
        prev: Option<usize>,
        next: Option<usize>,
    ) -> (order: Self)
        ensures
            order == (Order { id, price_index, size, prev, next }),
    {
        Self { id, price_index, size, prev, next }
    }

    /// Replaces every field of the record.
    pub fn overwrite(
        &mut self,
        id: u64,
        price_index: usize,
        size: i64,
        prev: Option<usize>,
        next: Option<usize>,
    )
        ensures
            *final(self) == (Order { id, price_index, size, prev, next }),
    {
        self.id = id;
        self.price_index = price_index;
        self.size = size;
        self.prev = prev;
        self.next = next;
    }
}

impl Default for Order {
    fn default() -> (order: Self)
        ensures
            order == (Order { id: 0, price_index: 0, size: 0, prev: None, next: None }),
    {
        Order { id: 0, price_index: 0, size: 0, prev: None, next: None }
    }
}

/// One slot of the ladder: the ends of the queue at a price and its total size.
#[derive(Copy, Clone, Debug, PartialEq, Eq, Structural)]
pub struct PriceLevel {
    pub head: Option<usize>,
    pub tail: Option<usize>,
    pub total_size: i64,
}

impl Default for PriceLevel {
    fn default() -> (level: Self)
        ensures
            level == (PriceLevel { head: None, tail: None, total_size: 0 }),
    {
        PriceLevel { head: None, tail: None, total_size: 0 }
    }
}

/// What the book answers to an accepted ticket.
#[derive(Copy, Clone, Debug, PartialEq, Eq, Structural)]
pub enum OrderResponse {
    Market(MarketOrderResponse),
    Limit(LimitOrderResponse),
}

/// How much cash a taker traded, and the size it asked for.
#[derive(Copy, Clone, Debug, PartialEq, Eq, Structural)]
pub struct MarketOrderResponse {
    pub notional: i64,
    pub size: i64,
}

/// The identifier under which a maker rests, for a later cancel or replace.
#[derive(Copy, Clone, Debug, PartialEq, Eq, Structural)]
pub struct LimitOrderResponse {
    pub id: u64,
}

} // verus!
