//! The tickets, orders and answers of the vector book.

use vstd::prelude::*;

verus! {

/// Market orders trade at once; limit orders name the worst price they accept.
#[derive(Copy, Clone, Debug, PartialEq, Eq, Structural)]
pub enum OrderType {
    Market,
    Limit(i64),
}

/// Which side of the market an order belongs to.
#[derive(Copy, Clone, Debug, PartialEq, Eq, Structural)]
pub enum Side {
    Buy,
    Sell,
}

/// A request to trade.
#[derive(Copy, Clone, Debug, PartialEq, Eq, Structural)]
pub struct OrderTicket {
    pub order_type: OrderType,
    pub size: i64,
    pub side: Side,
}

/// A resting order.
#[derive(Copy, Clone, Debug, PartialEq, Eq, Structural)]
pub struct Order {
    pub id: usize,
    pub price: i64,
    pub size: i64,
}

/// What the book answers to an accepted ticket.
#[derive(Copy, Clone, Debug, PartialEq, Eq, Structural)]
pub enum OrderResponse {
    Market(MarketOrderResponse),
    Limit(LimitOrderResponse),
}

/// How much cash a taker traded, and how much of its size was left.
#[derive(Copy, Clone, Debug, PartialEq, Eq, Structural)]
pub struct MarketOrderResponse {
    pub notional: i64,
    pub size: i64,
}

/// The identifier under which a maker rests.
#[derive(Copy, Clone, Debug, PartialEq, Eq, Structural)]
pub struct LimitOrderResponse {
    pub id: usize,
}

} // verus!
