use orderbook::orderbook::{Orderbook, BTC};
use orderbook::orders::{
    LimitOrderResponse, MarketOrderResponse, Order, OrderResponse, OrderTicket, OrderType, Side,
};
use orderbook::Error;

fn limit(side: Side, price: i64, size: i64) -> OrderTicket {
    OrderTicket { order_type: OrderType::Limit(price), size, side }
}

fn market(side: Side, size: i64) -> OrderTicket {
    OrderTicket { order_type: OrderType::Market, size, side }
}

fn prices(half: &[Order]) -> Vec<i64> {
    half.iter().map(|order| order.price).collect()
}

fn ids(half: &[Order]) -> Vec<usize> {
    half.iter().map(|order| order.id).collect()
}

#[test]
fn vector_book_starts_empty() {
    let book = Orderbook::new();
    assert_eq!(book.symbol, BTC);
    assert_eq!(book.symbol, 111);
    assert!(book.bids.is_empty());
    assert!(book.asks.is_empty());
    assert!(book.event_log.is_empty());
    assert_eq!(book.current_id, 0);
    assert_eq!(book.get_best_bid(), None);
    assert_eq!(book.get_best_ask(), None);
    assert_eq!(book.total_liquidity(Side::Buy), 0);
    assert_eq!(book.total_liquidity(Side::Sell), 0);
}

#[test]
fn bids_are_kept_ascending_with_the_earlier_order_nearer_the_end() {
    let mut book = Orderbook::new();
    for price in [100, 120, 110, 120, 90, 110] {
        book.accept_order(limit(Side::Buy, price, 1)).unwrap();
    }
    assert_eq!(prices(&book.bids), vec![90, 100, 110, 110, 120, 120]);
    assert_eq!(ids(&book.bids), vec![4, 0, 5, 2, 3, 1]);
    assert_eq!(book.get_best_bid(), Some(&Order { id: 1, price: 120, size: 1 }));
}

#[test]
fn asks_are_kept_descending_with_the_earlier_order_nearer_the_end() {
    let mut book = Orderbook::new();
    for price in [100, 120, 110, 120, 90, 110] {
        book.accept_order(limit(Side::Sell, price, 1)).unwrap();
    }
    assert_eq!(prices(&book.asks), vec![120, 120, 110, 110, 100, 90]);
    assert_eq!(ids(&book.asks), vec![3, 1, 5, 2, 0, 4]);
    assert_eq!(book.get_best_ask(), Some(&Order { id: 4, price: 90, size: 1 }));
}

#[test]
fn vector_taker_trades_best_price_first() {
    let mut book = Orderbook::new();
    book.accept_order(limit(Side::Sell, 100, 10)).unwrap();
    book.accept_order(limit(Side::Sell, 101, 10)).unwrap();
    book.accept_order(limit(Side::Sell, 102, 10)).unwrap();
    assert_eq!(
        book.accept_order(market(Side::Buy, 25)),
        Ok(OrderResponse::Market(MarketOrderResponse {
            notional: 10 * 100 + 10 * 101 + 5 * 102,
            size: 0
        }))
    );
    assert_eq!(book.asks, vec![Order { id: 2, price: 102, size: 5 }]);
    assert_eq!(book.total_liquidity(Side::Sell), 5);
}

#[test]
fn vector_taker_that_empties_the_side_is_refused() {
    let mut book = Orderbook::new();
    book.accept_order(limit(Side::Buy, 10, 3)).unwrap();
    book.accept_order(limit(Side::Buy, 11, 3)).unwrap();
    assert_eq!(book.accept_order(market(Side::Sell, 7)), Err(Error::EmptyBook));
    assert!(book.bids.is_empty());
    assert_eq!(book.total_liquidity(Side::Buy), 0);
}

#[test]
fn vector_taker_that_takes_exactly_the_side_is_filled() {
    let mut book = Orderbook::new();
    book.accept_order(limit(Side::Buy, 10, 3)).unwrap();
    book.accept_order(limit(Side::Buy, 11, 3)).unwrap();
    assert_eq!(
        book.accept_order(market(Side::Sell, 6)),
        Ok(OrderResponse::Market(MarketOrderResponse { notional: 63, size: 0 }))
    );
    assert!(book.bids.is_empty());
}

#[test]
fn vector_book_refuses_sizes_and_prices_that_are_not_positive() {
    let mut book = Orderbook::new();
    assert_eq!(book.accept_order(limit(Side::Buy, 10, 0)), Err(Error::InvalidOrder));
    assert_eq!(book.accept_order(limit(Side::Buy, 10, -1)), Err(Error::InvalidOrder));
    assert_eq!(book.accept_order(limit(Side::Sell, 0, 5)), Err(Error::InvalidOrder));
    assert_eq!(book.accept_order(limit(Side::Sell, -3, 5)), Err(Error::InvalidOrder));
    assert_eq!(book.accept_order(market(Side::Sell, 0)), Err(Error::InvalidOrder));
    assert_eq!(book.accept_order(market(Side::Buy, -2)), Err(Error::InvalidOrder));
    assert_eq!(book.current_id, 0);
    assert_eq!(
        book.accept_order(limit(Side::Buy, 10, 1)),
        Ok(OrderResponse::Limit(LimitOrderResponse { id: 0 }))
    );
}

#[test]
fn vector_limit_that_crosses_trades_and_does_not_rest() {
    let mut book = Orderbook::new();
    book.accept_order(limit(Side::Sell, 100, 10)).unwrap();
    assert_eq!(
        book.accept_order(limit(Side::Buy, 100, 4)),
        Ok(OrderResponse::Market(MarketOrderResponse { notional: 400, size: 0 }))
    );
    assert!(book.bids.is_empty());
    assert_eq!(book.asks, vec![Order { id: 0, price: 100, size: 6 }]);
    assert_eq!(book.current_id, 1);
    book.accept_order(limit(Side::Buy, 99, 4)).unwrap();
    assert_eq!(
        book.accept_order(limit(Side::Sell, 98, 1)),
        Ok(OrderResponse::Market(MarketOrderResponse { notional: 99, size: 0 }))
    );
    assert_eq!(book.bids, vec![Order { id: 1, price: 99, size: 3 }]);
}
