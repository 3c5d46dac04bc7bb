use orderbook::orderbook::Orderbook;
use orderbook::orders::{OrderResponse, OrderTicket, OrderType, Side};

fn example_limit(side: Side, price: i64, size: i64) -> OrderTicket {
    OrderTicket {
        order_type: OrderType::Limit(price),
        size,
        side,
    }
}

fn example_market(side: Side, size: i64) -> OrderTicket {
    OrderTicket {
        order_type: OrderType::Market,
        size,
        side,
    }
}

#[test]
fn sanity_check() {
    let x = [10, 9, 8, 7, 6, 5, 4, 3, 2, 1];
    let len = x.len();
    for i in 1..(len + 1) {
        let index = len - i;
        println!("{}", x[index]);
    }
}

#[test]
/// simple insert one limit
/// and then match half and half
fn test_orderbook_case_1() {
    let mut orderbook = Orderbook::new();
    let total_size = 10;

    // insert 1 order
    match orderbook.accept_order(example_limit(Side::Buy, 10, total_size)) {
        Ok(OrderResponse::Limit(res)) => {
            assert_eq!(res.id, 0);
        }
        Ok(OrderResponse::Market(_)) => {
            assert!(false, "We got a market response?");
        }
        Err(e) => {
            assert!(false, "{}", e.message());
        }
    }
    assert_eq!(orderbook.bids.len(), 1);

    // fill half of the order
    match orderbook.accept_order(example_market(Side::Sell, 5)) {
        Ok(OrderResponse::Market(res)) => {
            // fill 5 size at 10 price
            assert_eq!(res.notional, 50);
        }
        Ok(OrderResponse::Limit(_)) => {
            assert!(false, "We got a limit response?");
        }
        Err(e) => {
            assert!(false, "{}", e.message());
        }
    }
    assert_eq!(orderbook.bids.len(), 1);

    // fill last half of the order
    match orderbook.accept_order(example_market(Side::Sell, 5)) {
        Ok(OrderResponse::Market(res)) => {
            // fill 5 size at 10 price
            assert_eq!(res.notional, 50);
        }
        Ok(OrderResponse::Limit(_)) => {
            assert!(false, "We got a limit response?");
        }
        Err(e) => {
            assert!(false, "{}", e.message());
        }
    }
    assert_eq!(orderbook.bids.len(), 0);
}

#[test]
/// simple insert 2 limits
/// and then match both
fn test_orderbook_case_2() {
    let mut orderbook = Orderbook::new();

    // insert 1 order
    match orderbook.accept_order(example_limit(Side::Buy, 10, 5)) {
        Ok(OrderResponse::Limit(res)) => {
            assert_eq!(res.id, 0);
        }
        Ok(OrderResponse::Market(_)) => {
            assert!(false, "We got a market response?");
        }
        Err(e) => {
            assert!(false, "{}", e.message());
        }
    }
    assert_eq!(orderbook.bids.len(), 1);

    // insert 1 order
    match orderbook.accept_order(example_limit(Side::Buy, 10, 5)) {
        Ok(OrderResponse::Limit(res)) => {
            assert_eq!(res.id, 1);
        }
        Ok(OrderResponse::Market(_)) => {
            assert!(false, "We got a market response?");
        }
        Err(e) => {
            assert!(false, "{}", e.message());
        }
    }
    assert_eq!(orderbook.bids.len(), 2);

    // fill both of the orders
    match orderbook.accept_order(example_market(Side::Sell, 10)) {
        Ok(OrderResponse::Market(res)) => {
            assert_eq!(res.notional, 100);
        }
        Ok(OrderResponse::Limit(_)) => {
            assert!(false, "We got a limit response?");
        }
        Err(e) => {
            assert!(false, "{}", e.message());
        }
    }
    assert_eq!(orderbook.bids.len(), 0);
}

#[test]
/// simple insert 3 limits at different prices
/// and then match 2 of them
fn test_orderbook_case_3() {
    let mut orderbook = Orderbook::new();

    // insert 1 order
    match orderbook.accept_order(example_limit(Side::Buy, 100, 5)) {
        Ok(OrderResponse::Limit(res)) => {
            assert_eq!(res.id, 0);
        }
        Ok(OrderResponse::Market(_)) => {
            assert!(false, "We got a market response?");
        }
        Err(e) => {
            assert!(false, "{}", e.message());
        }
    }
    assert_eq!(orderbook.bids.len(), 1);

    // insert 1 order
    match orderbook.accept_order(example_limit(Side::Buy, 120, 5)) {
        Ok(OrderResponse::Limit(res)) => {
            assert_eq!(res.id, 1);
        }
        Ok(OrderResponse::Market(_)) => {
            assert!(false, "We got a market response?");
        }
        Err(e) => {
            assert!(false, "{}", e.message());
        }
    }
    assert_eq!(orderbook.bids.len(), 2);

    // insert 1 order
    match orderbook.accept_order(example_limit(Side::Buy, 110, 5)) {
        Ok(OrderResponse::Limit(res)) => {
            assert_eq!(res.id, 2);
        }
        Ok(OrderResponse::Market(_)) => {
            assert!(false, "We got a market response?");
        }
        Err(e) => {
            assert!(false, "{}", e.message());
        }
    }
    assert_eq!(orderbook.bids.len(), 3);
    // println!("{:?}", orderbook.bids);

    let price = [100, 110, 120];
    for (order, price) in orderbook.bids.iter().zip(price) {
        assert_eq!(order.price, price);
    }

    // fill both of the orders
    match orderbook.accept_order(example_market(Side::Sell, 10)) {
        Ok(OrderResponse::Market(res)) => {
            // fill 0.5 size at 0.1 price
            assert_eq!(res.notional, 1150);
        }
        Ok(OrderResponse::Limit(_)) => {
            assert!(false, "We got a limit response?");
        }
        Err(e) => {
            assert!(false, "{}", e.message());
        }
    }
    assert_eq!(orderbook.bids.len(), 1);
}

// prove fifo
#[test]
fn test_orderbook_case_4() {
    let mut orderbook = Orderbook::new();
    let bid = Side::Buy;
    let ask = Side::Sell;

    // place order with id 0
    orderbook.accept_order(example_limit(bid, 2, 1)).unwrap();
    // placeorder with id 1
    orderbook.accept_order(example_limit(bid, 2, 1)).unwrap();
    // place order with id 2
    orderbook.accept_order(example_limit(bid, 2, 1)).unwrap();

    // first order is top of book
    assert_eq!(orderbook.get_best_bid().unwrap().id, 0);

    // fill order with id 0
    orderbook.accept_order(example_market(ask, 1)).unwrap();
    assert_eq!(orderbook.get_best_bid().unwrap().id, 1);

    // fill order with id 1
    orderbook.accept_order(example_market(ask, 1)).unwrap();
    assert_eq!(orderbook.get_best_bid().unwrap().id, 2);

    // fill order with id 2
    orderbook.accept_order(example_market(ask, 1)).unwrap();
    assert!(orderbook.get_best_bid().is_none());
    // we are cleared

    // order with id 3
    orderbook.accept_order(example_limit(bid, 2, 1)).unwrap();
    // order with id 4 (below bbo)
    orderbook.accept_order(example_limit(bid, 1, 1)).unwrap();
    // order with id 5
    orderbook.accept_order(example_limit(bid, 2, 1)).unwrap();

    // fill order with id 3
    orderbook.accept_order(example_market(ask, 1)).unwrap();
    assert_eq!(orderbook.get_best_bid().unwrap().id, 5);

    // fill order with id 5
    orderbook.accept_order(example_market(ask, 1)).unwrap();
    assert_eq!(orderbook.get_best_bid().unwrap().id, 4);
}
