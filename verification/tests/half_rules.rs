use orderbook::half::HalfBook;
use orderbook::{Error, Order, PriceLevel, PriceSize, Side};

fn asks() -> HalfBook {
    HalfBook::new(Side::Sell, 9, 1, 1)
}

fn bids() -> HalfBook {
    HalfBook::new(Side::Buy, 9, 1, 1)
}

fn top(book: &HalfBook) -> Option<(i64, i64)> {
    book.get_top_of_book().map(|PriceSize { price, size }| (price, size))
}

fn size_of(book: &HalfBook, id: u64) -> i64 {
    book.arena()[*book.ids().get(&id).unwrap()].size
}

#[test]
fn new_book_is_empty_and_every_slot_is_free() {
    let book = HalfBook::new(Side::Buy, 9, 1, 1);
    assert_eq!(book.side(), Side::Buy);
    assert_eq!((book.min_price(), book.max_price(), book.tick_size()), (1, 9, 1));
    assert_eq!(book.orders().len(), 9);
    assert_eq!(book.arena().len(), 9);
    assert_eq!(book.free_list(), &vec![0, 1, 2, 3, 4, 5, 6, 7, 8]);
    assert!(book.ids().is_empty());
    assert_eq!(book.top_of_book(), None);
    assert_eq!(book.get_top_of_book(), None);
    assert_eq!(book.get_total_liquidity(), 0);
    for level in book.orders() {
        assert_eq!(*level, PriceLevel { head: None, tail: None, total_size: 0 });
    }
}

#[test]
fn ladder_has_one_level_per_tick() {
    let book = HalfBook::new(Side::Sell, 100, 10, 5);
    assert_eq!(book.orders().len(), 19);
    assert_eq!(book.calculate_price_index(10), 0);
    assert_eq!(book.calculate_price_index(15), 1);
    assert_eq!(book.calculate_price_index(100), 18);
    assert_eq!(book.get_price_from_index(0), 10);
    assert_eq!(book.get_price_from_index(1), 15);
    assert_eq!(book.get_price_from_index(18), 100);
}

#[test]
fn range_that_ends_off_the_grid_stops_at_the_last_tick() {
    let mut book = HalfBook::new(Side::Sell, 12, 1, 4);
    assert_eq!(book.orders().len(), 3);
    assert_eq!(book.insert(1, 9, 1), Ok(()));
    assert_eq!(book.insert(2, 12, 1), Err(Error::InvalidOrder));
    assert_eq!(book.insert(3, 13, 1), Err(Error::InvalidOrder));
}

#[test]
fn price_of_a_level_counts_ticks_from_the_lowest_price() {
    let mut book = HalfBook::new(Side::Sell, 100, 10, 5);
    book.insert(1, 25, 4).unwrap();
    assert_eq!(book.top_of_book(), Some(3));
    assert_eq!(top(&book), Some((25, 4)));
    assert_eq!(book.match_size(3), Ok(75));
    assert_eq!(top(&book), Some((25, 1)));
}

#[test]
fn insert_rejects_what_cannot_rest() {
    let mut book = HalfBook::new(Side::Buy, 100, 10, 5);
    assert_eq!(book.insert(1, 12, 1), Err(Error::InvalidOrder));
    assert_eq!(book.insert(1, 5, 1), Err(Error::InvalidOrder));
    assert_eq!(book.insert(1, 105, 1), Err(Error::InvalidOrder));
    assert_eq!(book.insert(1, 15, 0), Err(Error::InvalidOrder));
    assert_eq!(book.insert(1, 15, -2), Err(Error::InvalidOrder));
    assert_eq!(book.insert(1, i64::MAX, 1), Err(Error::InvalidOrder));
    assert_eq!(book.insert(1, i64::MIN, 1), Err(Error::InvalidOrder));
    assert!(book.ids().is_empty());
    assert_eq!(book.free_list().len(), 19);
    assert_eq!(book.get_total_liquidity(), 0);
    assert_eq!(book.top_of_book(), None);
}

#[test]
fn insert_rejects_prices_that_are_not_positive() {
    let mut book = HalfBook::new(Side::Buy, 10, -10, 1);
    assert_eq!(book.insert(1, 0, 5), Err(Error::InvalidOrder));
    assert_eq!(book.insert(1, -5, 5), Err(Error::InvalidOrder));
    assert_eq!(book.insert(1, 1, 5), Ok(()));
    assert_eq!(top(&book), Some((1, 5)));
}

#[test]
fn first_order_takes_the_last_seeded_slot() {
    let mut book = asks();
    book.insert(7, 3, 10).unwrap();
    assert_eq!(book.ids().get(&7), Some(&8));
    assert_eq!(book.free_list(), &vec![0, 1, 2, 3, 4, 5, 6, 7]);
    assert_eq!(
        book.arena()[8],
        Order { id: 7, price_index: 2, size: 10, prev: None, next: None }
    );
    assert_eq!(book.orders()[2], PriceLevel { head: Some(8), tail: Some(8), total_size: 10 });
}

#[test]
fn queue_is_linked_in_order_of_arrival() {
    let mut book = asks();
    book.insert(1, 4, 10).unwrap();
    book.insert(2, 4, 20).unwrap();
    book.insert(3, 4, 30).unwrap();
    assert_eq!(book.orders()[3], PriceLevel { head: Some(8), tail: Some(6), total_size: 60 });
    assert_eq!(
        book.arena()[8],
        Order { id: 1, price_index: 3, size: 10, prev: None, next: Some(7) }
    );
    assert_eq!(
        book.arena()[7],
        Order { id: 2, price_index: 3, size: 20, prev: Some(8), next: Some(6) }
    );
    assert_eq!(
        book.arena()[6],
        Order { id: 3, price_index: 3, size: 30, prev: Some(7), next: None }
    );
}

#[test]
fn arena_grows_by_one_when_no_slot_is_free() {
    let mut book = asks();
    for id in 0..9 {
        book.insert(id, 1, 1).unwrap();
    }
    assert!(book.free_list().is_empty());
    assert_eq!(book.arena().len(), 9);
    book.insert(9, 1, 1).unwrap();
    assert_eq!(book.arena().len(), 10);
    assert_eq!(book.ids().get(&9), Some(&9));
    assert_eq!(book.ids().len(), 10);
    assert_eq!(book.get_total_liquidity(), 10);
}

#[test]
fn freed_slots_are_reused_last_in_first_out() {
    let mut book = asks();
    book.insert(1, 2, 10).unwrap();
    book.insert(2, 3, 10).unwrap();
    let first = *book.ids().get(&1).unwrap();
    let second = *book.ids().get(&2).unwrap();
    book.remove(1).unwrap();
    book.remove(2).unwrap();
    assert_eq!(book.free_list().last(), Some(&second));
    book.insert(3, 5, 1).unwrap();
    assert_eq!(book.ids().get(&3), Some(&second));
    book.insert(4, 5, 1).unwrap();
    assert_eq!(book.ids().get(&4), Some(&first));
}

#[test]
fn matched_order_frees_its_slot_for_the_next_insert() {
    let mut book = asks();
    book.insert(1, 2, 10).unwrap();
    let slot = *book.ids().get(&1).unwrap();
    assert_eq!(book.match_size(10), Ok(20));
    assert!(book.ids().is_empty());
    assert_eq!(book.free_list().last(), Some(&slot));
    book.insert(2, 7, 3).unwrap();
    assert_eq!(book.ids().get(&2), Some(&slot));
}

#[test]
fn remove_of_unknown_id_changes_nothing() {
    let mut book = asks();
    book.insert(1, 2, 10).unwrap();
    assert_eq!(book.remove(2), Err(Error::UnknownId));
    assert_eq!(top(&book), Some((2, 10)));
    assert_eq!(book.ids().len(), 1);
    assert_eq!(book.free_list().len(), 8);
}

#[test]
fn insert_then_remove_restores_the_book() {
    let mut book = bids();
    book.insert(1, 4, 10).unwrap();
    book.insert(2, 6, 5).unwrap();
    let levels = book.orders().clone();
    let free = book.free_list().clone();
    let best = book.top_of_book();
    let liquidity = book.get_total_liquidity();
    book.insert(3, 8, 7).unwrap();
    assert_eq!(book.top_of_book(), Some(7));
    book.remove(3).unwrap();
    assert_eq!(book.orders(), &levels);
    assert_eq!(book.free_list(), &free);
    assert_eq!(book.top_of_book(), best);
    assert_eq!(book.get_total_liquidity(), liquidity);
    assert_eq!(top(&book), Some((6, 5)));
}

#[test]
fn liquidity_follows_inserts_removes_modifies_and_matches() {
    let mut book = asks();
    book.insert(1, 2, 10).unwrap();
    book.insert(2, 3, 20).unwrap();
    book.insert(3, 3, 30).unwrap();
    assert_eq!(book.get_total_liquidity(), 60);
    book.remove(2).unwrap();
    assert_eq!(book.get_total_liquidity(), 40);
    book.modify(3, 3, 5).unwrap();
    assert_eq!(book.get_total_liquidity(), 15);
    book.modify(3, 6, 8).unwrap();
    assert_eq!(book.get_total_liquidity(), 18);
    assert_eq!(book.match_size(12), Ok(10 * 2 + 2 * 6));
    assert_eq!(book.get_total_liquidity(), 6);
    assert_eq!(book.match_size(100), Ok(6 * 6));
    assert_eq!(book.get_total_liquidity(), 0);
    assert_eq!(book.match_size(1), Ok(0));
}

#[test]
fn index_counts_the_resting_orders() {
    let mut book = asks();
    for id in 0..6 {
        book.insert(id, 1 + (id as i64 % 3), 2).unwrap();
    }
    assert_eq!(book.ids().len(), 6);
    book.remove(4).unwrap();
    assert_eq!(book.ids().len(), 5);
    book.match_size(3).unwrap();
    assert_eq!(book.ids().len(), 4);
    assert_eq!(book.ids().len() + book.free_list().len(), book.arena().len());
    for slot in book.free_list() {
        assert!(!book.ids().values().any(|used| used == slot));
    }
}

#[test]
fn modify_at_the_same_price_keeps_priority() {
    let mut book = asks();
    book.insert(1, 5, 10).unwrap();
    book.insert(2, 5, 10).unwrap();
    let slot = *book.ids().get(&1).unwrap();
    book.modify(1, 5, 20).unwrap();
    assert_eq!(book.ids().get(&1), Some(&slot));
    assert_eq!(book.orders()[4].head, Some(slot));
    assert_eq!(book.orders()[4].total_size, 30);
    assert_eq!(book.match_size(5), Ok(25));
    assert_eq!(size_of(&book, 1), 15);
    assert_eq!(size_of(&book, 2), 10);
}

#[test]
fn modify_to_another_price_loses_priority() {
    let mut book = asks();
    book.insert(1, 5, 10).unwrap();
    book.insert(2, 6, 10).unwrap();
    let slot = *book.ids().get(&1).unwrap();
    book.modify(1, 6, 4).unwrap();
    assert_eq!(book.ids().get(&1), Some(&slot));
    assert_eq!(book.orders()[4], PriceLevel { head: None, tail: None, total_size: 0 });
    assert_eq!(book.orders()[5].tail, Some(slot));
    assert_eq!(book.top_of_book(), Some(5));
    assert_eq!(book.match_size(10), Ok(60));
    assert!(!book.ids().contains_key(&2));
    assert_eq!(size_of(&book, 1), 4);
}

#[test]
fn modify_to_the_same_price_and_size_changes_nothing() {
    let mut book = bids();
    book.insert(1, 5, 10).unwrap();
    book.insert(2, 5, 3).unwrap();
    let levels = book.orders().clone();
    let arena = book.arena().clone();
    let free = book.free_list().clone();
    book.modify(1, 5, 10).unwrap();
    assert_eq!(book.orders(), &levels);
    assert_eq!(book.arena(), &arena);
    assert_eq!(book.free_list(), &free);
    assert_eq!(book.top_of_book(), Some(4));
}

#[test]
fn modify_tells_unknown_ids_from_invalid_orders() {
    let mut book = bids();
    book.insert(1, 5, 10).unwrap();
    assert_eq!(book.modify(2, 5, 10), Err(Error::UnknownId));
    assert_eq!(book.modify(2, 50, 0), Err(Error::UnknownId));
    assert_eq!(book.modify(1, 5, 0), Err(Error::InvalidOrder));
    assert_eq!(book.modify(1, 50, 10), Err(Error::InvalidOrder));
    assert_eq!(book.modify(1, 0, 10), Err(Error::InvalidOrder));
    assert_eq!(top(&book), Some((5, 10)));
    assert_eq!(size_of(&book, 1), 10);
    assert_eq!(book.ids().len(), 1);
}

#[test]
fn match_of_no_size_is_refused() {
    let mut book = asks();
    book.insert(1, 5, 10).unwrap();
    assert_eq!(book.match_size(0), Err(Error::InvalidOrder));
    assert_eq!(book.match_size(-4), Err(Error::InvalidOrder));
    assert_eq!(top(&book), Some((5, 10)));
}

#[test]
fn earlier_order_is_consumed_before_the_later_one_is_touched() {
    let mut book = bids();
    book.insert(1, 5, 4).unwrap();
    book.insert(2, 5, 4).unwrap();
    book.insert(3, 5, 4).unwrap();
    assert_eq!(book.match_size(3), Ok(15));
    assert_eq!((size_of(&book, 1), size_of(&book, 2), size_of(&book, 3)), (1, 4, 4));
    assert_eq!(book.match_size(2), Ok(10));
    assert!(!book.ids().contains_key(&1));
    assert_eq!((size_of(&book, 2), size_of(&book, 3)), (3, 4));
    book.remove(2).unwrap();
    assert_eq!(book.match_size(1), Ok(5));
    assert_eq!(size_of(&book, 3), 3);
}

#[test]
fn bids_trade_from_the_highest_price_down() {
    let mut book = bids();
    book.insert(1, 3, 5).unwrap();
    book.insert(2, 9, 5).unwrap();
    book.insert(3, 6, 5).unwrap();
    assert_eq!(top(&book), Some((9, 5)));
    assert_eq!(book.match_size(12), Ok(5 * 9 + 5 * 6 + 2 * 3));
    assert_eq!(top(&book), Some((3, 3)));
}

#[test]
fn asks_trade_from_the_lowest_price_up() {
    let mut book = asks();
    book.insert(1, 9, 5).unwrap();
    book.insert(2, 3, 5).unwrap();
    book.insert(3, 6, 5).unwrap();
    assert_eq!(top(&book), Some((3, 5)));
    assert_eq!(book.match_size(12), Ok(5 * 3 + 5 * 6 + 2 * 9));
    assert_eq!(top(&book), Some((9, 3)));
}

#[test]
fn best_level_at_the_edge_of_the_ladder_can_be_emptied() {
    let mut book = asks();
    book.insert(1, 9, 5).unwrap();
    assert_eq!(book.top_of_book(), Some(8));
    book.remove(1).unwrap();
    assert_eq!(book.top_of_book(), None);
    let mut book = bids();
    book.insert(1, 1, 5).unwrap();
    assert_eq!(book.top_of_book(), Some(0));
    assert_eq!(book.match_size(5), Ok(5));
    assert_eq!(book.top_of_book(), None);
}

#[test]
fn order_records_are_built_and_overwritten_field_by_field() {
    let mut order = Order::new(4, 2, 10, Some(1), None);
    assert_eq!(order, Order { id: 4, price_index: 2, size: 10, prev: Some(1), next: None });
    order.overwrite(5, 3, 11, None, Some(7));
    assert_eq!(order, Order { id: 5, price_index: 3, size: 11, prev: None, next: Some(7) });
    assert_eq!(
        Order::default(),
        Order { id: 0, price_index: 0, size: 0, prev: None, next: None }
    );
    assert_eq!(PriceLevel::default(), PriceLevel { head: None, tail: None, total_size: 0 });
}

#[test]
fn errors_describe_themselves() {
    assert_eq!(Error::InvalidOrder.message(), "Invalid order");
    assert_eq!(Error::UnknownId.message(), "This order is not in our ids map");
    assert_eq!(Error::InternalInvariant.message(), "The book is inconsistent");
    assert_eq!(
        Error::EmptyBook.message(),
        "Not able to fill this order anymore, the book is empty"
    );
}
