use orderbook::half::HalfBook;
use orderbook::Side;

const MIN_PRICE: i64 = 1;
const MAX_PRICE: i64 = 9;
const TICK_SIZE: i64 = 1;
const LADDER_SIZE: usize = ((MAX_PRICE - MIN_PRICE) / TICK_SIZE + 1) as usize;

fn buy_book() -> HalfBook {
    HalfBook::new(Side::Buy, MAX_PRICE, MIN_PRICE, TICK_SIZE)
}

fn sell_book() -> HalfBook {
    HalfBook::new(Side::Sell, MAX_PRICE, MIN_PRICE, TICK_SIZE)
}

// --------------------------------------------------------
// INSERT TESTS
// --------------------------------------------------------

#[test]
fn insert_single_order() {
    let mut book = buy_book();
    let price = 3;
    book.insert(1, price, 100).unwrap();

    let level = &book.orders()[book.calculate_price_index(3)];
    assert!(level.head.is_some());
    assert_eq!(level.head, level.tail);
    assert_eq!(book.ids().get(&1).is_some(), true);
}

#[test]
fn insert_multiple_same_price_preserves_linked_list() {
    let mut book = buy_book();
    let price = 2;
    book.insert(1, price, 10).unwrap();
    book.insert(2, price, 20).unwrap();
    book.insert(3, price, 30).unwrap();

    let level = &book.orders()[book.calculate_price_index(2)];

    assert!(level.head.is_some());
    assert!(level.tail.is_some());

    let head = level.head.unwrap();
    let tail = level.tail.unwrap();

    assert_ne!(head, tail);

    // Ensure tail has no next
    assert_eq!(book.arena()[tail].next, None);

    // Ensure head has no prev
    assert_eq!(book.arena()[head].prev, None);
}

#[test]
fn insert_out_of_bounds_price_fails() {
    let mut book = buy_book();

    let result = book.insert(1, 999, 10);

    assert!(result.is_err());
}

#[test]
fn insert_duplicate_id_overwrites_hashmap_entry() {
    let mut book = buy_book();

    book.insert(1, 1, 10).unwrap();
    book.insert(1, 1, 20).unwrap();

    // HashMap should contain only one entry
    assert_eq!(book.ids().len(), 1);
}

// --------------------------------------------------------
// REMOVE TESTS
// --------------------------------------------------------

#[test]
fn remove_non_existent_id_fails() {
    let mut book = buy_book();

    let result = book.remove(42);
    assert!(result.is_err());
}

#[test]
fn remove_only_order_in_level() {
    let mut book = buy_book();

    book.insert(1, 4, 100).unwrap();
    book.remove(1).unwrap();

    let level = &book.orders()[4];

    assert!(level.head.is_none());
    assert!(level.tail.is_none());
    assert!(book.ids().is_empty());
}

#[test]
fn remove_head_of_multiple_orders() {
    let mut book = buy_book();
    let price = 5;
    book.insert(1, price, 10).unwrap();
    book.insert(2, price, 20).unwrap();

    let head_index = book.orders()[book.calculate_price_index(price)].head.unwrap();
    let head_id = book.arena()[head_index].id;

    book.remove(head_id).unwrap();

    let level = &book.orders()[5];
    assert_ne!(level.head, Some(head_index));
    assert!(book.ids().get(&head_id).is_none());
}

#[test]
fn remove_tail_of_multiple_orders() {
    let mut book = buy_book();
    let price = 6;
    book.insert(1, price, 10).unwrap();
    book.insert(2, price, 20).unwrap();

    let tail_index = book.orders()[book.calculate_price_index(price)].tail.unwrap();
    let tail_id = book.arena()[tail_index].id;

    book.remove(tail_id).unwrap();

    let level = &book.orders()[book.calculate_price_index(price)];
    assert_ne!(level.tail, Some(tail_index));
    assert!(book.ids().get(&tail_id).is_none());
}

#[test]
fn remove_middle_order_relinks_neighbors() {
    let mut book = buy_book();
    let price = 7;
    book.insert(1, price, 10).unwrap();
    book.insert(2, price, 20).unwrap();
    book.insert(3, price, 30).unwrap();

    book.remove(2).unwrap();

    let level = &book.orders()[book.calculate_price_index(7)];
    let head = level.head.unwrap();
    let next = book.arena()[head].next.unwrap();

    assert_eq!(book.arena()[next].id, 3);
    assert_eq!(book.arena()[next].prev, Some(head));
}

// --------------------------------------------------------
// MODIFY TESTS
// --------------------------------------------------------

#[test]
fn modify_size_same_price() {
    let mut book = buy_book();

    book.insert(1, 3, 50).unwrap();
    book.modify(1, 3, 100).unwrap();

    let arena_index = *book.ids().get(&1).unwrap();
    assert_eq!(book.arena()[arena_index].size, 100);
}

#[test]
fn modify_price_moves_order_between_levels() {
    let mut book = buy_book();

    book.insert(1, 1, 50).unwrap();
    book.modify(1, 2, 60).unwrap();

    assert!(book.orders()[book.calculate_price_index(1)].head.is_none());
    assert!(book.orders()[book.calculate_price_index(2)].head.is_some());
}

#[test]
fn modify_non_existent_order_fails() {
    let mut book = buy_book();

    let result = book.modify(999, 1, 10);
    assert!(result.is_err());
}

// --------------------------------------------------------
// FREE LIST / ARENA REUSE
// --------------------------------------------------------

#[test]
fn arena_slot_reused_after_remove() {
    let mut book = buy_book();

    book.insert(1, 1, 10).unwrap();
    let arena_index = *book.ids().get(&1).unwrap();

    book.remove(1).unwrap();

    let free_len_before = book.free_list().len();

    book.insert(2, 1, 20).unwrap();

    let new_index = *book.ids().get(&2).unwrap();

    assert_eq!(arena_index, new_index);
    assert_eq!(book.free_list().len(), free_len_before - 1);
}

// --------------------------------------------------------
// STRESS / EDGE
// --------------------------------------------------------

#[test]
fn many_inserts_trigger_arena_growth() {
    let mut book = buy_book();

    let count = LADDER_SIZE + 10;

    for i in 0..count {
        book.insert(i as u64, 1, 1).unwrap();
    }

    assert!(book.arena().len() >= count);
}

#[test]
fn remove_twice_should_fail_second_time() {
    let mut book = buy_book();

    book.insert(1, 1, 10).unwrap();
    book.remove(1).unwrap();

    assert!(book.remove(1).is_err());
}

#[test]
fn top_of_book_works_for_bids() {
    let mut book = buy_book();

    book.insert(1, 1, 10).unwrap();
    assert_eq!(book.top_of_book(), Some(book.calculate_price_index(1)));

    book.insert(2, 2, 10).unwrap();
    assert_eq!(book.top_of_book(), Some(book.calculate_price_index(2)));

    book.insert(3, 1, 10).unwrap();
    assert_eq!(book.top_of_book(), Some(book.calculate_price_index(2)));

    book.remove(2).unwrap();
    assert_eq!(book.top_of_book(), Some(book.calculate_price_index(1)));

    book.remove(1).unwrap();
    assert_eq!(book.top_of_book(), Some(book.calculate_price_index(1)));

    book.remove(3).unwrap();
    assert_eq!(book.top_of_book(), None);

    assert!(book.remove(1).is_err());
}

#[test]
fn top_of_book_works_for_asks() {
    let mut book = sell_book();

    book.insert(1, 1, 10).unwrap();
    assert_eq!(book.top_of_book(), Some(book.calculate_price_index(1)));

    book.insert(2, 2, 10).unwrap();
    assert_eq!(book.top_of_book(), Some(book.calculate_price_index(1)));

    book.insert(3, 1, 10).unwrap();
    assert_eq!(book.top_of_book(), Some(book.calculate_price_index(1)));

    book.remove(2).unwrap();
    assert_eq!(book.top_of_book(), Some(book.calculate_price_index(1)));

    book.remove(1).unwrap();
    assert_eq!(book.top_of_book(), Some(book.calculate_price_index(1)));

    book.remove(3).unwrap();

    assert_eq!(book.top_of_book(), None);

    assert!(book.remove(1).is_err());
}

// ------------------------------------------------------------
// Multi-level FIFO + partial market sweep (SELL book hit)
// ------------------------------------------------------------
#[test]
fn test_market_sweep_multiple_price_levels_sell_book() {
    let mut book = sell_book();

    // Insert ascending ask prices (best ask = lowest price)
    book.insert(1, 2, 10).unwrap(); // 10 @ 2
    book.insert(2, 3, 5).unwrap(); // 5  @ 3
    book.insert(3, 4, 20).unwrap(); // 20 @ 4

    // Market buy of size 12
    let notional = book.match_size(12).unwrap();

    // Should consume:
    // 10 @ 2  = 20
    // 2  @ 3  = 6
    assert_eq!(notional, 26);

    // Remaining:
    // 3 @ 3
    // 20 @ 4
    assert_eq!(book.top_of_book(), Some(book.calculate_price_index(3)));
}

// ------------------------------------------------------------
// FIFO inside same level
// ------------------------------------------------------------
#[test]
fn test_fifo_within_price_level() {
    let mut book = sell_book();

    book.insert(1, 5, 10).unwrap(); // first
    book.insert(2, 5, 15).unwrap(); // second

    // Match 12 -> should fully consume id=1 (10)
    // and partially id=2 (2)
    let notional = book.match_size(12).unwrap();

    assert_eq!(notional, 12 * 5);

    // Order 1 must be gone
    assert!(!book.ids().contains_key(&1));

    // Order 2 should still exist with 13 left
    let idx = book.ids().get(&2).unwrap();
    let order = &book.arena()[*idx];
    assert_eq!(order.size, 13);
}

// ------------------------------------------------------------
// Full book sweep
// ------------------------------------------------------------
#[test]
fn test_full_book_sweep_clears_top_of_book() {
    let mut book = sell_book();

    book.insert(1, 2, 5).unwrap();
    book.insert(2, 3, 5).unwrap();

    let notional = book.match_size(10).unwrap();

    assert_eq!(notional, 5 * 2 + 5 * 3);

    // Entire book empty
    assert!(book.top_of_book().is_none());
}

// ------------------------------------------------------------
// Buy book top-of-book transitions downward
// ------------------------------------------------------------
#[test]
fn test_buy_book_tob_moves_down_after_match() {
    let mut book = buy_book();

    // For buys, higher price is better
    book.insert(1, 8, 10).unwrap(); // best bid
    book.insert(2, 6, 10).unwrap();

    assert_eq!(book.top_of_book(), Some(book.calculate_price_index(8)));

    // Market sell hits best bid
    book.match_size(10).unwrap();

    // Now best bid should be 6
    assert_eq!(book.top_of_book(), Some(book.calculate_price_index(6)));
}

// ------------------------------------------------------------
// Modify across price levels
// ------------------------------------------------------------
#[test]
fn test_modify_price_moves_order_between_levels() {
    let mut book = sell_book();

    book.insert(1, 5, 10).unwrap();
    assert_eq!(book.top_of_book(), Some(book.calculate_price_index(5)));

    // Move order to better ask (lower price)
    book.modify(1, 3, 10).unwrap();

    assert_eq!(book.top_of_book(), Some(book.calculate_price_index(3)));

    // Old level should now be empty
    let old_idx = book.calculate_price_index(5);
    assert_eq!(book.orders()[old_idx].total_size, 0);
}

// ------------------------------------------------------------
// Interleaved insert/remove/match scenario
// ------------------------------------------------------------
#[test]
fn test_complex_sequence() {
    let mut book = sell_book();

    book.insert(1, 2, 10).unwrap();
    book.insert(2, 3, 10).unwrap();
    book.insert(3, 4, 10).unwrap();

    // Cancel middle level
    book.remove(2).unwrap();

    // Market buy 15
    let notional = book.match_size(15).unwrap();

    // Should take:
    // 10 @ 2 = 20
    // 5  @ 4 = 20
    assert_eq!(notional, 40);

    // Only 5 left at price 4
    assert_eq!(book.top_of_book(), Some(book.calculate_price_index(4)));
    let idx = book.ids().get(&3).unwrap();
    let order = &book.arena()[*idx];
    assert_eq!(order.size, 5);
}

// ------------------------------------------------------------
// Partial match does NOT move top-of-book
// ------------------------------------------------------------
#[test]
fn test_partial_match_keeps_same_tob() {
    let mut book = sell_book();

    book.insert(1, 2, 10).unwrap();

    // Match less than available
    let notional = book.match_size(5).unwrap();
    assert_eq!(notional, 10);

    // TOB should remain at price 2
    assert_eq!(book.top_of_book(), Some(book.calculate_price_index(2)));

    let idx = book.ids().get(&1).unwrap();
    let order = &book.arena()[*idx];
    assert_eq!(order.size, 5);
}
