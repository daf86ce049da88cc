use rusty_engine::decimal::DecimalValue;
use rusty_engine::order::{Order, OrderStatus, Side};
use rusty_engine::order_book::{CancelError, Level, OrderBook};
use rusty_engine::types::{OrderId, Price, ProductId, Quantity, Timestamp};

fn create_order(id: OrderId, side: Side, price: Price) -> Order {
    Order {
        id,
        side,
        status: OrderStatus::New,
        price,
        quantity: Quantity(100),
        timestamp: Timestamp(120323020310),
        product_id: ProductId(String::from("GEO")),
    }
}

fn price(mantissa: i64, scale: u32) -> Price {
    Price(DecimalValue::new(mantissa, scale))
}

#[test]
fn best_bid_of_empty_book_is_none() {
    let order_book = OrderBook::new();
    assert_eq!(order_book.best_bid(), None);
}

#[test]
fn level_cancel_unknown_order_returns_not_found() {
    let order = create_order(OrderId(1), Side::Ask, price(125, 1));
    let mut level = Level::new();
    assert_eq!(level.cancel_order(order.id), Err(CancelError::NotFound));
}

#[test]
fn cancel_order_removes_it_from_index() {
    let order = create_order(OrderId(1), Side::Ask, price(125, 1));
    let id = order.id;
    let mut order_book = OrderBook::new();
    order_book.add_order(order);
    let _ = order_book.cancel_order(id);
    assert_eq!(order_book.cancel_order(id), Err(CancelError::NotFound));
}

#[test]
fn cancel_only_order_at_price_removes_level() {
    let order = create_order(OrderId(1), Side::Ask, price(125, 1));
    let id = order.id;
    let mut order_book = OrderBook::new();
    order_book.add_order(order);
    let _ = order_book.cancel_order(id);
    assert_eq!(order_book.best_ask(), None);
}

#[test]
fn level_compaction_triggers_at_threshold() {
    let order1 = create_order(OrderId(1), Side::Ask, price(125, 1));
    let id1 = order1.id;
    let order2 = create_order(OrderId(2), Side::Ask, price(125, 1));
    let id2 = order2.id;
    let order3 = create_order(OrderId(3), Side::Ask, price(125, 1));
    let order4 = create_order(OrderId(4), Side::Ask, price(125, 1));

    let mut level = Level::new();

    for order in [order1, order2, order3, order4] {
        level.add_order(order);
    }

    for id in [id1, id2] {
        let _ = level.cancel_order(id);
    }

    assert_eq!(level.get_tombstone_count(), 0);
}

#[test]
fn level_compaction_does_not_trigger_below_threshold() {
    let order1 = create_order(OrderId(1), Side::Ask, price(125, 1));
    let id1 = order1.id;
    let order2 = create_order(OrderId(2), Side::Ask, price(125, 1));
    let order3 = create_order(OrderId(3), Side::Ask, price(125, 1));
    let order4 = create_order(OrderId(4), Side::Ask, price(125, 1));

    let mut level = Level::new();

    for order in [order1, order2, order3, order4] {
        level.add_order(order);
    }

    let _ = level.cancel_order(id1);

    assert_eq!(level.get_tombstone_count(), 1);
}

#[test]
fn spread_returns_ask_minus_bid() {
    let order1 = create_order(OrderId(1), Side::Ask, price(145, 1));
    let order2 = create_order(OrderId(2), Side::Bid, price(125, 1));

    let mut order_book = OrderBook::new();

    order_book.add_order(order1);
    order_book.add_order(order2);

    assert_eq!(order_book.spread(), Some(DecimalValue::new(2, 0)));
}

#[test]
fn level_cancel_same_order_twice_returns_already_cancelled() {
    let order1 = create_order(OrderId(1), Side::Bid, price(10, 0));
    let id1 = order1.id;
    let order2 = create_order(OrderId(2), Side::Bid, price(10, 0));
    let order3 = create_order(OrderId(3), Side::Bid, price(10, 0));
    let mut level = Level::new();
    level.add_order(order1);
    level.add_order(order2);
    level.add_order(order3);
    let _ = level.cancel_order(id1);
    assert_eq!(level.cancel_order(id1), Err(CancelError::AlreadyCancelled));
}

#[test]
fn best_ask_of_empty_book_is_none() {
    let order_book = OrderBook::new();
    assert_eq!(order_book.best_ask(), None);
}

#[test]
fn spread_of_empty_book_is_none() {
    let order_book = OrderBook::new();
    assert_eq!(order_book.spread(), None);
}

#[test]
fn spread_when_only_bids_populated_is_none() {
    let mut order_book = OrderBook::new();
    order_book.add_order(create_order(OrderId(1), Side::Bid, price(100, 0)));
    assert_eq!(order_book.spread(), None);
}

#[test]
fn spread_when_only_asks_populated_is_none() {
    let mut order_book = OrderBook::new();
    order_book.add_order(create_order(OrderId(1), Side::Ask, price(100, 0)));
    assert_eq!(order_book.spread(), None);
}

#[test]
fn add_bid_makes_it_appear_as_best_bid() {
    let mut order_book = OrderBook::new();
    order_book.add_order(create_order(OrderId(1), Side::Bid, price(50, 0)));
    assert_eq!(order_book.best_bid(), Some(price(50, 0)));
}

#[test]
fn add_ask_makes_it_appear_as_best_ask() {
    let mut order_book = OrderBook::new();
    order_book.add_order(create_order(OrderId(1), Side::Ask, price(75, 0)));
    assert_eq!(order_book.best_ask(), Some(price(75, 0)));
}

#[test]
fn best_bid_returns_highest_of_multiple_bids() {
    let mut order_book = OrderBook::new();
    order_book.add_order(create_order(OrderId(1), Side::Bid, price(90, 0)));
    order_book.add_order(create_order(OrderId(2), Side::Bid, price(95, 0)));
    order_book.add_order(create_order(OrderId(3), Side::Bid, price(85, 0)));
    assert_eq!(order_book.best_bid(), Some(price(95, 0)));
}

#[test]
fn best_ask_returns_lowest_of_multiple_asks() {
    let mut order_book = OrderBook::new();
    order_book.add_order(create_order(OrderId(1), Side::Ask, price(110, 0)));
    order_book.add_order(create_order(OrderId(2), Side::Ask, price(105, 0)));
    order_book.add_order(create_order(OrderId(3), Side::Ask, price(115, 0)));
    assert_eq!(order_book.best_ask(), Some(price(105, 0)));
}

#[test]
fn cancel_unknown_order_on_orderbook_returns_not_found() {
    let mut order_book = OrderBook::new();
    assert_eq!(order_book.cancel_order(OrderId(999)), Err(CancelError::NotFound));
}

#[test]
fn prices_equal_in_value_share_a_level() {
    let mut order_book = OrderBook::new();
    order_book.add_order(create_order(OrderId(1), Side::Ask, price(125, 1)));
    order_book.add_order(create_order(OrderId(2), Side::Ask, price(1250, 2)));
    assert_eq!(order_book.cancel_order(OrderId(1)), Ok(()));
    // The level keeps the second order, under the price it was created with.
    let best = order_book.best_ask().unwrap();
    assert_eq!(best.0.mantissa(), 125);
    assert_eq!(best.0.scale(), 1);
    assert_eq!(order_book.cancel_order(OrderId(2)), Ok(()));
    assert_eq!(order_book.best_ask(), None);
}

#[test]
fn add_then_cancel_leaves_the_book_as_it_was() {
    let mut order_book = OrderBook::new();
    order_book.add_order(create_order(OrderId(1), Side::Bid, price(99, 0)));
    order_book.add_order(create_order(OrderId(2), Side::Ask, price(101, 0)));
    order_book.add_order(create_order(OrderId(3), Side::Ask, price(100, 0)));
    assert_eq!(order_book.best_ask(), Some(price(100, 0)));
    assert_eq!(order_book.spread(), Some(DecimalValue::new(1, 0)));
    assert_eq!(order_book.cancel_order(OrderId(3)), Ok(()));
    assert_eq!(order_book.best_ask(), Some(price(101, 0)));
    assert_eq!(order_book.best_bid(), Some(price(99, 0)));
    assert_eq!(order_book.spread(), Some(DecimalValue::new(2, 0)));
}

#[test]
fn best_bid_after_add_is_the_higher_price() {
    let mut order_book = OrderBook::new();
    order_book.add_order(create_order(OrderId(1), Side::Bid, price(90, 0)));
    order_book.add_order(create_order(OrderId(2), Side::Bid, price(80, 0)));
    assert_eq!(order_book.best_bid(), Some(price(90, 0)));
    order_book.add_order(create_order(OrderId(3), Side::Bid, price(905, 1)));
    assert_eq!(order_book.best_bid(), Some(price(905, 1)));
    order_book.add_order(create_order(OrderId(4), Side::Bid, price(9050, 2)));
    let best = order_book.best_bid().unwrap();
    assert_eq!(best.0.mantissa(), 905);
    assert_eq!(best.0.scale(), 1);
}

#[test]
fn cancelling_a_bid_leaves_the_asks_alone() {
    let mut order_book = OrderBook::new();
    order_book.add_order(create_order(OrderId(1), Side::Bid, price(10, 0)));
    order_book.add_order(create_order(OrderId(2), Side::Ask, price(10, 0)));
    assert_eq!(order_book.cancel_order(OrderId(1)), Ok(()));
    assert_eq!(order_book.best_bid(), None);
    assert_eq!(order_book.best_ask(), Some(price(10, 0)));
}

#[test]
fn level_cancel_after_compaction_returns_not_found() {
    let mut level = Level::new();
    level.add_order(create_order(OrderId(1), Side::Bid, price(10, 0)));
    level.add_order(create_order(OrderId(2), Side::Bid, price(10, 0)));
    assert_eq!(level.cancel_order(OrderId(1)), Ok(()));
    // One tombstone in two orders reaches the threshold: the tombstone is dropped.
    assert_eq!(level.get_tombstone_count(), 0);
    assert_eq!(level.cancel_order(OrderId(1)), Err(CancelError::NotFound));
    assert!(!level.is_empty());
    assert_eq!(level.cancel_order(OrderId(2)), Ok(()));
    assert!(level.is_empty());
}

#[test]
fn level_counts_tombstones_below_threshold() {
    let mut level = Level::new();
    for id in 1..=5u64 {
        level.add_order(create_order(OrderId(id), Side::Ask, price(7, 0)));
    }
    assert_eq!(level.cancel_order(OrderId(4)), Ok(()));
    assert_eq!(level.get_tombstone_count(), 1);
    assert_eq!(level.cancel_order(OrderId(2)), Ok(()));
    assert_eq!(level.get_tombstone_count(), 2);
    assert_eq!(level.cancel_order(OrderId(4)), Err(CancelError::AlreadyCancelled));
    // Three tombstones in five orders reach the threshold.
    assert_eq!(level.cancel_order(OrderId(5)), Ok(()));
    assert_eq!(level.get_tombstone_count(), 0);
    assert_eq!(level.cancel_order(OrderId(5)), Err(CancelError::NotFound));
    // One tombstone in two orders reaches the threshold again.
    assert_eq!(level.cancel_order(OrderId(3)), Ok(()));
    assert_eq!(level.get_tombstone_count(), 0);
    assert!(!level.is_empty());
}

#[test]
fn re_added_id_cancels_the_live_order() {
    let mut order_book = OrderBook::new();
    for id in 1..=3u64 {
        order_book.add_order(create_order(OrderId(id), Side::Bid, price(5, 0)));
    }
    assert_eq!(order_book.cancel_order(OrderId(1)), Ok(()));
    // The cancelled order stays as a tombstone; the book passes over it.
    order_book.add_order(create_order(OrderId(1), Side::Bid, price(5, 0)));
    assert_eq!(order_book.cancel_order(OrderId(1)), Ok(()));
    assert_eq!(order_book.cancel_order(OrderId(1)), Err(CancelError::NotFound));
    assert_eq!(order_book.best_bid(), Some(price(5, 0)));
}

#[test]
fn level_cancel_live_order_passes_over_tombstones() {
    let mut level = Level::new();
    for id in [1u64, 2, 3, 4, 1] {
        level.add_order(create_order(OrderId(id), Side::Ask, price(3, 0)));
    }
    assert_eq!(level.cancel_order(OrderId(1)), Ok(()));
    assert_eq!(level.get_tombstone_count(), 1);
    assert_eq!(level.cancel_order(OrderId(1)), Err(CancelError::AlreadyCancelled));
    assert_eq!(level.cancel_live_order(OrderId(1)), Ok(()));
    assert_eq!(level.get_tombstone_count(), 2);
    assert_eq!(level.cancel_live_order(OrderId(1)), Err(CancelError::NotFound));
    assert_eq!(level.cancel_live_order(OrderId(9)), Err(CancelError::NotFound));
}

#[test]
fn checked_spread_refuses_an_overflowing_spread() {
    let max = DecimalValue::from_parts(79228162514264337593543950335, 0).unwrap();
    let min = DecimalValue::from_parts(-79228162514264337593543950335, 0).unwrap();
    let mut order_book = OrderBook::new();
    assert_eq!(order_book.checked_spread(), Some(None));
    order_book.add_order(create_order(OrderId(1), Side::Ask, Price(max)));
    assert_eq!(order_book.checked_spread(), Some(None));
    order_book.add_order(create_order(OrderId(2), Side::Bid, Price(min)));
    assert_eq!(order_book.checked_spread(), None);
    assert_eq!(order_book.cancel_order(OrderId(2)), Ok(()));
    order_book.add_order(create_order(OrderId(3), Side::Bid, price(-3, 1)));
    // ask - bid exceeds the range by under half a unit and is rounded back into it.
    assert_eq!(order_book.checked_spread(), Some(Some(max)));
    assert_eq!(order_book.spread(), Some(max));
}

#[test]
fn checked_spread_gives_the_spread() {
    let mut order_book = OrderBook::new();
    order_book.add_order(create_order(OrderId(1), Side::Ask, price(145, 1)));
    order_book.add_order(create_order(OrderId(2), Side::Bid, price(125, 1)));
    let spread = order_book.checked_spread().unwrap().unwrap();
    assert_eq!(spread.mantissa(), 20);
    assert_eq!(spread.scale(), 1);
}

#[test]
fn add_then_cancel_at_an_existing_level_keeps_the_book() {
    let mut order_book = OrderBook::new();
    order_book.add_order(create_order(OrderId(1), Side::Bid, price(50, 0)));
    order_book.add_order(create_order(OrderId(2), Side::Bid, price(49, 0)));
    order_book.add_order(create_order(OrderId(3), Side::Ask, price(51, 0)));
    order_book.add_order(create_order(OrderId(4), Side::Bid, price(500, 1)));
    assert_eq!(order_book.cancel_order(OrderId(4)), Ok(()));
    assert_eq!(order_book.best_bid(), Some(price(50, 0)));
    assert_eq!(order_book.best_ask(), Some(price(51, 0)));
    assert_eq!(order_book.cancel_order(OrderId(1)), Ok(()));
    assert_eq!(order_book.best_bid(), Some(price(49, 0)));
    assert_eq!(order_book.cancel_order(OrderId(4)), Err(CancelError::NotFound));
}

#[test]
fn cancel_never_improves_a_best_price() {
    let mut order_book = OrderBook::new();
    order_book.add_order(create_order(OrderId(1), Side::Ask, price(20, 0)));
    order_book.add_order(create_order(OrderId(2), Side::Ask, price(21, 0)));
    order_book.add_order(create_order(OrderId(3), Side::Bid, price(18, 0)));
    order_book.add_order(create_order(OrderId(4), Side::Bid, price(19, 0)));
    assert_eq!(order_book.cancel_order(OrderId(1)), Ok(()));
    assert_eq!(order_book.best_ask(), Some(price(21, 0)));
    assert_eq!(order_book.best_bid(), Some(price(19, 0)));
    assert_eq!(order_book.cancel_order(OrderId(4)), Ok(()));
    assert_eq!(order_book.best_bid(), Some(price(18, 0)));
    assert_eq!(order_book.best_ask(), Some(price(21, 0)));
}

#[test]
fn levels_order_by_value_across_scales_and_signs() {
    let mut order_book = OrderBook::new();
    order_book.add_order(create_order(OrderId(1), Side::Bid, price(-15, 1)));
    order_book.add_order(create_order(OrderId(2), Side::Bid, price(-3, 1)));
    order_book.add_order(create_order(OrderId(3), Side::Bid, price(-1, 0)));
    assert_eq!(order_book.best_bid(), Some(price(-3, 1)));
    order_book.add_order(create_order(OrderId(4), Side::Ask, price(1001, 3)));
    order_book.add_order(create_order(OrderId(5), Side::Ask, price(1, 0)));
    order_book.add_order(create_order(OrderId(6), Side::Ask, price(99, 2)));
    assert_eq!(order_book.best_ask(), Some(price(99, 2)));
    assert_eq!(order_book.cancel_order(OrderId(6)), Ok(()));
    assert_eq!(order_book.best_ask(), Some(price(1, 0)));
    assert_eq!(order_book.cancel_order(OrderId(2)), Ok(()));
    assert_eq!(order_book.best_bid(), Some(price(-1, 0)));
    assert_eq!(order_book.spread(), Some(DecimalValue::new(2, 0)));
}
