use rusty_engine::decimal::DecimalValue;
use rusty_engine::order::{Order, OrderStatus, Side};
use rusty_engine::types::{OrderId, Price, ProductId, Quantity, Timestamp};

fn geo_order(id: u64, side: Side, timestamp: u64) -> Order {
    Order::new(
        OrderId(id),
        side,
        Price(DecimalValue::new(1250, 0)),
        Quantity(8),
        Timestamp(timestamp),
        ProductId(String::from("GEO")),
    )
}

#[test]
fn test_new_order_status() {
    let order: Order = geo_order(1, Side::Bid, 100202010);
    assert!(OrderStatus::New == order.status);
}

#[test]
fn test_order_equality() {
    let bid_order: Order = geo_order(1, Side::Bid, 100202010);
    let ask_order: Order = geo_order(2, Side::Ask, 100202007);
    assert_ne!(bid_order, ask_order);
}

#[test]
fn test_order_side() {
    let order: Order = geo_order(1, Side::Bid, 100202010);
    assert_eq!(Side::Bid, order.side);
}

#[test]
fn test_describe_status_new() {
    let order: Order = geo_order(1, Side::Bid, 100202010);
    assert_eq!("New Order", order.describe_status());
}

#[test]
fn test_describe_status_accepted() {
    let mut order: Order = geo_order(1, Side::Bid, 100202010);
    order.status = OrderStatus::Accepted;
    assert_eq!("Order Accepted", order.describe_status());
}

#[test]
fn test_describe_status_partially_filled() {
    let mut order: Order = geo_order(1, Side::Bid, 100202010);
    order.status = OrderStatus::PartiallyFilled {
        remaining: Quantity(2),
    };
    assert_eq!(
        "Order Partially Filled, remaining: 2",
        order.describe_status()
    );
}

#[test]
fn test_describe_status_filled() {
    let mut order: Order = geo_order(1, Side::Bid, 100202010);
    order.status = OrderStatus::Filled;
    assert_eq!("Order Filled!", order.describe_status());
}

#[test]
fn test_describe_status_cancelled() {
    let mut order: Order = geo_order(1, Side::Bid, 100202010);
    order.status = OrderStatus::Cancelled;
    assert_eq!("Order Cancelled", order.describe_status());
}

#[test]
fn test_describe_status_rejected() {
    let mut order: Order = geo_order(1, Side::Bid, 100202010);
    order.status = OrderStatus::Rejected {
        reason: String::from("test"),
    };
    assert_eq!("Order Rejected: test", order.describe_status());
}

#[test]
fn describe_status_partially_filled_writes_every_digit() {
    let mut order: Order = geo_order(1, Side::Bid, 100202010);
    order.status = OrderStatus::PartiallyFilled {
        remaining: Quantity(1234567890),
    };
    assert_eq!(
        "Order Partially Filled, remaining: 1234567890",
        order.describe_status()
    );
    order.status = OrderStatus::PartiallyFilled {
        remaining: Quantity(0),
    };
    assert_eq!("Order Partially Filled, remaining: 0", order.describe_status());
    order.status = OrderStatus::PartiallyFilled {
        remaining: Quantity(u64::MAX),
    };
    assert_eq!(
        "Order Partially Filled, remaining: 18446744073709551615",
        order.describe_status()
    );
}

#[test]
fn new_order_keeps_its_fields() {
    let order = geo_order(7, Side::Ask, 42);
    assert_eq!(order.id, OrderId(7));
    assert_eq!(order.side, Side::Ask);
    assert_eq!(order.price, Price(DecimalValue::new(1250, 0)));
    assert_eq!(order.quantity, Quantity(8));
    assert_eq!(order.timestamp, Timestamp(42));
    assert_eq!(order.product_id, ProductId(String::from("GEO")));
}
