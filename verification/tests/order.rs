use order_book::order::Order;
use std::time::{SystemTime, UNIX_EPOCH};

fn now_micros() -> u64 {
    SystemTime::now()
        .duration_since(UNIX_EPOCH)
        .map(|d| d.as_micros() as u64)
        .unwrap_or(0)
}

#[test]
fn test_new_order() {
    let order = Order::new(100, 5);
    assert_eq!(order.price(), 100);
    assert_eq!(order.quantity(), 5);
    // Since the creation timestamp is taken from the wall clock, we can't
    // predict its exact value. However, we can check that it's within a
    // reasonable range of the current time.
    let now = now_micros();
    assert!(order.created_at() >= now - 1_000_000);
    assert!(order.created_at() <= now + 1_000_000);
}

#[test]
fn test_order_price() {
    let order = Order::new(200, 10);
    assert_eq!(order.price(), 200);
}

#[test]
fn test_order_quantity() {
    let order = Order::new(300, 15);
    assert_eq!(order.quantity(), 15);
}

#[test]
fn test_order_quantity_update() {
    let mut order = Order::new(300, 15);
    assert_eq!(order.quantity(), 15);
    order.update_quantity(10);
    assert_eq!(order.quantity(), 10);
}

#[test]
fn test_order_created_at() {
    let order = Order::new(400, 20);
    let now = now_micros();
    assert!(order.created_at() >= now - 1_000_000);
    assert!(order.created_at() <= now + 1_000_000);
}
