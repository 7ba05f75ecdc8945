use std::collections::HashMap;

use order_book::order::Order;
use order_book::price_tree::PriceTree;
use rand::Rng;

#[test]
fn test_insert_order_simple() {
    let mut price_tree = PriceTree::new();
    let order1 = Order::new(100, 10);
    let order2 = Order::new(150, 5);
    let order3 = Order::new(100, 4);

    let key1 = price_tree.insert_order(order1);
    let key2 = price_tree.insert_order(order2);
    price_tree.insert_order(order3);

    assert_eq!(price_tree.num_levels(), 2);
    let level1 = price_tree.get_order(&key1).unwrap().price();
    assert_eq!(price_tree.get_by_price(level1).unwrap().total_quantity(), 14);
    let level2 = price_tree.get_order(&key2).unwrap().price();
    assert_eq!(price_tree.get_by_price(level2).unwrap().total_quantity(), 5);
    assert_eq!(
        price_tree.get_by_price(100).unwrap().iter().next().unwrap().1.quantity(),
        10
    );
}

#[test]
fn test_insert_order_advanced() {
    let mut rng = rand::thread_rng();
    let mut price_tree = PriceTree::new();

    let mut quantity_map: HashMap<u32, u32> = HashMap::new();

    for _ in 0..10000 {
        let price: u32 = rng.gen_range(1..30);
        let quantity: u32 = rng.gen_range(1..500);
        let order = Order::new(price, quantity);
        price_tree.insert_order(order);

        match quantity_map.get_mut(&price) {
            Some(total_quantity) => *total_quantity += quantity,
            None => {
                quantity_map.insert(price, quantity);
            }
        }
    }

    for (price, &total_quantity) in quantity_map.iter() {
        assert_eq!(
            price_tree.get_by_price(*price).unwrap().total_quantity(),
            total_quantity
        );
    }
}

#[test]
fn test_remove_order() {
    let mut price_tree = PriceTree::new();
    let order = Order::new(200, 8);
    let key = price_tree.insert_order(order);

    assert_eq!(price_tree.remove_order(&key).unwrap(), ());
    assert_eq!(price_tree.num_levels(), 0);
}

#[test]
fn test_iteration() {
    let mut price_tree = PriceTree::new();
    let order1 = Order::new(120, 3);
    let order2 = Order::new(140, 6);
    let order3 = Order::new(140, 2);

    price_tree.insert_order(order1);
    price_tree.insert_order(order2);
    price_tree.insert_order(order3);

    let mut iter = price_tree.iter();

    assert_eq!(iter.next().unwrap().1.total_quantity(), 3);
    assert_eq!(iter.next().unwrap().1.total_quantity(), 8);
}

#[test]
fn test_iteration_rev() {
    let mut price_tree = PriceTree::new();
    let order1 = Order::new(120, 3);
    let order2 = Order::new(140, 6);
    let order3 = Order::new(140, 2);

    price_tree.insert_order(order1);
    price_tree.insert_order(order2);
    price_tree.insert_order(order3);

    let mut iter = price_tree.iter();

    assert_eq!(iter.next_back().unwrap().1.total_quantity(), 8);
    assert_eq!(iter.next_back().unwrap().1.total_quantity(), 3);
}

#[test]
fn test_update_order_quantity() {
    let mut price_tree = PriceTree::new();
    let order = Order::new(130, 9);
    let key = price_tree.insert_order(order);

    assert_eq!(price_tree.update_order_quantity(&key, 4), Ok(()));
    assert_eq!(price_tree.get_order(&key).unwrap().quantity(), 4);
    assert_eq!(price_tree.get_by_price(130).unwrap().total_quantity(), 4);

    price_tree.remove_order(&key).unwrap();
    assert!(price_tree.update_order_quantity(&key, 1).is_err());
}

#[test]
fn test_stale_handle_after_removal() {
    let mut price_tree = PriceTree::new();
    let order = Order::new(77, 3);
    let key = price_tree.insert_order(order);

    assert!(price_tree.remove_order(&key).is_ok());
    // The handle died with the order: a second removal is refused.
    assert!(price_tree.remove_order(&key).is_err());
    assert!(price_tree.get_order(&key).is_none());
}
