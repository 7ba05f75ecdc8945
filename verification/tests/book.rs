use order_book::book::{CancelError, L2Entry, OrderBook, OrderType, PlaceError};
use order_book::resp::Response;

fn entry(price: u32, total_quantity: u32, num_orders: usize) -> L2Entry {
    L2Entry { price, total_quantity, num_orders }
}

#[test]
fn test_empty_book_rest() {
    let mut book = OrderBook::new();
    let (_a, fills) = book.place_order(100, 10, OrderType::Ask).unwrap();
    assert!(fills.is_empty());
    let snap = book.view_book_l2();
    assert_eq!(snap.bid, vec![]);
    assert_eq!(snap.ask, vec![entry(100, 10, 1)]);
}

#[test]
fn test_full_cross() {
    let mut book = OrderBook::new();
    let (a, _) = book.place_order(100, 10, OrderType::Ask).unwrap();
    let (b, fills) = book.place_order(100, 10, OrderType::Bid).unwrap();
    assert_eq!(fills.len(), 1);
    assert_eq!(fills[0].aggressor_id, b);
    assert_eq!(fills[0].resting_id, a);
    assert_eq!(fills[0].price, 100);
    assert_eq!(fills[0].quantity, 10);
    let snap = book.view_book_l2();
    assert_eq!(snap.bid, vec![]);
    assert_eq!(snap.ask, vec![]);
    assert_eq!(book.cancel_order(a), Err(CancelError::AlreadyGone));
    assert_eq!(book.cancel_order(b), Err(CancelError::AlreadyGone));
}

#[test]
fn test_partial_cross_remainder_rests() {
    let mut book = OrderBook::new();
    let (a, _) = book.place_order(100, 10, OrderType::Ask).unwrap();
    let (b, fills) = book.place_order(100, 4, OrderType::Bid).unwrap();
    assert_eq!(fills.len(), 1);
    assert_eq!(fills[0].aggressor_id, b);
    assert_eq!(fills[0].resting_id, a);
    assert_eq!(fills[0].price, 100);
    assert_eq!(fills[0].quantity, 4);
    let snap = book.view_book_l2();
    assert_eq!(snap.bid, vec![]);
    assert_eq!(snap.ask, vec![entry(100, 6, 1)]);

    let (c, fills2) = book.place_order(100, 10, OrderType::Bid).unwrap();
    assert_eq!(fills2.len(), 1);
    assert_eq!(fills2[0].aggressor_id, c);
    assert_eq!(fills2[0].resting_id, a);
    assert_eq!(fills2[0].price, 100);
    assert_eq!(fills2[0].quantity, 6);
    let snap2 = book.view_book_l2();
    assert_eq!(snap2.bid, vec![entry(100, 4, 1)]);
    assert_eq!(snap2.ask, vec![]);
}

#[test]
fn test_price_time_priority_at_level() {
    let mut book = OrderBook::new();
    let (a, _) = book.place_order(100, 5, OrderType::Ask).unwrap();
    let (b, _) = book.place_order(100, 5, OrderType::Ask).unwrap();
    let (_c, _) = book.place_order(101, 5, OrderType::Ask).unwrap();
    let (d, fills) = book.place_order(101, 8, OrderType::Bid).unwrap();
    assert_eq!(fills.len(), 2);
    assert_eq!(fills[0].aggressor_id, d);
    assert_eq!(fills[0].resting_id, a);
    assert_eq!(fills[0].price, 100);
    assert_eq!(fills[0].quantity, 5);
    assert_eq!(fills[1].aggressor_id, d);
    assert_eq!(fills[1].resting_id, b);
    assert_eq!(fills[1].price, 100);
    assert_eq!(fills[1].quantity, 3);
    let snap = book.view_book_l2();
    assert_eq!(snap.bid, vec![]);
    assert_eq!(snap.ask, vec![entry(100, 2, 1), entry(101, 5, 1)]);
}

#[test]
fn test_walk_stops_at_unacceptable_price() {
    let mut book = OrderBook::new();
    book.place_order(101, 5, OrderType::Ask).unwrap();
    let (_b, fills) = book.place_order(100, 5, OrderType::Bid).unwrap();
    assert!(fills.is_empty());
    let snap = book.view_book_l2();
    assert_eq!(snap.bid, vec![entry(100, 5, 1)]);
    assert_eq!(snap.ask, vec![entry(101, 5, 1)]);
}

#[test]
fn test_reject() {
    let mut book = OrderBook::new();
    assert_eq!(book.place_order(0, 5, OrderType::Bid), Err(PlaceError::Rejected));
    assert_eq!(book.place_order(10, 0, OrderType::Bid), Err(PlaceError::Rejected));
    assert_eq!(
        book.cancel_order(0x1234_5678_9abc_def0_1122_3344_5566_7788u128),
        Err(CancelError::Unknown)
    );
}

#[test]
fn test_cancel_resting_order() {
    let mut book = OrderBook::new();
    let (a, _) = book.place_order(100, 10, OrderType::Ask).unwrap();
    assert_eq!(book.cancel_order(a), Ok(()));
    let snap = book.view_book_l2();
    assert_eq!(snap.ask, vec![]);
    // Cancelling again finds the tombstone, not the order.
    assert_eq!(book.cancel_order(a), Err(CancelError::AlreadyGone));
}

#[test]
fn test_aggregate_consistency_snapshot() {
    // Two orders at one price merge into one level whose total and count
    // aggregate both, while another price forms its own level.
    let mut book = OrderBook::new();
    book.place_order(100, 10, OrderType::Ask).unwrap();
    book.place_order(100, 4, OrderType::Ask).unwrap();
    book.place_order(150, 5, OrderType::Ask).unwrap();
    book.place_order(90, 7, OrderType::Bid).unwrap();
    book.place_order(80, 2, OrderType::Bid).unwrap();
    let snap = book.view_book_l2();
    assert_eq!(snap.ask, vec![entry(100, 14, 2), entry(150, 5, 1)]);
    // Bids are reported best (highest) first.
    assert_eq!(snap.bid, vec![entry(90, 7, 1), entry(80, 2, 1)]);
}

#[test]
fn test_conservation_of_quantity() {
    // Filled quantity plus the resting remainder equals the incoming
    // quantity.
    let mut book = OrderBook::new();
    book.place_order(100, 3, OrderType::Ask).unwrap();
    book.place_order(101, 4, OrderType::Ask).unwrap();
    let (_b, fills) = book.place_order(102, 12, OrderType::Bid).unwrap();
    let filled: u32 = fills.iter().map(|f| f.quantity).sum();
    let snap = book.view_book_l2();
    let rested: u32 = snap.bid.iter().map(|e| e.total_quantity).sum();
    assert_eq!(filled + rested, 12);
    assert_eq!(filled, 7);
}

#[test]
fn test_fill_sequence_monotone() {
    let mut book = OrderBook::new();
    book.place_order(100, 5, OrderType::Ask).unwrap();
    book.place_order(101, 5, OrderType::Ask).unwrap();
    let (_b, fills) = book.place_order(101, 10, OrderType::Bid).unwrap();
    assert_eq!(fills.len(), 2);
    assert!(fills[0].sequence < fills[1].sequence);
    book.place_order(102, 5, OrderType::Ask).unwrap();
    let (_c, fills2) = book.place_order(102, 5, OrderType::Bid).unwrap();
    assert_eq!(fills2.len(), 1);
    assert!(fills[1].sequence < fills2[0].sequence);
}

#[test]
fn test_snapshot_monotone_and_uncrossed() {
    let mut book = OrderBook::new();
    book.place_order(105, 1, OrderType::Ask).unwrap();
    book.place_order(103, 2, OrderType::Ask).unwrap();
    book.place_order(104, 3, OrderType::Ask).unwrap();
    book.place_order(99, 1, OrderType::Bid).unwrap();
    book.place_order(101, 2, OrderType::Bid).unwrap();
    book.place_order(100, 3, OrderType::Bid).unwrap();
    let snap = book.view_book_l2();
    // Bid prices strictly decrease, ask prices strictly increase.
    for w in snap.bid.windows(2) {
        assert!(w[0].price > w[1].price);
    }
    for w in snap.ask.windows(2) {
        assert!(w[0].price < w[1].price);
    }
    // Best bid is below best ask.
    assert!(snap.bid[0].price < snap.ask[0].price);
}

#[test]
fn test_ids_are_distinct() {
    let mut book = OrderBook::new();
    let (a, _) = book.place_order(100, 1, OrderType::Ask).unwrap();
    let (b, _) = book.place_order(100, 1, OrderType::Ask).unwrap();
    let (c, _) = book.place_order(90, 1, OrderType::Bid).unwrap();
    assert_ne!(a, b);
    assert_ne!(a, c);
    assert_ne!(b, c);
}

#[test]
fn test_aggressor_tombstoned_when_fully_filled() {
    let mut book = OrderBook::new();
    book.place_order(100, 10, OrderType::Ask).unwrap();
    let (b, _) = book.place_order(100, 10, OrderType::Bid).unwrap();
    // The aggressor never rested, yet its id is known to be gone.
    assert_eq!(book.cancel_order(b), Err(CancelError::AlreadyGone));
}

#[test]
fn test_response_mapping() {
    let mut book = OrderBook::new();
    let placed = book.place_order(100, 5, OrderType::Ask);
    assert!(matches!(Response::of_place(&placed), Response::PlaceOk(_)));
    let rejected = book.place_order(0, 5, OrderType::Bid);
    assert!(matches!(Response::of_place(&rejected), Response::PlaceErr));
    assert!(matches!(
        Response::of_cancel(book.cancel_order(1)),
        Response::CancelErr
    ));
    let (a, _) = placed.unwrap();
    assert!(matches!(Response::of_cancel(book.cancel_order(a)), Response::CancelOk));
    assert!(matches!(Response::of_l2(book.view_book_l2()), Response::L2BookOk(_)));
}
