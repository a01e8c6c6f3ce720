use exchanges::matching::{MatchingEngine, Trade};
use exchanges::order::{AccountId, Order, OrderId, Price, Quantity, Side, Timestamp};

fn order(id: u64, price: u64, qty: u64, side: Side, who: &str, ts: u64) -> Order {
    Order::new(
        OrderId::new(id),
        Price::new(price),
        Quantity::new(qty),
        side,
        AccountId::new(who.to_string()),
        Timestamp::new(ts),
    )
}

fn summary(trades: &Vec<Trade>) -> Vec<(u64, u64, u64, u64)> {
    trades
        .iter()
        .map(|t| (t.ask_order_id.get(), t.bid_order_id.get(), t.price.get(), t.quantity.get()))
        .collect()
}

#[test]
fn test_matching() {
    let mut engine = MatchingEngine::new();

    // Add some asks
    engine.process_order(Order::new(
        OrderId::new(1),
        Price::new(100),
        Quantity::new(10),
        Side::Ask,
        AccountId::new("trader1".to_string()),
        Timestamp::new(1),
    ));
    engine.process_order(Order::new(
        OrderId::new(2),
        Price::new(101),
        Quantity::new(5),
        Side::Ask,
        AccountId::new("trader2".to_string()),
        Timestamp::new(2),
    ));

    // Add a matching bid
    engine.process_order(Order::new(
        OrderId::new(3),
        Price::new(101),
        Quantity::new(7),
        Side::Bid,
        AccountId::new("trader3".to_string()),
        Timestamp::new(3),
    ));

    // Should get a partial fill
    engine.process_order(Order::new(
        OrderId::new(4),
        Price::new(101),
        Quantity::new(2),
        Side::Bid,
        AccountId::new("trader4".to_string()),
        Timestamp::new(4),
    ));
}

#[test]
fn matching_walks_the_book_in_priority() {
    let mut engine = MatchingEngine::new();
    assert!(engine.process_order(order(1, 100, 10, Side::Ask, "trader1", 1)).is_empty());
    assert!(engine.process_order(order(2, 101, 5, Side::Ask, "trader2", 2)).is_empty());
    let t = engine.process_order(order(3, 101, 7, Side::Bid, "trader3", 3));
    assert_eq!(summary(&t), vec![(1, 3, 100, 7)]);
    assert_eq!(t[0].ask_account_id, AccountId::new("trader1".to_string()));
    assert_eq!(t[0].bid_account_id, AccountId::new("trader3".to_string()));
    let t = engine.process_order(order(4, 101, 2, Side::Bid, "trader4", 4));
    assert_eq!(summary(&t), vec![(1, 4, 100, 2)]);
    // One unit is left at 100, five at 101; a bid for eight takes both and rests with two.
    let t = engine.process_order(order(5, 101, 8, Side::Bid, "trader5", 5));
    assert_eq!(summary(&t), vec![(1, 5, 100, 1), (2, 5, 101, 5)]);
    let rest = engine.cancel_order(OrderId::new(5), Side::Bid, Price::new(101)).unwrap();
    assert_eq!(rest.quantity, Quantity::new(2));
    assert!(engine.cancel_order(OrderId::new(1), Side::Ask, Price::new(100)).is_none());
    assert!(engine.cancel_order(OrderId::new(2), Side::Ask, Price::new(101)).is_none());
}

#[test]
fn fifo_within_a_level() {
    let mut engine = MatchingEngine::new();
    engine.process_order(order(1, 50_000, 2, Side::Ask, "ann", 1));
    engine.process_order(order(2, 50_000, 2, Side::Ask, "bob", 2));
    let t = engine.process_order(order(3, 50_000, 3, Side::Bid, "carol", 3));
    assert_eq!(summary(&t), vec![(1, 3, 50_000, 2), (2, 3, 50_000, 1)]);
    let rest = engine.cancel_order(OrderId::new(2), Side::Ask, Price::new(50_000)).unwrap();
    assert_eq!(rest.quantity, Quantity::new(1));
    assert_eq!(rest.account_id, AccountId::new("bob".to_string()));
}

#[test]
fn ask_takes_the_highest_bid_at_the_bid_price() {
    let mut engine = MatchingEngine::new();
    engine.process_order(order(1, 98, 5, Side::Bid, "a", 1));
    engine.process_order(order(2, 100, 5, Side::Bid, "b", 2));
    engine.process_order(order(3, 99, 5, Side::Bid, "c", 3));
    let t = engine.process_order(order(4, 99, 12, Side::Ask, "d", 4));
    assert_eq!(summary(&t), vec![(4, 2, 100, 5), (4, 3, 99, 5)]);
    assert_eq!(t[0].ask_account_id, AccountId::new("d".to_string()));
    assert_eq!(t[0].bid_account_id, AccountId::new("b".to_string()));
    // The two units that found no bid rest as an ask at 99.
    let rest = engine.cancel_order(OrderId::new(4), Side::Ask, Price::new(99)).unwrap();
    assert_eq!(rest.quantity, Quantity::new(2));
    let low = engine.cancel_order(OrderId::new(1), Side::Bid, Price::new(98)).unwrap();
    assert_eq!(low.quantity, Quantity::new(5));
}

#[test]
fn order_that_does_not_cross_rests() {
    let mut engine = MatchingEngine::new();
    engine.process_order(order(1, 100, 5, Side::Ask, "a", 1));
    assert!(engine.process_order(order(2, 99, 5, Side::Bid, "b", 2)).is_empty());
    assert!(engine.process_order(order(3, 100, 0, Side::Bid, "b", 3)).is_empty());
    assert!(engine.cancel_order(OrderId::new(3), Side::Bid, Price::new(100)).is_none());
    assert!(engine.cancel_order(OrderId::new(2), Side::Bid, Price::new(99)).is_some());
    assert!(engine.cancel_order(OrderId::new(1), Side::Ask, Price::new(100)).is_some());
}
