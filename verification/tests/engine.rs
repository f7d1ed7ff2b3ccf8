use orderlib::Fill;
use orderlib::Order;
use orderlib::OrderBook;
use orderlib::OrderSide;
use orderlib::OrderSide::Buy;
use orderlib::OrderSide::Sell;
use orderlib::OrderType::Ioc;
use orderlib::OrderType::Limit;
use orderlib::OrderType::Market;

#[test]
fn test_add_delete_orderbook() {
    let mut order_book: OrderBook = OrderBook::new();
    let mut order1 = Order::new(Buy, 20, 100, Limit);
    let order1num = order_book.add(order1).0; // len == 1
    assert_eq!(order_book.len_bids(), 1);
    order_book.remove(order1);
    assert_eq!(order_book.len_bids(), 1); // stale identity: still 1
    let original: Order = order_book.best_bid().unwrap();
    order1.order_number = order1num;
    order_book.remove(order1);
    assert_eq!(order_book.len_bids(), 0); // correct identity removes
    order_book.remove(original);
    assert_eq!(order_book.len_bids(), 0); // already removed above

    order_book.add(Order::new(Buy, 20, 100, Limit));
    order_book.add(Order::new(Buy, 30, 101, Limit));
    assert_eq!(order_book.len_bids(), 2);
    let first: Order = order_book.best_bid().unwrap();
    assert_eq!(first.price, 101);
    assert!(order_book.remove(first));
    assert_eq!(order_book.len_bids(), 1);
    let last: Order = order_book.best_bid().unwrap();
    assert_eq!(last.price, 100);
}

#[test]
fn test_sell_limit_order() {
    let mut order_book: OrderBook = OrderBook::new();
    order_book.add(Order::new(Buy, 20, 100, Limit));
    assert_eq!(order_book.len_bids(), 1);
    assert_eq!(order_book.len_offers(), 0);
    order_book.add(Order::new(Buy, 20, 101, Limit));
    let fills: Vec<Fill> = order_book
        .add(Order::new(OrderSide::Sell, 31, 101, Limit))
        .1;
    assert_eq!(fills.len(), 1);
    assert_eq!(fills[0].size, 20);
    assert_eq!(fills[0].price, 101);
    assert_eq!(order_book.len_bids(), 1);
    assert_eq!(order_book.len_offers(), 1);
    assert_eq!(order_book.best_bid().unwrap().price, 100);
    assert_eq!(order_book.best_bid().unwrap().size, 20);
    assert_eq!(order_book.best_offer().unwrap().price, 101);
    assert_eq!(order_book.best_offer().unwrap().size, 11);
}

#[test]
fn test_buy_limit_order() {
    let mut order_book: OrderBook = OrderBook::new();
    order_book.add(Order::new(Sell, 20, 100, Limit));
    assert_eq!(order_book.len_bids(), 0);
    assert_eq!(order_book.len_offers(), 1);
    order_book.add(Order::new(Sell, 20, 101, Limit));
    assert_eq!(order_book.best_offer().unwrap().price, 100);
    let fills: Vec<Fill> = order_book.add(Order::new(Buy, 31, 100, Limit)).1;
    assert_eq!(fills.len(), 1);
    assert_eq!(fills[0].size, 20);
    assert_eq!(fills[0].price, 100);
    assert_eq!(order_book.len_bids(), 1);
    assert_eq!(order_book.len_offers(), 1);
    assert_eq!(order_book.best_bid().unwrap().price, 100);
    assert_eq!(order_book.best_bid().unwrap().size, 11);
    assert_eq!(order_book.best_offer().unwrap().price, 101);
    assert_eq!(order_book.best_offer().unwrap().size, 20);
}

#[test]
fn test_timestamps() {
    let mut order_book: OrderBook = OrderBook::new();
    let order: Order = Order::new(Sell, 20, 100, Limit);
    assert_eq!(order.timestamp, 0);
    order_book.add(order);
    let first: Order = order_book.best_offer().unwrap();
    assert_ne!(first.timestamp, 0);
    let fills: Vec<Fill> = order_book.add(Order::new(Buy, 31, 100, Limit)).1;
    assert_eq!(fills.len(), 1);
    assert_ne!(fills[0].timestamp, 0);
}

#[test]
fn test_delete_orders() {
    let mut order_book: OrderBook = OrderBook::new();
    let order_1_number = order_book.add(Order::new(Buy, 20, 100, Limit)).0;
    order_book.add(Order::new(Buy, 20, 101, Limit));
    let order_3_number = order_book.add(Order::new(Sell, 20, 102, Limit)).0;
    order_book.add(Order::new(Sell, 20, 103, Limit));
    assert_eq!(order_book.len_bids(), 2);
    assert_eq!(order_book.len_offers(), 2);
    let mut to_delete_order_1: Order = Order::new(Buy, 20, 100, Limit);
    to_delete_order_1.order_number = order_1_number;
    order_book.remove(to_delete_order_1);
    assert_eq!(order_book.len_bids(), 1);
    assert_eq!(order_book.len_offers(), 2);
    let mut order3_copy = Order::new(Sell, 20, 102, Limit);
    order3_copy.order_number = order_3_number;
    order_book.remove(order3_copy);
    assert_eq!(order_book.len_bids(), 1);
    assert_eq!(order_book.len_offers(), 1);
}

#[test]
fn test_sell_market_order() {
    let mut order_book: OrderBook = OrderBook::new();
    order_book.add(Order::new(Buy, 20, 100, Limit));
    order_book.add(Order::new(Buy, 20, 101, Limit));
    let fills: Vec<Fill> = order_book.add(Order::new(Sell, 31, 103, Market)).1;
    assert_eq!(fills.len(), 2);
    assert_eq!(order_book.best_bid().unwrap().size, 9);
    assert_eq!(fills[0].size, 20);
    assert_eq!(fills[0].price, 101);
    assert_eq!(fills[1].size, 11);
    assert_eq!(fills[1].price, 100);
}

#[test]
fn test_sell_ioc_order() {
    let mut order_book: OrderBook = OrderBook::new();
    order_book.add(Order::new(Buy, 20, 100, Limit));
    order_book.add(Order::new(Buy, 20, 101, Limit));
    let fills: Vec<Fill> = order_book.add(Order::new(Sell, 31, 101, Ioc)).1;
    assert_eq!(fills.len(), 1);
    assert_eq!(order_book.best_offer(), None);
    assert_eq!(fills[0].size, 20);
    assert_eq!(fills[0].price, 101);
}

#[test]
fn test_no_trade() {
    let mut order_book: OrderBook = OrderBook::new();
    order_book.add(Order::new(Buy, 20, 100, Limit));
    order_book.add(Order::new(Buy, 20, 101, Limit));
    let fills = order_book.add(Order::new(Sell, 31, 102, Limit)).1;
    assert_eq!(order_book.best_offer().unwrap().size, 31);
    assert_eq!(fills.len(), 0);
}

#[test]
fn test_noncrossing_admissions_count() {
    // With an empty opposite book, every admission rests: count == N.
    let mut order_book: OrderBook = OrderBook::new();
    for n in 0..5 {
        let fills = order_book.add(Order::new(Buy, 10 + n, 90 - n, Limit)).1;
        assert_eq!(fills.len(), 0);
        assert_eq!(order_book.len_bids(), (n + 1) as usize);
        assert_eq!(order_book.len_offers(), 0);
    }
}

#[test]
fn test_best_bid_priority_ties() {
    // best_bid is the highest price; equal prices go to the earliest
    // sequence number. Symmetric for best_offer.
    let mut order_book: OrderBook = OrderBook::new();
    let first_at_101 = order_book.add(Order::new(Buy, 5, 101, Limit)).0;
    order_book.add(Order::new(Buy, 7, 100, Limit));
    order_book.add(Order::new(Buy, 9, 101, Limit));
    let best = order_book.best_bid().unwrap();
    assert_eq!(best.price, 101);
    assert_eq!(best.order_number, first_at_101);
    let first_at_200 = order_book.add(Order::new(Sell, 3, 200, Limit)).0;
    order_book.add(Order::new(Sell, 4, 200, Limit));
    order_book.add(Order::new(Sell, 4, 201, Limit));
    let best_ask = order_book.best_offer().unwrap();
    assert_eq!(best_ask.price, 200);
    assert_eq!(best_ask.order_number, first_at_200);
}

#[test]
fn test_fill_size_conservation() {
    // Sum of fill sizes plus the rested remainder equals the admitted size.
    let mut order_book: OrderBook = OrderBook::new();
    order_book.add(Order::new(Buy, 20, 100, Limit));
    order_book.add(Order::new(Buy, 20, 101, Limit));
    let fills = order_book.add(Order::new(Sell, 50, 99, Limit)).1;
    let filled: i64 = fills.iter().map(|f| f.size).sum();
    let rested = order_book.best_offer().unwrap().size;
    assert_eq!(filled + rested, 50);
    assert_eq!(filled, 40);
}

#[test]
fn test_partial_fill_time_priority() {
    // A partially filled order keeps its sequence number and so still
    // precedes a later-admitted order at the same price.
    let mut order_book: OrderBook = OrderBook::new();
    let early = order_book.add(Order::new(Buy, 20, 100, Limit)).0;
    let fills = order_book.add(Order::new(Sell, 5, 100, Limit)).1;
    assert_eq!(fills.len(), 1);
    assert_eq!(fills[0].size, 5);
    order_book.add(Order::new(Buy, 20, 100, Limit));
    let best = order_book.best_bid().unwrap();
    assert_eq!(best.order_number, early);
    assert_eq!(best.size, 15);
}

#[test]
fn test_remove_idempotent() {
    // A second remove with the same identity returns false.
    let mut order_book: OrderBook = OrderBook::new();
    order_book.add(Order::new(Buy, 20, 100, Limit));
    let resting = order_book.best_bid().unwrap();
    assert!(order_book.remove(resting));
    assert!(!order_book.remove(resting));
    assert_eq!(order_book.len_bids(), 0);
}

#[test]
fn test_replace_updates_content() {
    // Replace by identity swaps the stored content and returns the
    // previous order; a pure size change keeps the time-priority position.
    let mut order_book: OrderBook = OrderBook::new();
    let early = order_book.add(Order::new(Buy, 20, 100, Limit)).0;
    order_book.add(Order::new(Buy, 20, 100, Limit));
    let mut smaller = Order::new(Buy, 8, 100, Limit);
    smaller.order_number = early;
    let prev = order_book.replace(smaller).unwrap();
    assert_eq!(prev.size, 20);
    assert_eq!(prev.order_number, early);
    let best = order_book.best_bid().unwrap();
    assert_eq!(best.size, 8);
    assert_eq!(best.order_number, early);
    // an unknown identity inserts and returns nothing
    let mut fresh = Order::new(Sell, 9, 300, Limit);
    fresh.order_number = 1;
    assert!(order_book.replace(fresh).is_none());
    assert_eq!(order_book.len_offers(), 1);
}

#[test]
fn test_next_is_opposite_top() {
    let mut order_book: OrderBook = OrderBook::new();
    assert!(order_book.next(Buy).is_none());
    assert!(order_book.next(Sell).is_none());
    order_book.add(Order::new(Buy, 20, 100, Limit));
    order_book.add(Order::new(Sell, 10, 105, Limit));
    assert_eq!(order_book.next(Buy).unwrap().price, 105);
    assert_eq!(order_book.next(Sell).unwrap().price, 100);
}

#[test]
fn test_empty_book_top_is_none() {
    let order_book: OrderBook = OrderBook::new();
    assert!(order_book.best_bid().is_none());
    assert!(order_book.best_offer().is_none());
    assert_eq!(order_book.len_bids(), 0);
    assert_eq!(order_book.len_offers(), 0);
}

#[test]
fn test_epoch_clock_moves_forward() {
    let t = orderlib::get_epoch_ms();
    assert!(t > 0);
}
