use orderlib::LimitReport;
use orderlib::Order;
use orderlib::OrderBook;
use orderlib::OrderSide::Buy;
use orderlib::OrderSide::Sell;
use orderlib::OrderType::Limit;

/// The volume-weighted average price a report stands for.
fn vwap(report: &LimitReport) -> f64 {
    report.size_weighted_price as f64 / report.size as f64
}

#[test]
fn test_limit_at_size_report() {
    let mut order_book: OrderBook = OrderBook::new();
    order_book.add(Order::new(Buy, 20, 100, Limit));
    order_book.add(Order::new(Buy, 20, 101, Limit));
    order_book.add(Order::new(Sell, 11, 102, Limit));
    let mut report = order_book.limit_at_size(Sell, 30).unwrap();
    assert_eq!(vwap(&report), 100.0 + 2.0 / 3.0);
    assert_eq!(report.size, 30);
    let new_order = Order::new(Sell, 31, 101, Limit);
    let fills = order_book.add(new_order).1;
    report = order_book.limit_at_size(Sell, 30).unwrap();
    assert_eq!(vwap(&report), 100.0);
    assert_eq!(report.size, 20);
    report = order_book.limit_at_size(Buy, 30).unwrap();
    assert_eq!(vwap(&report), 101.5);
    assert_eq!(report.size, 22);
    assert_eq!(order_book.best_offer().unwrap().size, 11);
    assert_eq!(fills[0].size, 20);
    assert_eq!(fills[0].price, 101);
}

#[test]
fn test_size_at_limit_report() {
    let mut order_book: OrderBook = OrderBook::new();
    order_book.add(Order::new(Buy, 20, 100, Limit));
    order_book.add(Order::new(Buy, 20, 101, Limit));
    order_book.add(Order::new(Sell, 20, 102, Limit));
    order_book.add(Order::new(Sell, 20, 103, Limit));
    // limit 100.5 as the exact rational 201/2
    let mut report = order_book.size_at_limit(Sell, 201, 2).unwrap();
    assert_eq!(vwap(&report), 100.5);
    assert_eq!(report.size, 40);
    report = order_book.size_at_limit(Sell, 100, 1).unwrap();
    assert_eq!(vwap(&report), 100.5);
    assert_eq!(report.size, 40);
    // limit 100.75 as 403/4
    report = order_book.size_at_limit(Sell, 403, 4).unwrap();
    assert_eq!(vwap(&report), 100.76923076923077);
    assert_eq!(report.size, 26);
    // limit 102.5 as 205/2
    report = order_book.size_at_limit(Buy, 205, 2).unwrap();
    assert_eq!(vwap(&report), 102.5);
    assert_eq!(report.size, 40);
    assert_eq!(order_book.size_at_limit(Buy, 201, 2), None);
}

#[test]
fn test_size_at_limit_empty_book() {
    let order_book: OrderBook = OrderBook::new();
    assert_eq!(order_book.size_at_limit(Buy, 100, 1), None);
    assert_eq!(order_book.size_at_limit(Sell, 100, 1), None);
}

#[test]
fn test_limit_at_size_zero_request() {
    let mut order_book: OrderBook = OrderBook::new();
    order_book.add(Order::new(Buy, 20, 100, Limit));
    assert_eq!(order_book.limit_at_size(Sell, 0), None);
}

#[test]
fn test_limit_at_size_thin_book() {
    // The book holds less than requested: the report covers what it found.
    let mut order_book: OrderBook = OrderBook::new();
    order_book.add(Order::new(Sell, 7, 50, Limit));
    let report = order_book.limit_at_size(Buy, 100).unwrap();
    assert_eq!(report.size, 7);
    assert_eq!(report.size_weighted_price, 350);
}

#[test]
fn test_size_at_limit_partial_inclusion() {
    // One order is included only partially: the floor formula picks the
    // largest quantity keeping the running average within the limit.
    let mut order_book: OrderBook = OrderBook::new();
    order_book.add(Order::new(Sell, 10, 100, Limit));
    order_book.add(Order::new(Sell, 10, 103, Limit));
    // limit 101: 10 units at 100, then q = floor((1000 - 101*10)/(101 - 103)) = 5
    let report = order_book.size_at_limit(Buy, 101, 1).unwrap();
    assert_eq!(report.size, 15);
    assert_eq!(report.size_weighted_price, 1515);
}
