use crabex::orderbook::OrderBook;
use crabex::types::{Order, OrderType, Side};
use std::time::{Duration, UNIX_EPOCH};

fn limit(order_id: u64, trader_id: u64, side: Side, quantity: u64, price: u64) -> Order {
    Order { order_id, trader_id, order_type: OrderType::Limit, side, quantity, price, timestamp: 0 }
}

fn market(order_id: u64, trader_id: u64, side: Side, quantity: u64) -> Order {
    Order { order_id, trader_id, order_type: OrderType::Market, side, quantity, price: 0, timestamp: 0 }
}

fn level_ids(book: &OrderBook, side: Side, price: u64) -> Vec<(u64, u64)> {
    let tree = match side {
        Side::Buy => &book.bids,
        Side::Sell => &book.asks,
    };
    match tree.get(&price) {
        Some(q) => q.iter().map(|o| (o.order_id, o.quantity)).collect(),
        None => Vec::new(),
    }
}

#[test]
fn new_book_is_empty() {
    let book = OrderBook::new();
    assert!(book.bids.is_empty());
    assert!(book.asks.is_empty());
    assert_eq!(book.trade_counter, 0);
    assert_eq!(book.best_bid(), None);
    assert_eq!(book.best_ask(), None);
}

#[test]
fn limit_order_without_counterparty_rests() {
    let mut book = OrderBook::new();
    let trades = book.process_order(limit(1, 7, Side::Buy, 5, 100));
    assert!(trades.is_empty());
    assert_eq!(level_ids(&book, Side::Buy, 100), vec![(1, 5)]);
    assert_eq!(book.best_bid(), Some(100));
    assert_eq!(book.best_ask(), None);
    assert_eq!(book.trade_counter, 0);
}

#[test]
fn crossing_sell_trades_at_resting_price() {
    let mut book = OrderBook::new();
    book.process_order(limit(1, 7, Side::Buy, 5, 100));
    let trades = book.process_order(limit(2, 8, Side::Sell, 3, 95));
    assert_eq!(trades.len(), 1);
    assert_eq!(trades[0].trade_id, 1);
    assert_eq!(trades[0].buyer_id, 7);
    assert_eq!(trades[0].seller_id, 8);
    assert_eq!(trades[0].price, 100);
    assert_eq!(trades[0].quantity, 3);
    assert_eq!(level_ids(&book, Side::Buy, 100), vec![(1, 2)]);
    assert!(book.asks.is_empty());
    assert_eq!(book.trade_counter, 1);
}

#[test]
fn buy_takes_lowest_ask_first() {
    let mut book = OrderBook::new();
    book.process_order(limit(1, 1, Side::Sell, 2, 101));
    book.process_order(limit(2, 2, Side::Sell, 2, 100));
    let trades = book.process_order(limit(3, 3, Side::Buy, 3, 101));
    assert_eq!(trades.len(), 2);
    assert_eq!((trades[0].price, trades[0].quantity, trades[0].seller_id), (100, 2, 2));
    assert_eq!((trades[1].price, trades[1].quantity, trades[1].seller_id), (101, 1, 1));
    assert_eq!((trades[0].trade_id, trades[1].trade_id), (1, 2));
    assert!(book.asks.get(&100).is_none());
    assert_eq!(level_ids(&book, Side::Sell, 101), vec![(1, 1)]);
    assert!(book.bids.is_empty());
}

#[test]
fn sell_takes_highest_bid_first() {
    let mut book = OrderBook::new();
    book.process_order(limit(1, 1, Side::Buy, 1, 90));
    book.process_order(limit(2, 2, Side::Buy, 1, 95));
    let trades = book.process_order(market(3, 3, Side::Sell, 2));
    assert_eq!(trades.len(), 2);
    assert_eq!((trades[0].price, trades[0].buyer_id), (95, 2));
    assert_eq!((trades[1].price, trades[1].buyer_id), (90, 1));
    assert!(book.bids.is_empty());
}

#[test]
fn earlier_order_at_a_level_fills_first() {
    let mut book = OrderBook::new();
    book.process_order(limit(1, 1, Side::Sell, 2, 100));
    book.process_order(limit(2, 2, Side::Sell, 2, 100));
    let trades = book.process_order(limit(3, 3, Side::Buy, 3, 100));
    assert_eq!(trades.len(), 2);
    assert_eq!((trades[0].seller_id, trades[0].quantity), (1, 2));
    assert_eq!((trades[1].seller_id, trades[1].quantity), (2, 1));
    assert_eq!(level_ids(&book, Side::Sell, 100), vec![(2, 1)]);
}

#[test]
fn limit_buy_never_pays_above_its_price() {
    let mut book = OrderBook::new();
    book.process_order(limit(1, 1, Side::Sell, 1, 100));
    book.process_order(limit(2, 1, Side::Sell, 1, 105));
    let trades = book.process_order(limit(3, 2, Side::Buy, 5, 102));
    assert_eq!(trades.len(), 1);
    assert_eq!(trades[0].price, 100);
    assert_eq!(level_ids(&book, Side::Buy, 102), vec![(3, 4)]);
    assert_eq!(level_ids(&book, Side::Sell, 105), vec![(2, 1)]);
    assert!(book.best_bid().unwrap() < book.best_ask().unwrap());
}

#[test]
fn market_order_rest_is_dropped() {
    let mut book = OrderBook::new();
    book.process_order(limit(1, 1, Side::Sell, 1, 100));
    let trades = book.process_order(market(2, 2, Side::Buy, 4));
    assert_eq!(trades.len(), 1);
    assert_eq!(trades[0].quantity, 1);
    assert!(book.asks.is_empty());
    assert!(book.bids.is_empty());
}

#[test]
fn market_order_on_empty_book_does_nothing() {
    let mut book = OrderBook::new();
    let trades = book.process_order(market(1, 1, Side::Sell, 4));
    assert!(trades.is_empty());
    assert!(book.bids.is_empty() && book.asks.is_empty());
}

#[test]
fn zero_quantity_order_still_meets_the_front_order() {
    let mut book = OrderBook::new();
    book.process_order(limit(1, 1, Side::Sell, 3, 100));
    let trades = book.process_order(limit(2, 2, Side::Buy, 0, 100));
    assert_eq!(trades.len(), 1);
    assert_eq!(trades[0].quantity, 0);
    assert_eq!(level_ids(&book, Side::Sell, 100), vec![(1, 3)]);
    assert!(book.bids.is_empty());
}

#[test]
fn cancel_returns_the_order_and_empties_the_level() {
    let mut book = OrderBook::new();
    book.process_order(limit(1, 7, Side::Buy, 5, 100));
    let cancelled = book.cancel_order(Side::Buy, 100, 1);
    assert_eq!(cancelled, Some(limit(1, 7, Side::Buy, 5, 100)));
    assert!(book.bids.is_empty());
}

#[test]
fn cancel_keeps_other_orders_in_place() {
    let mut book = OrderBook::new();
    book.process_order(limit(1, 7, Side::Sell, 5, 100));
    book.process_order(limit(2, 8, Side::Sell, 6, 100));
    book.process_order(limit(3, 9, Side::Sell, 7, 100));
    let cancelled = book.cancel_order(Side::Sell, 100, 2);
    assert_eq!(cancelled.map(|o| o.trader_id), Some(8));
    assert_eq!(level_ids(&book, Side::Sell, 100), vec![(1, 5), (3, 7)]);
}

#[test]
fn cancel_of_unknown_order_changes_nothing() {
    let mut book = OrderBook::new();
    book.process_order(limit(1, 7, Side::Sell, 5, 100));
    assert_eq!(book.cancel_order(Side::Sell, 100, 9), None);
    assert_eq!(book.cancel_order(Side::Sell, 101, 1), None);
    assert_eq!(book.cancel_order(Side::Buy, 100, 1), None);
    assert_eq!(level_ids(&book, Side::Sell, 100), vec![(1, 5)]);
}

#[test]
fn cancel_removes_every_order_with_the_id() {
    let mut book = OrderBook::new();
    book.process_order(limit(4, 1, Side::Buy, 1, 50));
    book.process_order(limit(4, 2, Side::Buy, 2, 50));
    let cancelled = book.cancel_order(Side::Buy, 50, 4);
    assert_eq!(cancelled.map(|o| o.trader_id), Some(1));
    assert!(book.bids.is_empty());
}

#[test]
fn best_prices_track_the_top_of_book() {
    let mut book = OrderBook::new();
    book.process_order(limit(1, 1, Side::Buy, 1, 90));
    book.process_order(limit(2, 1, Side::Buy, 1, 95));
    book.process_order(limit(3, 1, Side::Sell, 1, 110));
    book.process_order(limit(4, 1, Side::Sell, 1, 105));
    assert_eq!(book.best_bid(), Some(95));
    assert_eq!(book.best_ask(), Some(105));
}

#[test]
fn quantity_is_conserved_through_a_sweep() {
    let mut book = OrderBook::new();
    book.process_order(limit(1, 1, Side::Sell, 2, 100));
    book.process_order(limit(2, 1, Side::Sell, 3, 101));
    let trades = book.process_order(limit(3, 2, Side::Buy, 10, 101));
    let filled: u64 = trades.iter().map(|t| t.quantity).sum();
    assert_eq!(filled, 5);
    assert_eq!(level_ids(&book, Side::Buy, 101), vec![(3, 5)]);
}

#[test]
fn trades_carry_the_wall_clock_time() {
    let mut book = OrderBook::new();
    book.process_order(limit(1, 1, Side::Sell, 1, 100));
    let trades = book.process_order(limit(2, 2, Side::Buy, 1, 100));
    assert!(trades[0].timestamp > 1_600_000_000);
}

#[test]
fn trade_for_fill_names_buyer_and_seller_by_the_taker_side() {
    let maker = limit(7, 70, Side::Sell, 5, 100);
    let taker = limit(8, 80, Side::Buy, 3, 105);
    let t = crabex::orderbook::trade_for_fill(&taker, &maker, 100, 3, 12, 1_700_000_123);
    assert_eq!((t.trade_id, t.buyer_id, t.seller_id, t.quantity, t.price, t.timestamp), (12, 80, 70, 3, 100, 1_700_000_123));
    let maker = limit(9, 90, Side::Buy, 5, 99);
    let taker = limit(10, 11, Side::Sell, 2, 95);
    let t = crabex::orderbook::trade_for_fill(&taker, &maker, 99, 2, 13, 0);
    assert_eq!((t.trade_id, t.buyer_id, t.seller_id, t.quantity, t.price, t.timestamp), (13, 90, 11, 2, 99, 0));
}

#[test]
fn stamp_is_the_elapsed_seconds_or_zero_before_the_epoch() {
    let five = UNIX_EPOCH + Duration::from_millis(5_900);
    assert_eq!(crabex::clock::trade_timestamp(five.duration_since(UNIX_EPOCH)), 5);
    let later = UNIX_EPOCH + Duration::from_secs(1_700_000_000);
    assert_eq!(crabex::clock::trade_timestamp(later.duration_since(UNIX_EPOCH)), 1_700_000_000);
    assert_eq!(crabex::clock::trade_timestamp(UNIX_EPOCH.duration_since(five)), 0);
}
