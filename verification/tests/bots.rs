use crabex::bots::{check_for_arbitrage, fake_binance_quote, market_maker_order, MarketData};
use crabex::types::{OrderType, Side};

fn md(bid: Option<u64>, ask: Option<u64>) -> MarketData {
    MarketData { best_bid: bid, best_ask: ask }
}

#[test]
fn buys_locally_when_local_ask_is_below_reference_bid() {
    let r = check_for_arbitrage(&md(Some(8), Some(9)), &md(Some(10), Some(11)));
    assert_eq!(r, Some(("Buy", 9)));
}

#[test]
fn sells_locally_when_reference_ask_is_below_local_bid() {
    let r = check_for_arbitrage(&md(Some(12), Some(13)), &md(Some(10), Some(11)));
    assert_eq!(r, Some(("Sell", 12)));
}

#[test]
fn no_signal_inside_the_spread() {
    assert_eq!(check_for_arbitrage(&md(Some(10), Some(11)), &md(Some(10), Some(11))), None);
}

#[test]
fn no_signal_without_all_prices() {
    assert_eq!(check_for_arbitrage(&md(None, Some(9)), &md(Some(10), Some(11))), None);
    assert_eq!(check_for_arbitrage(&md(Some(8), Some(9)), &md(Some(10), None)), None);
}

#[test]
fn reference_quote_cycles() {
    assert_eq!(fake_binance_quote(0), md(Some(9), Some(10)));
    assert_eq!(fake_binance_quote(1), md(Some(10), Some(11)));
    assert_eq!(fake_binance_quote(2), md(Some(11), Some(12)));
    assert_eq!(fake_binance_quote(3), md(Some(9), Some(10)));
}

#[test]
fn market_maker_alternates_sides() {
    let o = market_maker_order(1);
    assert_eq!((o.side, o.price, o.order_id, o.trader_id, o.quantity), (Side::Sell, 102, 1, 111, 1));
    assert_eq!(o.order_type, OrderType::Limit);
    let o = market_maker_order(2);
    assert_eq!((o.side, o.price), (Side::Buy, 92));
    let o = market_maker_order(19);
    assert_eq!((o.side, o.price), (Side::Sell, 110));
}

#[test]
fn arbitrage_order_is_a_one_unit_market_order() {
    let o = crabex::bots::arbitrage_order(Side::Buy, 9, 42);
    assert_eq!((o.order_id, o.trader_id, o.side, o.quantity, o.price, o.timestamp), (42, 333, Side::Buy, 1, 9, 0));
    assert_eq!(o.order_type, OrderType::Market);
}

#[test]
fn fired_orders_are_arbitrage_orders_with_a_drawn_id() {
    let a = crabex::bots::fire_arbitrage_order(Side::Sell, 12);
    let b = crabex::bots::fire_arbitrage_order(Side::Buy, 7);
    assert_eq!(a, crabex::bots::arbitrage_order(Side::Sell, 12, a.order_id));
    assert_eq!(b, crabex::bots::arbitrage_order(Side::Buy, 7, b.order_id));
}
