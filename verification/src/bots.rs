//! The decisions of the two trading bots: the market maker's quote stream
//! and the arbitrageur's comparison of two venues.

use vstd::prelude::*;
use crate::types::{Order, OrderType, Side};

verus! {

/// The top of a venue's book: its best bid and best ask, when there are any.
#[derive(Clone, Copy, Debug, PartialEq, Eq, Structural)]
pub struct MarketData {
    pub best_bid: Option<u64>,
    pub best_ask: Option<u64>,
}

/// Compares the local venue with the reference venue. When the local ask is
/// below the reference bid, buy locally at that ask; otherwise, when the
/// reference ask is below the local bid, sell locally at that bid. Needs all
/// four prices.
pub fn check_for_arbitrage<'a>(crabex: &MarketData, binance: &MarketData) -> (r: Option<(&'a str, u64)>)
    ensures
        match (crabex.best_bid, crabex.best_ask, binance.best_bid, binance.best_ask) {
            (Some(c_bid), Some(c_ask), Some(b_bid), Some(b_ask)) => {
                if c_ask < b_bid {
                    r matches Some((s, p)) && s@ == "Buy"@ && p == c_ask
                } else if b_ask < c_bid {
                    r matches Some((s, p)) && s@ == "Sell"@ && p == c_bid
                } else {
                    r is None
                }
            },
            _ => r is None,
        },
{
    match (crabex.best_bid, crabex.best_ask, binance.best_bid, binance.best_ask) {
        (Some(c_bid), Some(c_ask), Some(b_bid), Some(b_ask)) => {
            if c_ask < b_bid {
                Some(("Buy", c_ask))
            } else if b_ask < c_bid {
                Some(("Sell", c_bid))
            } else {
                None
            }
        },
        _ => None,
    }
}

/// The reference venue's quote at tick `counter`: the bid cycles through 9,
/// 10 and 11, and the ask is one above it.
pub fn fake_binance_quote(counter: u64) -> (q: MarketData)
    ensures
        q.best_bid == Some((9 + counter % 3) as u64),
        q.best_ask == Some((10 + counter % 3) as u64),
{
    let fake_bid = 9 + (counter % 3);
    let fake_ask = fake_bid + 1;
    MarketData { best_bid: Some(fake_bid), best_ask: Some(fake_ask) }
}

/// The market maker's `i`-th order: a one-unit limit order of trader 111,
/// buying at 90 + i % 10 when `i` is even and selling at 101 + i % 10 when it
/// is odd, so its bids always sit below its asks.
pub fn market_maker_order(i: u64) -> (o: Order)
    ensures
        o.order_id == i,
        o.trader_id == 111,
        o.order_type == OrderType::Limit,
        o.quantity == 1,
        o.timestamp == 0,
        i % 2 == 0 ==> o.side == Side::Buy && o.price == 90 + i % 10,
        i % 2 == 1 ==> o.side == Side::Sell && o.price == 101 + i % 10,
{
    let side = if i % 2 == 0 { Side::Buy } else { Side::Sell };
    let price = match side {
        Side::Buy => 90 + (i % 10),
        Side::Sell => 101 + (i % 10),
    };
    Order { order_id: i, trader_id: 111, order_type: OrderType::Limit, side, quantity: 1, price, timestamp: 0 }
}


/// The arbitrageur's order: one unit at `price` on `side`, as a market order
/// of trader 333 under id `order_id`.
pub fn arbitrage_order(side: Side, price: u64, order_id: u64) -> (o: Order)
    ensures
        o.order_id == order_id,
        o.trader_id == 333,
        o.order_type == OrderType::Market,
        o.side == side,
        o.quantity == 1,
        o.price == price,
        o.timestamp == 0,
{
    Order { order_id, trader_id: 333, order_type: OrderType::Market, side, quantity: 1, price, timestamp: 0 }
}

/// Calls `rand::random::<u64>()`, which draws from the thread-local
/// generator; any `u64` may come back, so nothing is claimed of the result.
#[verifier::external_body]
fn random_order_id() -> u64 {
    rand::random()
}

/// The order the arbitrageur fires on a signal: `arbitrage_order` under a
/// freshly drawn random id (the id itself may be any `u64`).
pub fn fire_arbitrage_order(side: Side, price: u64) -> (o: Order)
    ensures
        o == arbitrage_order_with_id(side, price, o.order_id),
        o.trader_id == 333,
        o.order_type == OrderType::Market,
        o.side == side,
        o.quantity == 1,
        o.price == price,
        o.timestamp == 0,
{
    let id = random_order_id();
    arbitrage_order(side, price, id)
}

/// The value `arbitrage_order(side, price, order_id)` returns.
pub open spec fn arbitrage_order_with_id(side: Side, price: u64, order_id: u64) -> Order {
    Order { order_id, trader_id: 333, order_type: OrderType::Market, side, quantity: 1, price, timestamp: 0 }
}

/// Whatever id it is drawn under, the arbitrageur's order is a market order
/// of trader 333 for exactly one unit at the signalled price and side, and
/// two draws give orders that differ in their id alone.
pub proof fn lemma_arbitrage_order_is_one_unit(side: Side, price: u64, id1: u64, id2: u64)
    ensures
        arbitrage_order_with_id(side, price, id1).quantity == 1,
        arbitrage_order_with_id(side, price, id1).trader_id == 333,
        arbitrage_order_with_id(side, price, id1).order_type == OrderType::Market,
        arbitrage_order_with_id(side, price, id1).side == side,
        arbitrage_order_with_id(side, price, id1).price == price,
        arbitrage_order_with_id(side, price, id1).order_id == id1,
        arbitrage_order_with_id(side, price, id2) == (Order { order_id: id2, ..arbitrage_order_with_id(side, price, id1) }),
{
}

} // verus!
