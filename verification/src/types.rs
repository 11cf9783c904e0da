//! Plain data types shared by the order book, the engine and its clients.

use vstd::prelude::*;

verus! {

/// Which side of the book an order rests on.
#[derive(Clone, Copy, Debug, PartialEq, Eq, Structural)]
pub enum Side {
    Buy,
    Sell,
}

/// A market order takes whatever liquidity there is; a limit order never
/// trades through its price and rests with any unfilled quantity.
#[derive(Clone, Copy, Debug, PartialEq, Eq, Structural)]
pub enum OrderType {
    Market,
    Limit,
}

/// An order as a trader submits it. `price` is per unit of base, in quote;
/// a market order's price only sizes the funds a buy locks.
#[derive(Clone, Copy, Debug, PartialEq, Eq, Structural)]
pub struct Order {
    pub order_id: u64,
    pub trader_id: u64,
    pub order_type: OrderType,
    pub side: Side,
    pub quantity: u64,
    pub price: u64,
    pub timestamp: u64,
}

/// One execution: `quantity` base changes hands at `price` between the
/// buyer and the seller.
#[derive(Clone, Copy, Debug, PartialEq, Eq, Structural)]
pub struct Trade {
    pub trade_id: u64,
    pub buyer_id: u64,
    pub seller_id: u64,
    pub quantity: u64,
    pub price: u64,
    pub timestamp: u64,
}

} // verus!

verus! {

/// A trader's balances: the base asset and the quote asset, each split into
/// what is free to use and what is locked behind resting orders.
#[derive(Clone, Copy, Debug, PartialEq, Eq, Structural)]
pub struct Account {
    pub base_qty_available: u64,
    pub base_qty_locked: u64,
    pub quote_qty_available: u64,
    pub quote_qty_locked: u64,
}

impl Default for Account {
    fn default() -> (a: Self)
        ensures
            a == zero_account(),
    {
        Account { base_qty_available: 0, base_qty_locked: 0, quote_qty_available: 0, quote_qty_locked: 0 }
    }
}

/// The account a trader starts with: every balance zero.
pub open spec fn zero_account() -> Account {
    Account { base_qty_available: 0, base_qty_locked: 0, quote_qty_available: 0, quote_qty_locked: 0 }
}

/// A request to the engine, as clients send it.
#[derive(Clone, Copy, Debug)]
pub enum EngineMessage {
    PlaceOrder(Order),
    CancelOrder { side: Side, price: u64, target_order_id: u64 },
}

/// Order book depth: `(price, quantity)` per level of each side.
#[derive(Debug)]
pub struct MarketData {
    pub bids: Vec<(u64, u64)>,
    pub asks: Vec<(u64, u64)>,
}

} // verus!
