use crabex::engine::{Asset, Engine};
use crabex::types::{Account, Order, OrderType, Side};

fn limit(order_id: u64, trader_id: u64, side: Side, quantity: u64, price: u64) -> Order {
    Order { order_id, trader_id, order_type: OrderType::Limit, side, quantity, price, timestamp: 0 }
}

fn account(e: &Engine, trader: u64) -> Account {
    *e.accounts.get(&trader).unwrap()
}

fn funded() -> Engine {
    let mut e = Engine::new();
    e.deposit(1, 1_000, Asset::Base);
    e.deposit(1, 1_000, Asset::Quote);
    e.deposit(2, 1_000, Asset::Base);
    e.deposit(2, 1_000, Asset::Quote);
    e
}

#[test]
fn deposit_credits_free_balance() {
    let mut e = Engine::new();
    e.deposit(5, 10, Asset::Base);
    e.deposit(5, 3, Asset::Quote);
    e.deposit(5, 2, Asset::Base);
    let a = account(&e, 5);
    assert_eq!((a.base_qty_available, a.quote_qty_available, a.base_qty_locked, a.quote_qty_locked), (12, 3, 0, 0));
}

#[test]
fn zero_deposit_is_ignored() {
    let mut e = Engine::new();
    e.deposit(5, 0, Asset::Base);
    assert!(e.accounts.is_empty());
}

#[test]
fn lock_moves_funds_to_locked() {
    let mut e = funded();
    assert_eq!(e.lock_funds(1, 300, Asset::Quote), Ok(()));
    let a = account(&e, 1);
    assert_eq!((a.quote_qty_available, a.quote_qty_locked), (700, 300));
}

#[test]
fn lock_errors() {
    let mut e = funded();
    assert_eq!(e.lock_funds(1, 0, Asset::Base), Err("Invalid amount".to_string()));
    assert_eq!(e.lock_funds(1, 5_000, Asset::Base), Err("Not enough base funds".to_string()));
    assert_eq!(e.lock_funds(1, 5_000, Asset::Quote), Err("Not enough quote funds".to_string()));
    assert_eq!(e.lock_funds(9, 1, Asset::Quote), Err("Not enough quote funds".to_string()));
    assert_eq!(account(&e, 9), Account::default());
}

#[test]
fn withdraw_and_errors() {
    let mut e = funded();
    assert_eq!(e.withdraw(1, 400, Asset::Base), Ok(()));
    assert_eq!(account(&e, 1).base_qty_available, 600);
    assert_eq!(e.withdraw(1, 0, Asset::Base), Err("Invalid amount".to_string()));
    assert_eq!(e.withdraw(1, 601, Asset::Base), Err("Not enough base funds".to_string()));
    assert_eq!(e.withdraw(1, 1_001, Asset::Quote), Err("Not enough quote funds".to_string()));
}

#[test]
fn deposit_then_withdraw_restores_the_account() {
    let mut e = funded();
    let before = account(&e, 2);
    e.deposit(2, 55, Asset::Quote);
    assert_eq!(e.withdraw(2, 55, Asset::Quote), Ok(()));
    assert_eq!(account(&e, 2), before);
}

#[test]
fn invalid_order_is_refused() {
    let mut e = funded();
    let msg = "Invalid price or qunatity in order".to_string();
    assert_eq!(e.place_order(limit(1, 1, Side::Buy, 0, 10)), Err(msg.clone()));
    assert_eq!(e.place_order(limit(1, 1, Side::Buy, 10, 0)), Err(msg));
    assert!(e.orderbook.bids.is_empty());
}

#[test]
fn unfunded_order_is_refused() {
    let mut e = funded();
    assert_eq!(e.place_order(limit(1, 1, Side::Buy, 100, 11)), Err("Not enough quote funds".to_string()));
    assert_eq!(e.place_order(limit(2, 1, Side::Sell, 1_001, 11)), Err("Not enough base funds".to_string()));
    assert!(e.orderbook.bids.is_empty() && e.orderbook.asks.is_empty());
}

#[test]
fn resting_buy_locks_its_cost() {
    let mut e = funded();
    assert_eq!(e.place_order(limit(1, 1, Side::Buy, 4, 50)), Ok(()));
    let a = account(&e, 1);
    assert_eq!((a.quote_qty_available, a.quote_qty_locked), (800, 200));
    assert_eq!(e.orderbook.best_bid(), Some(50));
}

#[test]
fn trade_settles_both_sides_and_refunds_improvement() {
    let mut e = funded();
    assert_eq!(e.place_order(limit(1, 2, Side::Sell, 3, 40)), Ok(()));
    assert_eq!(e.place_order(limit(2, 1, Side::Buy, 3, 50)), Ok(()));
    let buyer = account(&e, 1);
    let seller = account(&e, 2);
    assert_eq!((buyer.base_qty_available, buyer.quote_qty_available, buyer.quote_qty_locked), (1_003, 880, 0));
    assert_eq!((seller.base_qty_available, seller.base_qty_locked, seller.quote_qty_available), (997, 0, 1_120));
    assert!(e.orderbook.asks.is_empty() && e.orderbook.bids.is_empty());
    assert_eq!(e.orderbook.trade_counter, 1);
}

#[test]
fn incoming_sell_settles_against_resting_buy() {
    let mut e = funded();
    assert_eq!(e.place_order(limit(1, 1, Side::Buy, 2, 30)), Ok(()));
    assert_eq!(e.place_order(limit(2, 2, Side::Sell, 5, 25)), Ok(()));
    let buyer = account(&e, 1);
    let seller = account(&e, 2);
    assert_eq!((buyer.base_qty_available, buyer.quote_qty_available, buyer.quote_qty_locked), (1_002, 940, 0));
    assert_eq!((seller.base_qty_available, seller.base_qty_locked, seller.quote_qty_available), (995, 3, 1_060));
    assert_eq!(e.orderbook.best_ask(), Some(25));
}

#[test]
fn cancel_releases_locked_funds() {
    let mut e = funded();
    assert_eq!(e.place_order(limit(1, 1, Side::Buy, 4, 50)), Ok(()));
    assert_eq!(e.place_order(limit(2, 2, Side::Sell, 7, 60)), Ok(()));
    assert_eq!(e.place_cancel_order(Side::Buy, 50, 1), Ok(()));
    assert_eq!(e.place_cancel_order(Side::Sell, 60, 2), Ok(()));
    assert_eq!(account(&e, 1), Account { base_qty_available: 1_000, base_qty_locked: 0, quote_qty_available: 1_000, quote_qty_locked: 0 });
    assert_eq!(account(&e, 2), Account { base_qty_available: 1_000, base_qty_locked: 0, quote_qty_available: 1_000, quote_qty_locked: 0 });
    assert!(e.orderbook.bids.is_empty() && e.orderbook.asks.is_empty());
}

#[test]
fn cancel_with_zero_price_is_refused() {
    let mut e = funded();
    assert_eq!(e.place_cancel_order(Side::Buy, 0, 1), Err("Insufficient amount".to_string()));
}

#[test]
fn cancel_of_missing_order_succeeds_and_changes_nothing() {
    let mut e = funded();
    assert_eq!(e.place_cancel_order(Side::Sell, 10, 77), Ok(()));
    assert_eq!(account(&e, 1).quote_qty_available, 1_000);
}

#[test]
fn settle_skips_unknown_parties() {
    let mut e = funded();
    assert_eq!(e.lock_funds(1, 100, Asset::Quote), Ok(()));
    let t = crabex::types::Trade { trade_id: 1, buyer_id: 1, seller_id: 99, quantity: 2, price: 30, timestamp: 0 };
    e.settle_trades(vec![t]);
    let a = account(&e, 1);
    assert_eq!((a.quote_qty_locked, a.base_qty_available), (40, 1_002));
    assert!(e.accounts.get(&99).is_none());
}

#[test]
fn market_buy_keeps_the_unfilled_part_of_its_lock() {
    let mut e = funded();
    assert_eq!(e.place_order(limit(1, 2, Side::Sell, 1, 40)), Ok(()));
    let market = Order { order_id: 2, trader_id: 1, order_type: OrderType::Market, side: Side::Buy, quantity: 2, price: 50, timestamp: 0 };
    assert_eq!(e.place_order(market), Ok(()));
    let buyer = account(&e, 1);
    assert_eq!((buyer.quote_qty_available, buyer.quote_qty_locked, buyer.base_qty_available), (910, 50, 1_001));
    assert!(e.orderbook.bids.is_empty() && e.orderbook.asks.is_empty());
}

#[test]
fn totals_are_conserved_by_a_trade_between_known_traders() {
    let mut e = funded();
    assert_eq!(e.place_order(limit(1, 2, Side::Sell, 5, 40)), Ok(()));
    assert_eq!(e.place_order(limit(2, 1, Side::Buy, 3, 45)), Ok(()));
    let (mut base, mut quote) = (0u64, 0u64);
    for a in e.accounts.values() {
        base += a.base_qty_available + a.base_qty_locked;
        quote += a.quote_qty_available + a.quote_qty_locked;
    }
    assert_eq!((base, quote), (2_000, 2_000));
    let seller = account(&e, 2);
    assert_eq!(seller.base_qty_locked, 2);
}

#[test]
fn settling_in_two_batches_equals_settling_once() {
    let t1 = crabex::types::Trade { trade_id: 1, buyer_id: 1, seller_id: 2, quantity: 2, price: 10, timestamp: 0 };
    let t2 = crabex::types::Trade { trade_id: 2, buyer_id: 2, seller_id: 1, quantity: 1, price: 20, timestamp: 0 };
    let mut a = funded();
    let mut b = funded();
    for e in [&mut a, &mut b] {
        assert_eq!(e.lock_funds(1, 100, Asset::Quote), Ok(()));
        assert_eq!(e.lock_funds(2, 100, Asset::Quote), Ok(()));
        assert_eq!(e.lock_funds(1, 10, Asset::Base), Ok(()));
        assert_eq!(e.lock_funds(2, 10, Asset::Base), Ok(()));
    }
    a.settle_trades(vec![t1, t2]);
    b.settle_trades(vec![t1]);
    b.settle_trades(vec![t2]);
    assert_eq!(account(&a, 1), account(&b, 1));
    assert_eq!(account(&a, 2), account(&b, 2));
}

fn reserved(e: &Engine, trader: u64) -> (u64, u64) {
    let mut quote = 0;
    for q in e.orderbook.bids.values() {
        for o in q.iter().filter(|o| o.trader_id == trader) {
            quote += o.price * o.quantity;
        }
    }
    let mut base = 0;
    for q in e.orderbook.asks.values() {
        for o in q.iter().filter(|o| o.trader_id == trader) {
            base += o.quantity;
        }
    }
    (quote, base)
}

#[test]
fn locked_balances_cover_resting_orders() {
    let mut e = funded();
    assert_eq!(e.place_order(limit(1, 1, Side::Buy, 4, 50)), Ok(()));
    assert_eq!(e.place_order(limit(2, 1, Side::Buy, 2, 48)), Ok(()));
    assert_eq!(e.place_order(limit(3, 2, Side::Sell, 5, 49)), Ok(()));
    assert_eq!(e.place_order(limit(4, 2, Side::Sell, 3, 55)), Ok(()));
    assert_eq!(e.place_cancel_order(Side::Buy, 48, 2), Ok(()));
    for trader in [1, 2] {
        let a = account(&e, trader);
        assert_eq!(reserved(&e, trader), (a.quote_qty_locked, a.base_qty_locked));
    }
}

#[test]
fn settling_in_another_order_gives_the_same_accounts() {
    let t1 = crabex::types::Trade { trade_id: 1, buyer_id: 1, seller_id: 2, quantity: 2, price: 10, timestamp: 0 };
    let t2 = crabex::types::Trade { trade_id: 2, buyer_id: 2, seller_id: 1, quantity: 1, price: 20, timestamp: 0 };
    let t3 = crabex::types::Trade { trade_id: 3, buyer_id: 1, seller_id: 1, quantity: 3, price: 5, timestamp: 0 };
    let mut a = funded();
    let mut b = funded();
    for e in [&mut a, &mut b] {
        assert_eq!(e.lock_funds(1, 100, Asset::Quote), Ok(()));
        assert_eq!(e.lock_funds(2, 100, Asset::Quote), Ok(()));
        assert_eq!(e.lock_funds(1, 10, Asset::Base), Ok(()));
        assert_eq!(e.lock_funds(2, 10, Asset::Base), Ok(()));
    }
    a.settle_trades(vec![t1, t2, t3]);
    b.settle_trades(vec![t3, t2, t1]);
    assert_eq!(account(&a, 1), account(&b, 1));
    assert_eq!(account(&a, 2), account(&b, 2));
    let one = account(&a, 1);
    assert_eq!((one.base_qty_available, one.base_qty_locked, one.quote_qty_available, one.quote_qty_locked), (995, 6, 935, 65));
}

#[test]
fn partly_filled_limit_buy_keeps_exactly_its_resting_part_locked() {
    let mut e = funded();
    assert_eq!(e.place_order(limit(1, 2, Side::Sell, 2, 40)), Ok(()));
    assert_eq!(e.place_order(limit(2, 1, Side::Buy, 5, 45)), Ok(()));
    let a = account(&e, 1);
    assert_eq!(reserved(&e, 1), (135, 0));
    assert_eq!((a.quote_qty_locked, a.base_qty_locked), (135, 0));
    assert_eq!(e.place_cancel_order(Side::Buy, 45, 2), Ok(()));
    let a = account(&e, 1);
    assert_eq!((a.quote_qty_locked, a.quote_qty_available, a.base_qty_available), (0, 920, 1_002));
}
