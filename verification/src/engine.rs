//! The exchange engine: trader accounts around the order book. Buying locks
//! quote funds, selling locks base funds, and executions move funds between
//! the two parties.

use vstd::prelude::*;
use std::collections::HashMap;
use crate::orderbook::{cancelled_order, cancel_at, match_order, records_fill, records_fills, Fill, OrderBook};
use crate::types::{zero_account, Account, Order, Side, Trade};

verus! {

broadcast use vstd::std_specs::hash::group_hash_axioms;

/// The two assets of the market.
#[derive(Clone, Copy, Debug, PartialEq, Eq, Structural)]
pub enum Asset {
    Base,
    Quote,
}

/// A trader's account, or the zero account for a trader not yet seen.
pub open spec fn account_of(accounts: Map<u64, Account>, trader: u64) -> Account {
    if accounts.contains_key(trader) {
        accounts[trader]
    } else {
        zero_account()
    }
}

pub open spec fn available(a: Account, asset: Asset) -> u64 {
    match asset {
        Asset::Base => a.base_qty_available,
        Asset::Quote => a.quote_qty_available,
    }
}

pub open spec fn locked(a: Account, asset: Asset) -> u64 {
    match asset {
        Asset::Base => a.base_qty_locked,
        Asset::Quote => a.quote_qty_locked,
    }
}

/// `a` with the balances of `asset` set to `free` and `held`.
pub open spec fn with_balances(a: Account, asset: Asset, free: u64, held: u64) -> Account {
    match asset {
        Asset::Base => Account { base_qty_available: free, base_qty_locked: held, ..a },
        Asset::Quote => Account { quote_qty_available: free, quote_qty_locked: held, ..a },
    }
}

/// A deposit does not overflow the trader's free balance.
pub open spec fn can_deposit(accounts: Map<u64, Account>, trader: u64, amount: u64, asset: Asset) -> bool {
    amount == 0 || available(account_of(accounts, trader), asset) + amount <= u64::MAX
}

/// The accounts after a deposit: a zero deposit changes nothing; otherwise
/// the trader's free balance grows by `amount` (opening the account if need be).
pub open spec fn after_deposit(accounts: Map<u64, Account>, trader: u64, amount: u64, asset: Asset) -> Map<u64, Account> {
    if amount == 0 {
        accounts
    } else {
        let a = account_of(accounts, trader);
        accounts.insert(trader, with_balances(a, asset, (available(a, asset) + amount) as u64, locked(a, asset)))
    }
}

/// The trader has at least `amount` (> 0) free of `asset`.
pub open spec fn has_available(accounts: Map<u64, Account>, trader: u64, amount: u64, asset: Asset) -> bool {
    amount > 0 && available(account_of(accounts, trader), asset) >= amount
}

/// Locking does not overflow the trader's locked balance.
pub open spec fn can_lock(accounts: Map<u64, Account>, trader: u64, amount: u64, asset: Asset) -> bool {
    has_available(accounts, trader, amount, asset) ==> locked(account_of(accounts, trader), asset) + amount <= u64::MAX
}

/// The accounts after a lock request: a zero amount changes nothing;
/// otherwise the trader's account is opened if need be, and, when enough is
/// free, `amount` moves from free to locked.
pub open spec fn after_lock(accounts: Map<u64, Account>, trader: u64, amount: u64, asset: Asset) -> Map<u64, Account> {
    if amount == 0 {
        accounts
    } else {
        let a = account_of(accounts, trader);
        accounts.insert(
            trader,
            if has_available(accounts, trader, amount, asset) {
                with_balances(a, asset, (available(a, asset) - amount) as u64, (locked(a, asset) + amount) as u64)
            } else {
                a
            },
        )
    }
}

/// The accounts after a withdrawal request: like a lock, but what is taken
/// leaves the account.
pub open spec fn after_withdraw(accounts: Map<u64, Account>, trader: u64, amount: u64, asset: Asset) -> Map<u64, Account> {
    if amount == 0 {
        accounts
    } else {
        let a = account_of(accounts, trader);
        accounts.insert(
            trader,
            if has_available(accounts, trader, amount, asset) {
                with_balances(a, asset, (available(a, asset) - amount) as u64, locked(a, asset))
            } else {
                a
            },
        )
    }
}

/// The error for a request whose amount is zero.
pub open spec fn invalid_amount_error() -> Seq<char> {
    "Invalid amount"@
}

/// The error for a request that asks for more than is free.
pub open spec fn funds_error(asset: Asset) -> Seq<char> {
    match asset {
        Asset::Base => "Not enough base funds"@,
        Asset::Quote => "Not enough quote funds"@,
    }
}

/// The error a lock or withdrawal request fails with, if it fails.
pub open spec fn request_error(accounts: Map<u64, Account>, trader: u64, amount: u64, asset: Asset) -> Seq<char> {
    if amount == 0 {
        invalid_amount_error()
    } else {
        funds_error(asset)
    }
}

/// What an execution of `t.quantity` at `t.price` is worth in quote.
pub open spec fn trade_cost(t: Trade) -> int {
    t.price * t.quantity
}

/// The buyer hands over the locked quote and receives the base.
pub open spec fn buyer_settles(a: Account, t: Trade) -> Account {
    Account {
        quote_qty_locked: (a.quote_qty_locked - trade_cost(t)) as u64,
        base_qty_available: (a.base_qty_available + t.quantity) as u64,
        ..a
    }
}

/// The seller hands over the locked base and receives the quote.
pub open spec fn seller_settles(a: Account, t: Trade) -> Account {
    Account {
        base_qty_locked: (a.base_qty_locked - t.quantity) as u64,
        quote_qty_available: (a.quote_qty_available + trade_cost(t)) as u64,
        ..a
    }
}

pub open spec fn settle_buyer(accounts: Map<u64, Account>, t: Trade) -> Map<u64, Account> {
    if accounts.contains_key(t.buyer_id) {
        accounts.insert(t.buyer_id, buyer_settles(accounts[t.buyer_id], t))
    } else {
        accounts
    }
}

pub open spec fn settle_seller(accounts: Map<u64, Account>, t: Trade) -> Map<u64, Account> {
    if accounts.contains_key(t.seller_id) {
        accounts.insert(t.seller_id, seller_settles(accounts[t.seller_id], t))
    } else {
        accounts
    }
}

/// Settling one trade: first the buyer's side, then the seller's; a party
/// without an account is skipped.
pub open spec fn settle_one(accounts: Map<u64, Account>, t: Trade) -> Map<u64, Account> {
    settle_seller(settle_buyer(accounts, t), t)
}

/// Settling `t` neither overflows nor underflows a balance.
pub open spec fn settle_one_ok(accounts: Map<u64, Account>, t: Trade) -> bool {
    &&& trade_cost(t) <= u64::MAX
    &&& accounts.contains_key(t.buyer_id) ==> {
        &&& accounts[t.buyer_id].quote_qty_locked >= trade_cost(t)
        &&& accounts[t.buyer_id].base_qty_available + t.quantity <= u64::MAX
    }
    &&& settle_buyer(accounts, t).contains_key(t.seller_id) ==> {
        &&& settle_buyer(accounts, t)[t.seller_id].base_qty_locked >= t.quantity
        &&& settle_buyer(accounts, t)[t.seller_id].quote_qty_available + trade_cost(t) <= u64::MAX
    }
}

/// Settling `trades` one after the other.
pub open spec fn settle_all(accounts: Map<u64, Account>, trades: Seq<Trade>) -> Map<u64, Account>
    decreases trades.len(),
{
    if trades.len() == 0 {
        accounts
    } else {
        settle_all(settle_one(accounts, trades[0]), trades.drop_first())
    }
}

pub open spec fn settle_all_ok(accounts: Map<u64, Account>, trades: Seq<Trade>) -> bool
    decreases trades.len(),
{
    trades.len() == 0 || (settle_one_ok(accounts, trades[0]) && settle_all_ok(settle_one(accounts, trades[0]), trades.drop_first()))
}

/// What a buyer with limit `limit` gets back from an execution at a better
/// price: the difference, per unit executed.
pub open spec fn refund_of(limit: u64, t: Trade) -> int {
    (limit - t.price) * t.quantity
}

/// A positive refund moves from the trader's locked quote to the free quote,
/// if the trader has an account.
pub open spec fn refund_one(accounts: Map<u64, Account>, trader: u64, limit: u64, t: Trade) -> Map<u64, Account> {
    if refund_of(limit, t) > 0 && accounts.contains_key(trader) {
        let a = accounts[trader];
        accounts.insert(trader, Account {
            quote_qty_locked: (a.quote_qty_locked - refund_of(limit, t)) as u64,
            quote_qty_available: (a.quote_qty_available + refund_of(limit, t)) as u64,
            ..a
        })
    } else {
        accounts
    }
}

pub open spec fn refund_one_ok(accounts: Map<u64, Account>, trader: u64, limit: u64, t: Trade) -> bool {
    &&& t.price <= limit
    &&& refund_of(limit, t) <= u64::MAX
    &&& refund_of(limit, t) > 0 && accounts.contains_key(trader) ==> {
        &&& accounts[trader].quote_qty_locked >= refund_of(limit, t)
        &&& accounts[trader].quote_qty_available + refund_of(limit, t) <= u64::MAX
    }
}

pub open spec fn refund_all(accounts: Map<u64, Account>, trader: u64, limit: u64, trades: Seq<Trade>) -> Map<u64, Account>
    decreases trades.len(),
{
    if trades.len() == 0 {
        accounts
    } else {
        refund_all(refund_one(accounts, trader, limit, trades[0]), trader, limit, trades.drop_first())
    }
}

pub open spec fn refund_all_ok(accounts: Map<u64, Account>, trader: u64, limit: u64, trades: Seq<Trade>) -> bool
    decreases trades.len(),
{
    trades.len() == 0 || (refund_one_ok(accounts, trader, limit, trades[0])
        && refund_all_ok(refund_one(accounts, trader, limit, trades[0]), trader, limit, trades.drop_first()))
}

/// The resting orders of `side`.
pub open spec fn side_levels(book: OrderBook, side: Side) -> Map<u64, Seq<Order>> {
    match side {
        Side::Buy => book.bid_levels(),
        Side::Sell => book.ask_levels(),
    }
}

/// What a resting order holds locked: a bid its price times its quantity in
/// quote, an ask its quantity in base.
pub open spec fn commitment(side: Side, o: Order) -> int {
    match side {
        Side::Buy => o.price * o.quantity,
        Side::Sell => o.quantity as int,
    }
}

pub open spec fn commitment_asset(side: Side) -> Asset {
    match side {
        Side::Buy => Asset::Quote,
        Side::Sell => Asset::Base,
    }
}

/// A cancelled order's commitment moves back from locked to free.
pub open spec fn after_release(accounts: Map<u64, Account>, side: Side, c: Order) -> Map<u64, Account> {
    let a = accounts[c.trader_id];
    let asset = commitment_asset(side);
    accounts.insert(
        c.trader_id,
        with_balances(
            a,
            asset,
            (available(a, asset) + commitment(side, c)) as u64,
            (locked(a, asset) - commitment(side, c)) as u64,
        ),
    )
}

/// Releasing `c`'s commitment finds its trader's account and neither
/// overflows nor underflows a balance.
pub open spec fn release_ok(accounts: Map<u64, Account>, side: Side, c: Order) -> bool {
    &&& accounts.contains_key(c.trader_id)
    &&& commitment(side, c) <= u64::MAX
    &&& available(accounts[c.trader_id], commitment_asset(side)) + commitment(side, c) <= u64::MAX
    &&& locked(accounts[c.trader_id], commitment_asset(side)) >= commitment(side, c)
}

/// A cancel request can be carried out without a panic.
pub open spec fn cancel_ok(accounts: Map<u64, Account>, book: OrderBook, side: Side, price: u64, id: u64) -> bool {
    price != 0 ==> match cancelled_order(side_levels(book, side), price, id) {
        Some(c) => release_ok(accounts, side, c),
        None => true,
    }
}

/// An order with a zero price or a zero quantity is refused.
pub open spec fn order_is_valid(o: Order) -> bool {
    o.price != 0 && o.quantity != 0
}

/// The error for a refused order.
pub open spec fn invalid_order_error() -> Seq<char> {
    "Invalid price or qunatity in order"@
}

/// What an order locks when it comes in: a buy its price times its quantity
/// in quote, a sell its quantity in base.
pub open spec fn order_lock(o: Order) -> int {
    commitment(o.side, o)
}

/// The trade that reports execution `f` of `taker` under id `id`, stamped 0.
pub open spec fn trade_of(f: Fill, taker: Order, id: int) -> Trade {
    match taker.side {
        Side::Buy => Trade {
            trade_id: id as u64,
            buyer_id: taker.trader_id,
            seller_id: f.maker.trader_id,
            quantity: f.quantity,
            price: f.price,
            timestamp: 0,
        },
        Side::Sell => Trade {
            trade_id: id as u64,
            buyer_id: f.maker.trader_id,
            seller_id: taker.trader_id,
            quantity: f.quantity,
            price: f.price,
            timestamp: 0,
        },
    }
}

/// The trades matching `taker` against `book` produces, stamped 0.
pub open spec fn trades_for(book: OrderBook, taker: Order) -> Seq<Trade> {
    let fills = book.fills_for(taker);
    Seq::new(fills.len(), |i: int| trade_of(fills[i], taker, book.trade_counter + 1 + i))
}

/// The accounts right after `o`'s funds are locked, when they are.
pub open spec fn locked_for(accounts: Map<u64, Account>, o: Order) -> Map<u64, Account> {
    after_lock(accounts, o.trader_id, order_lock(o) as u64, commitment_asset(o.side))
}

/// The accounts after a buyer's price improvements are refunded.
pub open spec fn refunded_for(accounts: Map<u64, Account>, book: OrderBook, o: Order) -> Map<u64, Account> {
    match o.side {
        Side::Buy => refund_all(locked_for(accounts, o), o.trader_id, o.price, trades_for(book, o)),
        Side::Sell => locked_for(accounts, o),
    }
}

/// The accounts after an accepted order: funds locked, price improvements
/// refunded to a buyer, and every trade settled.
pub open spec fn accounts_after_order(accounts: Map<u64, Account>, book: OrderBook, o: Order) -> Map<u64, Account> {
    settle_all(refunded_for(accounts, book, o), trades_for(book, o))
}

/// The order's funds are free to lock.
pub open spec fn order_funded(accounts: Map<u64, Account>, o: Order) -> bool {
    has_available(accounts, o.trader_id, order_lock(o) as u64, commitment_asset(o.side))
}

/// Placing `o` can be carried out without a panic: its lock amount fits,
/// and when it is funded, the trade counter, the refunds and the
/// settlement all stay within bounds.
pub open spec fn place_ok(accounts: Map<u64, Account>, book: OrderBook, o: Order) -> bool {
    order_is_valid(o) ==> {
        &&& order_lock(o) <= u64::MAX
        &&& can_lock(accounts, o.trader_id, order_lock(o) as u64, commitment_asset(o.side))
        &&& order_funded(accounts, o) ==> {
            &&& book.trade_counter + book.fills_for(o).len() <= u64::MAX
            &&& o.side == Side::Buy ==> refund_all_ok(locked_for(accounts, o), o.trader_id, o.price, trades_for(book, o))
            &&& settle_all_ok(refunded_for(accounts, book, o), trades_for(book, o))
        }
    }
}

/// Two trade sequences agree on who bought from whom, how much and at what
/// price.
pub open spec fn same_deals(x: Seq<Trade>, y: Seq<Trade>) -> bool {
    &&& x.len() == y.len()
    &&& forall|i: int| 0 <= i < x.len() ==> {
        &&& (#[trigger] x[i]).buyer_id == y[i].buyer_id
        &&& x[i].seller_id == y[i].seller_id
        &&& x[i].price == y[i].price
        &&& x[i].quantity == y[i].quantity
    }
}

proof fn lemma_settle_same_deals(accounts: Map<u64, Account>, x: Seq<Trade>, y: Seq<Trade>)
    requires
        same_deals(x, y),
    ensures
        settle_all(accounts, x) == settle_all(accounts, y),
        settle_all_ok(accounts, x) == settle_all_ok(accounts, y),
    decreases x.len(),
{
    if x.len() > 0 {
        assert(x[0].buyer_id == y[0].buyer_id);
        assert(settle_one(accounts, x[0]) == settle_one(accounts, y[0]));
        assert forall|i: int| 0 <= i < x.drop_first().len() implies {
            &&& (#[trigger] x.drop_first()[i]).buyer_id == y.drop_first()[i].buyer_id
            &&& x.drop_first()[i].seller_id == y.drop_first()[i].seller_id
            &&& x.drop_first()[i].price == y.drop_first()[i].price
            &&& x.drop_first()[i].quantity == y.drop_first()[i].quantity
        } by {
            assert(x.drop_first()[i] == x[i + 1]);
            assert(y.drop_first()[i] == y[i + 1]);
        }
        lemma_settle_same_deals(settle_one(accounts, x[0]), x.drop_first(), y.drop_first());
    }
}

proof fn lemma_refund_same_deals(accounts: Map<u64, Account>, trader: u64, limit: u64, x: Seq<Trade>, y: Seq<Trade>)
    requires
        same_deals(x, y),
    ensures
        refund_all(accounts, trader, limit, x) == refund_all(accounts, trader, limit, y),
        refund_all_ok(accounts, trader, limit, x) == refund_all_ok(accounts, trader, limit, y),
    decreases x.len(),
{
    if x.len() > 0 {
        assert(x[0].price == y[0].price);
        assert(refund_one(accounts, trader, limit, x[0]) == refund_one(accounts, trader, limit, y[0]));
        assert forall|i: int| 0 <= i < x.drop_first().len() implies {
            &&& (#[trigger] x.drop_first()[i]).buyer_id == y.drop_first()[i].buyer_id
            &&& x.drop_first()[i].seller_id == y.drop_first()[i].seller_id
            &&& x.drop_first()[i].price == y.drop_first()[i].price
            &&& x.drop_first()[i].quantity == y.drop_first()[i].quantity
        } by {
            assert(x.drop_first()[i] == x[i + 1]);
            assert(y.drop_first()[i] == y[i + 1]);
        }
        lemma_refund_same_deals(refund_one(accounts, trader, limit, x[0]), trader, limit, x.drop_first(), y.drop_first());
    }
}

proof fn lemma_recorded_trades_same_deals(trades: Seq<Trade>, book: OrderBook, taker: Order)
    requires
        records_fills(trades, book.fills_for(taker), taker, book.trade_counter + 1),
    ensures
        same_deals(trades, trades_for(book, taker)),
{
    let fills = book.fills_for(taker);
    let canon = trades_for(book, taker);
    assert forall|i: int| 0 <= i < trades.len() implies {
        &&& (#[trigger] trades[i]).buyer_id == canon[i].buyer_id
        &&& trades[i].seller_id == canon[i].seller_id
        &&& trades[i].price == canon[i].price
        &&& trades[i].quantity == canon[i].quantity
    } by {
        assert(records_fill(trades[i], fills[i], taker, book.trade_counter + 1 + i));
    }
}

pub struct Engine {
    pub accounts: HashMap<u64, Account>,
    pub orderbook: OrderBook,
}

fn get_account(accounts: &HashMap<u64, Account>, trader: u64) -> (a: Account)
    ensures
        a == account_of(accounts@, trader),
{
    match accounts.get(&trader) {
        Some(a) => *a,
        None => Account::default(),
    }
}

impl Engine {
    pub fn new() -> (e: Self)
        ensures
            e.accounts@ == Map::<u64, Account>::empty(),
            e.orderbook.bid_levels() == Map::<u64, Seq<Order>>::empty(),
            e.orderbook.ask_levels() == Map::<u64, Seq<Order>>::empty(),
            e.orderbook.trade_counter == 0,
    {
        Engine { accounts: HashMap::new(), orderbook: OrderBook::new() }
    }

    /// Credits `amount` of `asset` to the trader's free balance; a zero
    /// amount is ignored.
    pub fn deposit(&mut self, trader_id: u64, amount: u64, asset: Asset)
        requires
            can_deposit(old(self).accounts@, trader_id, amount, asset),
        ensures
            final(self).accounts@ == after_deposit(old(self).accounts@, trader_id, amount, asset),
            final(self).orderbook == old(self).orderbook,
    {
        if amount == 0 {
            return;
        }
        let mut account = get_account(&self.accounts, trader_id);
        match asset {
            Asset::Base => {
                account.base_qty_available = account.base_qty_available + amount;
            },
            Asset::Quote => {
                account.quote_qty_available = account.quote_qty_available + amount;
            },
        }
        self.accounts.insert(trader_id, account);
    }

    /// Moves `amount` of `asset` from the trader's free balance to the
    /// locked one. Fails on a zero amount, and when less than `amount` is free
    /// (the account is opened all the same).
    pub fn lock_funds(&mut self, trader_id: u64, amount: u64, asset: Asset) -> (r: Result<(), String>)
        requires
            can_lock(old(self).accounts@, trader_id, amount, asset),
        ensures
            r is Ok <==> has_available(old(self).accounts@, trader_id, amount, asset),
            r matches Err(e) ==> e@ == request_error(old(self).accounts@, trader_id, amount, asset),
            final(self).accounts@ == after_lock(old(self).accounts@, trader_id, amount, asset),
            final(self).orderbook == old(self).orderbook,
    {
        if amount == 0 {
            return Err("Invalid amount".to_string());
        }
        let mut account = get_account(&self.accounts, trader_id);
        let r = match asset {
            Asset::Base => {
                if account.base_qty_available >= amount {
                    account.base_qty_locked = account.base_qty_locked + amount;
                    account.base_qty_available = account.base_qty_available - amount;
                    Ok(())
                } else {
                    Err("Not enough base funds".to_string())
                }
            },
            Asset::Quote => {
                if account.quote_qty_available >= amount {
                    account.quote_qty_locked = account.quote_qty_locked + amount;
                    account.quote_qty_available = account.quote_qty_available - amount;
                    Ok(())
                } else {
                    Err("Not enough quote funds".to_string())
                }
            },
        };
        self.accounts.insert(trader_id, account);
        r
    }

    /// Takes `amount` of `asset` out of the trader's free balance. Fails on a
    /// zero amount, and when less than `amount` is free (the account is
    /// opened all the same).
    pub fn withdraw(&mut self, trader_id: u64, amount: u64, asset: Asset) -> (r: Result<(), String>)
        ensures
            r is Ok <==> has_available(old(self).accounts@, trader_id, amount, asset),
            r matches Err(e) ==> e@ == request_error(old(self).accounts@, trader_id, amount, asset),
            final(self).accounts@ == after_withdraw(old(self).accounts@, trader_id, amount, asset),
            final(self).orderbook == old(self).orderbook,
    {
        if amount == 0 {
            return Err("Invalid amount".to_string());
        }
        let mut account = get_account(&self.accounts, trader_id);
        let r = match asset {
            Asset::Base => {
                if account.base_qty_available >= amount {
                    account.base_qty_available = account.base_qty_available - amount;
                    Ok(())
                } else {
                    Err("Not enough base funds".to_string())
                }
            },
            Asset::Quote => {
                if account.quote_qty_available >= amount {
                    account.quote_qty_available = account.quote_qty_available - amount;
                    Ok(())
                } else {
                    Err("Not enough quote funds".to_string())
                }
            },
        };
        self.accounts.insert(trader_id, account);
        r
    }

    /// Settles each trade in turn: the buyer's locked quote pays for the base
    /// it receives, the seller's locked base pays for the quote it receives;
    /// a party without an account is skipped.
    pub fn settle_trades(&mut self, trades: Vec<Trade>)
        requires
            settle_all_ok(old(self).accounts@, trades@),
        ensures
            final(self).accounts@ == settle_all(old(self).accounts@, trades@),
            final(self).orderbook == old(self).orderbook,
    {
        let n = trades.len();
        let mut i: usize = 0;
        let ghost a0 = self.accounts@;
        assert(trades@.skip(0) =~= trades@);
        while i < n
            invariant
                n == trades@.len(),
                i <= n,
                settle_all(a0, trades@) == settle_all(self.accounts@, trades@.skip(i as int)),
                settle_all_ok(self.accounts@, trades@.skip(i as int)),
                self.orderbook == old(self).orderbook,
            decreases n - i,
        {
            let t = trades[i];
            let ghost before = self.accounts@;
            assert(trades@.skip(i as int)[0] == t);
            assert(trades@.skip(i as int).drop_first() =~= trades@.skip(i + 1));
            let total_cost = t.price * t.quantity;
            match self.accounts.get(&t.buyer_id) {
                Some(b) => {
                    let mut buyer = *b;
                    buyer.quote_qty_locked = buyer.quote_qty_locked - total_cost;
                    buyer.base_qty_available = buyer.base_qty_available + t.quantity;
                    self.accounts.insert(t.buyer_id, buyer);
                },
                None => {},
            }
            assert(self.accounts@ == settle_buyer(before, t));
            match self.accounts.get(&t.seller_id) {
                Some(s) => {
                    let mut seller = *s;
                    seller.base_qty_locked = seller.base_qty_locked - t.quantity;
                    seller.quote_qty_available = seller.quote_qty_available + total_cost;
                    self.accounts.insert(t.seller_id, seller);
                },
                None => {},
            }
            assert(self.accounts@ == settle_one(before, t));
            i = i + 1;
        }
    }

    /// Cancels a resting order and releases what it held locked to its
    /// trader. A zero price is refused; cancelling an order that is not there
    /// succeeds and changes nothing.
    pub fn place_cancel_order(&mut self, side: Side, price: u64, target_order_id: u64) -> (r: Result<(), String>)
        requires
            cancel_ok(old(self).accounts@, old(self).orderbook, side, price, target_order_id),
        ensures
            price == 0 ==> (r matches Err(e) && e@ == "Insufficient amount"@) && *final(self) == *old(self),
            price != 0 ==> {
                &&& r is Ok
                &&& final(self).orderbook.trade_counter == old(self).orderbook.trade_counter
                &&& side_levels(final(self).orderbook, side) == cancel_at(side_levels(old(self).orderbook, side), price, target_order_id)
                &&& side == Side::Buy ==> final(self).orderbook.ask_levels() == old(self).orderbook.ask_levels()
                &&& side == Side::Sell ==> final(self).orderbook.bid_levels() == old(self).orderbook.bid_levels()
                &&& final(self).accounts@ == match cancelled_order(side_levels(old(self).orderbook, side), price, target_order_id) {
                    Some(c) => after_release(old(self).accounts@, side, c),
                    None => old(self).accounts@,
                }
            },
    {
        if price == 0 {
            return Err("Insufficient amount".to_string());
        }
        let cancelled = self.orderbook.cancel_order(side, price, target_order_id);
        match cancelled {
            Some(c) => {
                let mut account = get_account(&self.accounts, c.trader_id);
                match side {
                    Side::Buy => {
                        let cost = c.price * c.quantity;
                        account.quote_qty_available = account.quote_qty_available + cost;
                        account.quote_qty_locked = account.quote_qty_locked - cost;
                    },
                    Side::Sell => {
                        account.base_qty_available = account.base_qty_available + c.quantity;
                        account.base_qty_locked = account.base_qty_locked - c.quantity;
                    },
                }
                self.accounts.insert(c.trader_id, account);
            },
            None => {},
        }
        Ok(())
    }

    /// Returns a buyer's price improvements: for each trade below its limit,
    /// the difference times the quantity moves from locked to free quote.
    fn refund_improvements(&mut self, trader_id: u64, limit: u64, trades: &Vec<Trade>)
        requires
            refund_all_ok(old(self).accounts@, trader_id, limit, trades@),
        ensures
            final(self).accounts@ == refund_all(old(self).accounts@, trader_id, limit, trades@),
            final(self).orderbook == old(self).orderbook,
    {
        let n = trades.len();
        let mut i: usize = 0;
        let ghost a0 = self.accounts@;
        assert(trades@.skip(0) =~= trades@);
        while i < n
            invariant
                n == trades@.len(),
                i <= n,
                refund_all(a0, trader_id, limit, trades@) == refund_all(self.accounts@, trader_id, limit, trades@.skip(i as int)),
                refund_all_ok(self.accounts@, trader_id, limit, trades@.skip(i as int)),
                self.orderbook == old(self).orderbook,
            decreases n - i,
        {
            let t = trades[i];
            let ghost before = self.accounts@;
            assert(trades@.skip(i as int)[0] == t);
            assert(trades@.skip(i as int).drop_first() =~= trades@.skip(i + 1));
            let price_improvement = limit - t.price;
            let refund_amount = price_improvement * t.quantity;
            if refund_amount > 0 {
                match self.accounts.get(&trader_id) {
                    Some(a) => {
                        let mut account = *a;
                        account.quote_qty_locked = account.quote_qty_locked - refund_amount;
                        account.quote_qty_available = account.quote_qty_available + refund_amount;
                        self.accounts.insert(trader_id, account);
                    },
                    None => {},
                }
            }
            assert(self.accounts@ == refund_one(before, trader_id, limit, t));
            i = i + 1;
        }
    }

    /// Places an order: refuses a zero price or quantity; locks the order's
    /// funds (a buy its price times quantity in quote, a sell its quantity in
    /// base), failing as `lock_funds` does; matches it against the book;
    /// refunds a buyer's price improvements; settles every trade.
    pub fn place_order(&mut self, incoming_order: Order) -> (r: Result<(), String>)
        requires
            place_ok(old(self).accounts@, old(self).orderbook, incoming_order),
        ensures
            !order_is_valid(incoming_order) ==> (r matches Err(e) && e@ == invalid_order_error()) && *final(self) == *old(self),
            order_is_valid(incoming_order) && !order_funded(old(self).accounts@, incoming_order) ==> {
                &&& (r matches Err(e) && e@ == funds_error(commitment_asset(incoming_order.side)))
                &&& final(self).accounts@ == locked_for(old(self).accounts@, incoming_order)
                &&& final(self).orderbook == old(self).orderbook
            },
            order_is_valid(incoming_order) && order_funded(old(self).accounts@, incoming_order) ==> {
                &&& r is Ok
                &&& final(self).orderbook.bid_levels()
                    == match_order(old(self).orderbook.bid_levels(), old(self).orderbook.ask_levels(), incoming_order).1
                &&& final(self).orderbook.ask_levels()
                    == match_order(old(self).orderbook.bid_levels(), old(self).orderbook.ask_levels(), incoming_order).2
                &&& final(self).orderbook.trade_counter
                    == old(self).orderbook.trade_counter + old(self).orderbook.fills_for(incoming_order).len()
                &&& final(self).accounts@ == accounts_after_order(old(self).accounts@, old(self).orderbook, incoming_order)
            },
    {
        if incoming_order.price == 0 || incoming_order.quantity == 0 {
            return Err("Invalid price or qunatity in order".to_string());
        }
        let ghost a0 = self.accounts@;
        let ghost book0 = self.orderbook;
        let original_price = incoming_order.price;
        let original_side = incoming_order.side;
        let trader_id = incoming_order.trader_id;
        let locked = match incoming_order.side {
            Side::Buy => {
                let cost = incoming_order.price * incoming_order.quantity;
                assert(cost > 0) by (nonlinear_arith)
                    requires
                        cost == incoming_order.price * incoming_order.quantity,
                        incoming_order.price != 0,
                        incoming_order.quantity != 0,
                ;
                self.lock_funds(incoming_order.trader_id, cost, Asset::Quote)
            },
            Side::Sell => self.lock_funds(incoming_order.trader_id, incoming_order.quantity, Asset::Base),
        };
        match locked {
            Err(e) => {
                return Err(e);
            },
            Ok(()) => {},
        }
        assert(self.accounts@ == locked_for(a0, incoming_order));
        let trades = self.orderbook.process_order(incoming_order);
        proof {
            lemma_recorded_trades_same_deals(trades@, book0, incoming_order);
        }
        if original_side == Side::Buy {
            proof {
                lemma_refund_same_deals(self.accounts@, trader_id, original_price, trades@, trades_for(book0, incoming_order));
            }
            self.refund_improvements(trader_id, original_price, &trades);
        }
        assert(self.accounts@ == refunded_for(a0, book0, incoming_order));
        proof {
            lemma_settle_same_deals(self.accounts@, trades@, trades_for(book0, incoming_order));
        }
        self.settle_trades(trades);
        Ok(())
    }
}

} // verus!
