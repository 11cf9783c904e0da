//! Properties of the account ledger: what each kind of request does to a
//! trader's holdings.

use vstd::prelude::*;
use crate::engine::{
    account_of, after_deposit, after_lock, after_release, after_withdraw, available, can_deposit, can_lock,
    commitment, commitment_asset, has_available, locked, refund_one, refund_one_ok, release_ok,
    settle_all, settle_all_ok, settle_one, settle_one_ok, trade_cost, Asset,
};
use crate::engine::{
    accounts_after_order, locked_for, refund_all, refund_all_ok, refunded_for, settle_buyer, order_funded, order_is_valid, order_lock, place_ok, side_levels, trades_for,
};
use crate::matching_laws::{id_fresh_at, lemma_cancel_undoes_rest, no_empty_levels};
use crate::orderbook::{cancel_at, cancelled_order, match_order, OrderBook};
use crate::prices::{ascending, descending, lemma_ladder_exists};
use crate::types::{Account, Order, OrderType, Side, Trade};

verus! {

broadcast use vstd::std_specs::btree::group_btree_axioms;

/// All a trader holds of `asset`, free and locked.
pub open spec fn holding(a: Account, asset: Asset) -> int {
    available(a, asset) + locked(a, asset)
}

/// Withdrawing what was just deposited gives the trader back the account it
/// had (the zero account if it had none).
pub proof fn lemma_withdraw_undoes_deposit(accounts: Map<u64, Account>, trader: u64, amount: u64, asset: Asset)
    requires
        amount > 0,
        can_deposit(accounts, trader, amount, asset),
    ensures
        has_available(after_deposit(accounts, trader, amount, asset), trader, amount, asset),
        after_withdraw(after_deposit(accounts, trader, amount, asset), trader, amount, asset)
            == accounts.insert(trader, account_of(accounts, trader)),
{
    let a = account_of(accounts, trader);
    let d = after_deposit(accounts, trader, amount, asset);
    assert(account_of(d, trader) == match asset {
        Asset::Base => Account { base_qty_available: (a.base_qty_available + amount) as u64, ..a },
        Asset::Quote => Account { quote_qty_available: (a.quote_qty_available + amount) as u64, ..a },
    });
    assert(after_withdraw(d, trader, amount, asset) =~= accounts.insert(trader, a));
}

/// A deposit to a trader who already has an account, withdrawn again, leaves
/// the accounts as they were.
pub proof fn lemma_deposit_withdraw_round_trip(accounts: Map<u64, Account>, trader: u64, amount: u64, asset: Asset)
    requires
        amount > 0,
        accounts.contains_key(trader),
        can_deposit(accounts, trader, amount, asset),
    ensures
        after_withdraw(after_deposit(accounts, trader, amount, asset), trader, amount, asset) == accounts,
{
    lemma_withdraw_undoes_deposit(accounts, trader, amount, asset);
    assert(accounts.insert(trader, account_of(accounts, trader)) =~= accounts);
}

/// A deposit adds exactly `amount` of `asset` to the trader's free balance
/// (a zero deposit changes nothing); no locked balance, no other asset and no
/// other trader's account changes, and a trader without an account gets one.
pub proof fn lemma_deposit_adds_exactly_the_amount(accounts: Map<u64, Account>, t: u64, amount: u64, asset: Asset)
    requires
        can_deposit(accounts, t, amount, asset),
    ensures
        ({
            let before = if accounts.contains_key(t) { accounts[t] } else {
                Account { base_qty_available: 0, base_qty_locked: 0, quote_qty_available: 0, quote_qty_locked: 0 }
            };
            let after = after_deposit(accounts, t, amount, asset);
            &&& amount == 0 ==> after == accounts
            &&& amount > 0 ==> {
                &&& after.dom() == accounts.dom().insert(t)
                &&& forall|u: u64| u != t && #[trigger] accounts.contains_key(u) ==> after[u] == accounts[u]
                &&& after[t].base_qty_locked == before.base_qty_locked
                &&& after[t].quote_qty_locked == before.quote_qty_locked
                &&& after[t].base_qty_available == before.base_qty_available + (if asset == Asset::Base { amount as int } else { 0 })
                &&& after[t].quote_qty_available == before.quote_qty_available + (if asset == Asset::Quote { amount as int } else { 0 })
            }
        }),
{
    let after = after_deposit(accounts, t, amount, asset);
    if amount > 0 {
        assert(after.dom() =~= accounts.dom().insert(t));
    }
}

/// Releasing a cancelled order moves exactly what it held from its trader's
/// locked balance back to the free one: a bid's price times quantity in
/// quote, an ask's quantity in base. Nothing else in any account changes.
pub proof fn lemma_release_moves_exactly_the_commitment(accounts: Map<u64, Account>, side: Side, c: Order)
    requires
        release_ok(accounts, side, c),
    ensures
        ({
            let t = c.trader_id;
            let after = after_release(accounts, side, c);
            let q: int = if side == Side::Buy { c.price * c.quantity } else { 0 };
            let b: int = if side == Side::Sell { c.quantity as int } else { 0 };
            &&& after.dom() == accounts.dom()
            &&& forall|u: u64| u != t && #[trigger] accounts.contains_key(u) ==> after[u] == accounts[u]
            &&& after[t].quote_qty_available == accounts[t].quote_qty_available + q
            &&& after[t].quote_qty_locked == accounts[t].quote_qty_locked - q
            &&& after[t].base_qty_available == accounts[t].base_qty_available + b
            &&& after[t].base_qty_locked == accounts[t].base_qty_locked - b
        }),
{
    assert(after_release(accounts, side, c).dom() =~= accounts.dom());
}

/// A buyer with limit `limit` whose trade executed at a lower price gets the
/// difference times the quantity moved from locked to free quote; nothing
/// else in any account changes.
pub proof fn lemma_refund_is_the_price_improvement(accounts: Map<u64, Account>, trader: u64, limit: u64, t: Trade)
    requires
        refund_one_ok(accounts, trader, limit, t),
        accounts.contains_key(trader),
    ensures
        ({
            let after = refund_one(accounts, trader, limit, t);
            let d: int = (limit - t.price) * t.quantity;
            &&& after.dom() == accounts.dom()
            &&& forall|u: u64| u != trader && #[trigger] accounts.contains_key(u) ==> after[u] == accounts[u]
            &&& after[trader].quote_qty_locked == accounts[trader].quote_qty_locked - d
            &&& after[trader].quote_qty_available == accounts[trader].quote_qty_available + d
            &&& after[trader].base_qty_locked == accounts[trader].base_qty_locked
            &&& after[trader].base_qty_available == accounts[trader].base_qty_available
        }),
{
    let after = refund_one(accounts, trader, limit, t);
    assert(after.dom() =~= accounts.dom());
    let d: int = (limit - t.price) * t.quantity;
    assert(d >= 0) by (nonlinear_arith)
        requires d == (limit - t.price) * t.quantity, t.price <= limit;
}

/// A withdrawal takes exactly `amount` of `asset` out of the trader's free
/// balance when `amount` is not zero and at least that much is free, and
/// takes nothing otherwise; it succeeds exactly in the first case. No locked
/// balance, no other asset and no other trader's account changes; a trader
/// without an account ends with an empty one at most.
pub proof fn lemma_withdraw_takes_exactly_what_it_grants(accounts: Map<u64, Account>, t: u64, amount: u64, asset: Asset)
    ensures
        ({
            let before = if accounts.contains_key(t) { accounts[t] } else {
                Account { base_qty_available: 0, base_qty_locked: 0, quote_qty_available: 0, quote_qty_locked: 0 }
            };
            let free = match asset { Asset::Base => before.base_qty_available, Asset::Quote => before.quote_qty_available };
            let granted = amount > 0 && free >= amount;
            let taken: int = if granted { amount as int } else { 0 };
            let after = after_withdraw(accounts, t, amount, asset);
            &&& has_available(accounts, t, amount, asset) == granted
            &&& after.dom() == (if amount == 0 { accounts.dom() } else { accounts.dom().insert(t) })
            &&& forall|u: u64| u != t && #[trigger] accounts.contains_key(u) ==> after[u] == accounts[u]
            &&& after.contains_key(t) ==> {
                &&& after[t].base_qty_locked == before.base_qty_locked
                &&& after[t].quote_qty_locked == before.quote_qty_locked
                &&& after[t].base_qty_available == before.base_qty_available - (if asset == Asset::Base { taken } else { 0 })
                &&& after[t].quote_qty_available == before.quote_qty_available - (if asset == Asset::Quote { taken } else { 0 })
            }
        }),
{
    let after = after_withdraw(accounts, t, amount, asset);
    assert(after.dom() =~= (if amount == 0 { accounts.dom() } else { accounts.dom().insert(t) }));
}

/// A lock moves exactly `amount` of `asset` from the trader's free balance to
/// its locked balance when `amount` is not zero and at least that much is
/// free, and moves nothing otherwise; it succeeds exactly in the first case.
/// No other asset and no other trader's account changes.
pub proof fn lemma_lock_moves_exactly_what_it_grants(accounts: Map<u64, Account>, t: u64, amount: u64, asset: Asset)
    requires
        can_lock(accounts, t, amount, asset),
    ensures
        ({
            let before = if accounts.contains_key(t) { accounts[t] } else {
                Account { base_qty_available: 0, base_qty_locked: 0, quote_qty_available: 0, quote_qty_locked: 0 }
            };
            let free = match asset { Asset::Base => before.base_qty_available, Asset::Quote => before.quote_qty_available };
            let granted = amount > 0 && free >= amount;
            let moved: int = if granted { amount as int } else { 0 };
            let after = after_lock(accounts, t, amount, asset);
            &&& has_available(accounts, t, amount, asset) == granted
            &&& after.dom() == (if amount == 0 { accounts.dom() } else { accounts.dom().insert(t) })
            &&& forall|u: u64| u != t && #[trigger] accounts.contains_key(u) ==> after[u] == accounts[u]
            &&& after.contains_key(t) ==> {
                &&& after[t].base_qty_available == before.base_qty_available - (if asset == Asset::Base { moved } else { 0 })
                &&& after[t].base_qty_locked == before.base_qty_locked + (if asset == Asset::Base { moved } else { 0 })
                &&& after[t].quote_qty_available == before.quote_qty_available - (if asset == Asset::Quote { moved } else { 0 })
                &&& after[t].quote_qty_locked == before.quote_qty_locked + (if asset == Asset::Quote { moved } else { 0 })
            }
        }),
{
    let after = after_lock(accounts, t, amount, asset);
    assert(after.dom() =~= (if amount == 0 { accounts.dom() } else { accounts.dom().insert(t) }));
}

/// Only a zero price or a zero quantity makes an order invalid, whatever its
/// side and type; and an order whose trader has its cost free (a buy its
/// price times its quantity in quote, a sell its quantity in base) is funded,
/// so that placing it is accepted.
pub proof fn lemma_funded_order_is_accepted(accounts: Map<u64, Account>, o: Order)
    ensures
        order_is_valid(o) <==> (o.price != 0 && o.quantity != 0),
        o.price != 0 && o.quantity != 0 && accounts.contains_key(o.trader_id)
            && (o.side == Side::Buy ==> accounts[o.trader_id].quote_qty_available >= o.price * o.quantity)
            && (o.side == Side::Sell ==> accounts[o.trader_id].base_qty_available >= o.quantity)
            ==> order_is_valid(o) && order_funded(accounts, o),
{
    if o.price != 0 && o.quantity != 0 {
        assert(o.price * o.quantity > 0) by (nonlinear_arith)
            requires o.price != 0, o.quantity != 0;
    }
}

/// Locking only moves funds between free and locked: the trader holds as
/// much of each asset as before, and no other account changes.
pub proof fn lemma_lock_conserves(accounts: Map<u64, Account>, trader: u64, amount: u64, asset: Asset)
    requires
        can_lock(accounts, trader, amount, asset),
    ensures
        holding(account_of(after_lock(accounts, trader, amount, asset), trader), Asset::Base)
            == holding(account_of(accounts, trader), Asset::Base),
        holding(account_of(after_lock(accounts, trader, amount, asset), trader), Asset::Quote)
            == holding(account_of(accounts, trader), Asset::Quote),
        forall|other: u64| other != trader ==> account_of(after_lock(accounts, trader, amount, asset), other)
            == #[trigger] account_of(accounts, other),
{
}

/// Settling a trade between two different traders who both have accounts
/// moves the base from seller to buyer and the quote from buyer to seller:
/// together they hold as much of each asset as before, and no other account
/// changes.
pub proof fn lemma_settle_conserves(accounts: Map<u64, Account>, t: Trade)
    requires
        t.buyer_id != t.seller_id,
        accounts.contains_key(t.buyer_id),
        accounts.contains_key(t.seller_id),
        settle_one_ok(accounts, t),
    ensures
        holding(settle_one(accounts, t)[t.buyer_id], Asset::Base) + holding(settle_one(accounts, t)[t.seller_id], Asset::Base)
            == holding(accounts[t.buyer_id], Asset::Base) + holding(accounts[t.seller_id], Asset::Base),
        holding(settle_one(accounts, t)[t.buyer_id], Asset::Quote) + holding(settle_one(accounts, t)[t.seller_id], Asset::Quote)
            == holding(accounts[t.buyer_id], Asset::Quote) + holding(accounts[t.seller_id], Asset::Quote),
        holding(settle_one(accounts, t)[t.buyer_id], Asset::Base) == holding(accounts[t.buyer_id], Asset::Base) + t.quantity,
        holding(settle_one(accounts, t)[t.buyer_id], Asset::Quote) == holding(accounts[t.buyer_id], Asset::Quote) - trade_cost(t),
        forall|other: u64| other != t.buyer_id && other != t.seller_id ==> account_of(settle_one(accounts, t), other)
            == #[trigger] account_of(accounts, other),
{
}

/// A refund of price improvement only moves quote from locked to free.
pub proof fn lemma_refund_conserves(accounts: Map<u64, Account>, trader: u64, limit: u64, t: Trade)
    requires
        refund_one_ok(accounts, trader, limit, t),
    ensures
        holding(account_of(refund_one(accounts, trader, limit, t), trader), Asset::Quote)
            == holding(account_of(accounts, trader), Asset::Quote),
        holding(account_of(refund_one(accounts, trader, limit, t), trader), Asset::Base)
            == holding(account_of(accounts, trader), Asset::Base),
        forall|other: u64| other != trader ==> account_of(refund_one(accounts, trader, limit, t), other)
            == #[trigger] account_of(accounts, other),
{
}

/// Cancelling an order gives back exactly what it held locked: the amount
/// moves from locked to free and the trader holds as much as before.
pub proof fn lemma_release_returns_commitment(accounts: Map<u64, Account>, side: Side, c: Order)
    requires
        release_ok(accounts, side, c),
    ensures
        available(after_release(accounts, side, c)[c.trader_id], commitment_asset(side))
            == available(accounts[c.trader_id], commitment_asset(side)) + commitment(side, c),
        locked(after_release(accounts, side, c)[c.trader_id], commitment_asset(side))
            == locked(accounts[c.trader_id], commitment_asset(side)) - commitment(side, c),
        holding(after_release(accounts, side, c)[c.trader_id], Asset::Base) == holding(accounts[c.trader_id], Asset::Base),
        holding(after_release(accounts, side, c)[c.trader_id], Asset::Quote) == holding(accounts[c.trader_id], Asset::Quote),
{
}


/// Settling nothing changes nothing.
pub proof fn lemma_settle_nothing(accounts: Map<u64, Account>)
    ensures
        settle_all(accounts, Seq::empty()) == accounts,
        settle_all_ok(accounts, Seq::empty()),
{
}

/// Settling two lists of trades one after the other is settling their
/// concatenation, and it is free of overflow exactly when both parts are.
pub proof fn lemma_settle_concat(accounts: Map<u64, Account>, x: Seq<Trade>, y: Seq<Trade>)
    ensures
        settle_all(accounts, x + y) == settle_all(settle_all(accounts, x), y),
        settle_all_ok(accounts, x + y) == (settle_all_ok(accounts, x) && settle_all_ok(settle_all(accounts, x), y)),
    decreases x.len(),
{
    if x.len() == 0 {
        assert(x + y =~= y);
    } else {
        assert((x + y)[0] == x[0]);
        assert((x + y).drop_first() =~= x.drop_first() + y);
        lemma_settle_concat(settle_one(accounts, x[0]), x.drop_first(), y);
    }
}


/// The sum of `f` over `trades`.
pub open spec fn trade_sum(trades: Seq<Trade>, f: spec_fn(Trade) -> int) -> int
    decreases trades.len(),
{
    if trades.len() == 0 {
        0
    } else {
        f(trades[0]) + trade_sum(trades.drop_first(), f)
    }
}

/// Adding `f` of each trade to a running total.
pub open spec fn adding(f: spec_fn(Trade) -> int) -> spec_fn(Trade, int) -> int {
    |tr: Trade, acc: int| f(tr) + acc
}

/// Quote that trader `t` pays as buyer in a trade.
pub open spec fn paid_by(t: u64) -> spec_fn(Trade) -> int {
    |tr: Trade| if tr.buyer_id == t { tr.price * tr.quantity } else { 0 }
}

/// Base that trader `t` receives as buyer in a trade.
pub open spec fn received_by(t: u64) -> spec_fn(Trade) -> int {
    |tr: Trade| if tr.buyer_id == t { tr.quantity as int } else { 0 }
}

/// Base that trader `t` delivers as seller in a trade.
pub open spec fn delivered_by(t: u64) -> spec_fn(Trade) -> int {
    |tr: Trade| if tr.seller_id == t { tr.quantity as int } else { 0 }
}

/// Quote that trader `t` earns as seller in a trade.
pub open spec fn earned_by(t: u64) -> spec_fn(Trade) -> int {
    |tr: Trade| if tr.seller_id == t { tr.price * tr.quantity } else { 0 }
}

proof fn lemma_trade_sum_fold(trades: Seq<Trade>, f: spec_fn(Trade) -> int)
    ensures
        trade_sum(trades, f) == trades.fold_right(adding(f), 0),
    decreases trades.len(),
{
    trades.lemma_fold_right_alt(adding(f), 0);
    if trades.len() > 0 {
        let rest = trades.subrange(1, trades.len() as int);
        assert(rest =~= trades.drop_first());
        lemma_trade_sum_fold(rest, f);
        rest.lemma_fold_right_alt(adding(f), 0);
    }
}

/// A sum over trades does not depend on their order.
proof fn lemma_trade_sum_permutation(x: Seq<Trade>, y: Seq<Trade>, f: spec_fn(Trade) -> int)
    requires
        x.to_multiset() == y.to_multiset(),
    ensures
        trade_sum(x, f) == trade_sum(y, f),
{
    let g = adding(f);
    assert(vstd::seq_lib::commutative_foldr(g)) by {
        assert forall|a: Trade, b: Trade, v: int| #[trigger] g(a, g(b, v)) == g(b, g(a, v)) by {}
    }
    vstd::seq_lib::lemma_fold_right_permutation(x, y, g, 0);
    lemma_trade_sum_fold(x, f);
    lemma_trade_sum_fold(y, f);
}

/// What settlement leaves in a known trader's account: its locked quote pays
/// price times quantity for every trade it buys in, its free base receives
/// the quantity, its locked base delivers the quantity of every trade it
/// sells in and its free quote receives price times quantity. No account is
/// opened or closed.
pub proof fn lemma_settle_closed_form(accounts: Map<u64, Account>, trades: Seq<Trade>, t: u64)
    requires
        settle_all_ok(accounts, trades),
        accounts.contains_key(t),
    ensures
        settle_all(accounts, trades).dom() == accounts.dom(),
        settle_all(accounts, trades)[t].quote_qty_locked == accounts[t].quote_qty_locked - trade_sum(trades, paid_by(t)),
        settle_all(accounts, trades)[t].base_qty_available == accounts[t].base_qty_available + trade_sum(trades, received_by(t)),
        settle_all(accounts, trades)[t].base_qty_locked == accounts[t].base_qty_locked - trade_sum(trades, delivered_by(t)),
        settle_all(accounts, trades)[t].quote_qty_available == accounts[t].quote_qty_available + trade_sum(trades, earned_by(t)),
    decreases trades.len(),
{
    if trades.len() > 0 {
        let tr = trades[0];
        let a1 = settle_buyer(accounts, tr);
        let next = settle_one(accounts, tr);
        assert(a1.dom() =~= accounts.dom());
        assert(next.dom() =~= accounts.dom());
        assert(settle_one_ok(accounts, tr));
        assert(next[t].quote_qty_locked == accounts[t].quote_qty_locked - paid_by(t)(tr));
        assert(next[t].base_qty_available == accounts[t].base_qty_available + received_by(t)(tr));
        assert(next[t].base_qty_locked == accounts[t].base_qty_locked - delivered_by(t)(tr));
        assert(next[t].quote_qty_available == accounts[t].quote_qty_available + earned_by(t)(tr));
        lemma_settle_closed_form(next, trades.drop_first(), t);
    }
}

/// Settling the same trades in another order gives the same accounts, when
/// neither order of settlement over- or underflows a balance.
pub proof fn lemma_settle_order_free(accounts: Map<u64, Account>, x: Seq<Trade>, y: Seq<Trade>)
    requires
        x.to_multiset() == y.to_multiset(),
        settle_all_ok(accounts, x),
        settle_all_ok(accounts, y),
    ensures
        settle_all(accounts, x) == settle_all(accounts, y),
{
    let sx = settle_all(accounts, x);
    let sy = settle_all(accounts, y);
    lemma_settle_dom(accounts, x);
    lemma_settle_dom(accounts, y);
    assert forall|t: u64| #[trigger] accounts.contains_key(t) implies sx[t] == sy[t] by {
        lemma_settle_closed_form(accounts, x, t);
        lemma_settle_closed_form(accounts, y, t);
        lemma_trade_sum_permutation(x, y, paid_by(t));
        lemma_trade_sum_permutation(x, y, received_by(t));
        lemma_trade_sum_permutation(x, y, delivered_by(t));
        lemma_trade_sum_permutation(x, y, earned_by(t));
    }
    assert(sx =~= sy);
}

proof fn lemma_settle_dom(accounts: Map<u64, Account>, trades: Seq<Trade>)
    ensures
        settle_all(accounts, trades).dom() == accounts.dom(),
    decreases trades.len(),
{
    if trades.len() > 0 {
        let tr = trades[0];
        assert(settle_buyer(accounts, tr).dom() =~= accounts.dom());
        assert(settle_one(accounts, tr).dom() =~= accounts.dom());
        lemma_settle_dom(settle_one(accounts, tr), trades.drop_first());
    }
}

/// `o` meets no resting order on the other side: a buy is below every ask, a
/// sell above every bid.
pub open spec fn crosses_nothing(book: OrderBook, o: Order) -> bool {
    match o.side {
        Side::Buy => forall|a: u64| #[trigger] book.ask_levels().contains_key(a) ==> o.price < a,
        Side::Sell => forall|b: u64| #[trigger] book.bid_levels().contains_key(b) ==> b < o.price,
    }
}

/// Placing a funded limit order that meets nothing and cancelling it right
/// away gives back the order, leaves both sides of the book and the trade
/// counter as they were, and returns every account to its state before.
pub proof fn lemma_place_then_cancel_restores(accounts: Map<u64, Account>, book: OrderBook, o: Order)
    requires
        o.order_type == OrderType::Limit,
        order_is_valid(o),
        order_funded(accounts, o),
        place_ok(accounts, book, o),
        crosses_nothing(book, o),
        no_empty_levels(side_levels(book, o.side)),
        id_fresh_at(side_levels(book, o.side), o),
    ensures
        book.fills_for(o).len() == 0,
        match o.side {
            Side::Buy => match_order(book.bid_levels(), book.ask_levels(), o).2 == book.ask_levels(),
            Side::Sell => match_order(book.bid_levels(), book.ask_levels(), o).1 == book.bid_levels(),
        },
        cancelled_order(side_levels_after(book, o), o.price, o.order_id) == Some(o),
        cancel_at(side_levels_after(book, o), o.price, o.order_id) == side_levels(book, o.side),
        release_ok(accounts_after_order(accounts, book, o), o.side, o),
        after_release(accounts_after_order(accounts, book, o), o.side, o) == accounts,
{
    let bids = book.bid_levels();
    let asks = book.ask_levels();
    assert(asks.dom() =~= book.asks@.dom());
    assert(bids.dom() =~= book.bids@.dom());
    let t = o.trader_id;
    let asset = commitment_asset(o.side);
    let amount = order_lock(o) as u64;
    assert(crate::orderbook::with_quantity(o, o.quantity) == o);
    match o.side {
        Side::Buy => {
            lemma_ladder_exists(asks.dom());
            let ps = ascending(asks.dom());
            if ps.len() > 0 {
                assert(ps.to_set().contains(ps[0]));
                assert(asks.contains_key(ps[0]));
            }
            assert(crate::orderbook::sweep(asks, ps, o) == (Seq::<crate::orderbook::Fill>::empty(), asks, o.quantity));
        },
        Side::Sell => {
            lemma_ladder_exists(bids.dom());
            let up = ascending(bids.dom());
            let ps = descending(bids.dom());
            if ps.len() > 0 {
                assert(ps[0] == up[up.len() - 1]);
                assert(up.to_set().contains(up[up.len() - 1]));
                assert(bids.contains_key(ps[0]));
            }
            assert(crate::orderbook::sweep(bids, ps, o) == (Seq::<crate::orderbook::Fill>::empty(), bids, o.quantity));
        },
    }
    lemma_cancel_undoes_rest(side_levels(book, o.side), o);
    assert(trades_for(book, o) =~= Seq::<Trade>::empty());
    assert(accounts_after_order(accounts, book, o) == locked_for(accounts, o));
    assert(accounts.contains_key(t));
    assert(commitment(o.side, o) == order_lock(o));
    assert(after_release(locked_for(accounts, o), o.side, o) =~= accounts);
}

/// The side of the book `o` rests on, after it is placed.
pub open spec fn side_levels_after(book: OrderBook, o: Order) -> Map<u64, Seq<Order>> {
    match o.side {
        Side::Buy => match_order(book.bid_levels(), book.ask_levels(), o).1,
        Side::Sell => match_order(book.bid_levels(), book.ask_levels(), o).2,
    }
}


/// All of `asset` held over every account.
pub open spec fn total(accounts: Map<u64, Account>, asset: Asset) -> int
    decreases accounts.dom().len(),
    when accounts.dom().finite()
{
    if accounts.dom().len() == 0 {
        0
    } else {
        let k = accounts.dom().choose();
        holding(accounts[k], asset) + total(accounts.remove(k), asset)
    }
}

pub(crate) proof fn lemma_total_remove(accounts: Map<u64, Account>, k: u64, asset: Asset)
    requires
        accounts.dom().finite(),
        accounts.contains_key(k),
    ensures
        total(accounts, asset) == holding(accounts[k], asset) + total(accounts.remove(k), asset),
    decreases accounts.dom().len(),
{
    let c = accounts.dom().choose();
    assert(accounts.dom().len() > 0) by {
        assert(accounts.dom().contains(k));
    }
    if c != k {
        let mc = accounts.remove(c);
        let mk = accounts.remove(k);
        assert(mc.dom() =~= accounts.dom().remove(c));
        assert(mk.dom() =~= accounts.dom().remove(k));
        lemma_total_remove(mc, k, asset);
        lemma_total_remove(mk, c, asset);
        assert(mc.remove(k) =~= mk.remove(c));
    }
}

pub(crate) proof fn lemma_total_insert(accounts: Map<u64, Account>, k: u64, a: Account, asset: Asset)
    requires
        accounts.dom().finite(),
        accounts.contains_key(k),
    ensures
        total(accounts.insert(k, a), asset) == total(accounts, asset) - holding(accounts[k], asset) + holding(a, asset),
{
    let m = accounts.insert(k, a);
    lemma_total_remove(accounts, k, asset);
    lemma_total_remove(m, k, asset);
    assert(m.remove(k) =~= accounts.remove(k));
}

/// Settling one trade whose buyer and seller both have accounts conserves
/// the total of each asset over all accounts, and opens no account.
pub proof fn lemma_settle_one_conserves_total(accounts: Map<u64, Account>, t: Trade, asset: Asset)
    requires
        accounts.dom().finite(),
        accounts.contains_key(t.buyer_id),
        accounts.contains_key(t.seller_id),
        settle_one_ok(accounts, t),
    ensures
        settle_one(accounts, t).dom() == accounts.dom(),
        total(settle_one(accounts, t), asset) == total(accounts, asset),
{
    let a1 = settle_buyer(accounts, t);
    lemma_total_insert(accounts, t.buyer_id, crate::engine::buyer_settles(accounts[t.buyer_id], t), asset);
    assert(a1.dom() =~= accounts.dom());
    lemma_total_insert(a1, t.seller_id, crate::engine::seller_settles(a1[t.seller_id], t), asset);
    assert(settle_one(accounts, t).dom() =~= accounts.dom());
}

/// Every trade's buyer and seller have an account.
pub open spec fn parties_known(accounts: Map<u64, Account>, trades: Seq<Trade>) -> bool {
    forall|i: int| 0 <= i < trades.len() ==> accounts.contains_key((#[trigger] trades[i]).buyer_id)
        && accounts.contains_key(trades[i].seller_id)
}

/// Settlement of trades between known traders conserves the total of each
/// asset over all accounts and opens no account.
pub proof fn lemma_settle_conserves_total(accounts: Map<u64, Account>, trades: Seq<Trade>, asset: Asset)
    requires
        accounts.dom().finite(),
        parties_known(accounts, trades),
        settle_all_ok(accounts, trades),
    ensures
        settle_all(accounts, trades).dom() == accounts.dom(),
        total(settle_all(accounts, trades), asset) == total(accounts, asset),
    decreases trades.len(),
{
    if trades.len() > 0 {
        assert(accounts.contains_key(trades[0].buyer_id));
        lemma_settle_one_conserves_total(accounts, trades[0], asset);
        let next = settle_one(accounts, trades[0]);
        assert forall|i: int| 0 <= i < trades.drop_first().len() implies next.contains_key((#[trigger] trades.drop_first()[i]).buyer_id)
            && next.contains_key(trades.drop_first()[i].seller_id) by {
            assert(trades.drop_first()[i] == trades[i + 1]);
        }
        lemma_settle_conserves_total(next, trades.drop_first(), asset);
    }
}

pub(crate) proof fn lemma_refunds_conserve_total(accounts: Map<u64, Account>, trader: u64, limit: u64, trades: Seq<Trade>, asset: Asset)
    requires
        accounts.dom().finite(),
        refund_all_ok(accounts, trader, limit, trades),
    ensures
        refund_all(accounts, trader, limit, trades).dom() == accounts.dom(),
        total(refund_all(accounts, trader, limit, trades), asset) == total(accounts, asset),
    decreases trades.len(),
{
    if trades.len() > 0 {
        let next = refund_one(accounts, trader, limit, trades[0]);
        if crate::engine::refund_of(limit, trades[0]) > 0 && accounts.contains_key(trader) {
            lemma_total_insert(accounts, trader, next[trader], asset);
        }
        assert(next.dom() =~= accounts.dom());
        lemma_refunds_conserve_total(next, trader, limit, trades.drop_first(), asset);
    }
}

/// An accepted order conserves the total of each asset over all accounts,
/// when every trader it meets on the book has an account: the lock, the
/// refunds and the settlement only move funds between known accounts.
pub proof fn lemma_order_conserves_total(accounts: Map<u64, Account>, book: OrderBook, o: Order, asset: Asset)
    requires
        accounts.dom().finite(),
        order_is_valid(o),
        order_funded(accounts, o),
        place_ok(accounts, book, o),
        forall|i: int| 0 <= i < book.fills_for(o).len() ==> accounts.contains_key((#[trigger] book.fills_for(o)[i]).maker.trader_id),
    ensures
        accounts_after_order(accounts, book, o).dom() == accounts.dom(),
        total(accounts_after_order(accounts, book, o), asset) == total(accounts, asset),
{
    let t = o.trader_id;
    let l = locked_for(accounts, o);
    assert(accounts.contains_key(t));
    lemma_total_insert(accounts, t, l[t], asset);
    assert(l.dom() =~= accounts.dom());
    let r = refunded_for(accounts, book, o);
    if o.side == Side::Buy {
        lemma_refunds_conserve_total(l, t, o.price, trades_for(book, o), asset);
    }
    let trades = trades_for(book, o);
    assert forall|i: int| 0 <= i < trades.len() implies r.contains_key((#[trigger] trades[i]).buyer_id)
        && r.contains_key(trades[i].seller_id) by {
        assert(accounts.contains_key(book.fills_for(o)[i].maker.trader_id));
    }
    lemma_settle_conserves_total(r, trades, asset);
}

} // verus!
