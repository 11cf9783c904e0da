//! What resting orders hold locked, summed per trader, and the ledger
//! invariant that locked balances cover it.

use vstd::prelude::*;
use crate::engine::{
    after_release, cancel_ok, commitment, commitment_asset, locked, side_levels, Asset,
};
use crate::orderbook::{
    cancel_at, cancelled_order, enqueue, fill_level, first_with_id, other_than, sweep, take_level, with_quantity, Fill,
    OrderBook,
};
use crate::matching_laws::{book_ok, filled, lemma_filter_keeps_all, lemma_match_keeps_book_ok, level_ok, lemma_fill_keeps_level_ok, lemma_sweep_conserves, side_ok};
use crate::engine::{
    after_deposit, after_lock, after_withdraw, can_deposit, can_lock,
    accounts_after_order, locked_for, order_funded, order_is_valid, order_lock, place_ok, refund_all, refund_all_ok,
    refund_of, refund_one, refunded_for, settle_all, settle_all_ok, settle_one, settle_one_ok, trade_of, trades_for,
};
use crate::ledger_laws::{
    holding, lemma_order_conserves_total, lemma_refunds_conserve_total, lemma_settle_one_conserves_total, lemma_total_insert, lemma_total_remove,
    parties_known, total,
};
use crate::orderbook::match_order;
use crate::prices::{ascending, descending};
use crate::types::{Account, Order, OrderType, Side, Trade};

verus! {

broadcast use vstd::std_specs::btree::group_btree_axioms;

/// What the orders of trader `t` in `queue` hold locked.
pub open spec fn level_reserved(queue: Seq<Order>, t: u64, side: Side) -> int
    decreases queue.len(),
{
    if queue.len() == 0 {
        0
    } else {
        level_reserved(queue.drop_last(), t, side) + if queue.last().trader_id == t {
            commitment(side, queue.last())
        } else {
            0
        }
    }
}

/// What the orders of trader `t` on a book side hold locked.
pub open spec fn side_reserved(book: Map<u64, Seq<Order>>, t: u64, side: Side) -> int
    decreases book.dom().len(),
    when book.dom().finite()
{
    if book.dom().len() == 0 {
        0
    } else {
        let k = book.dom().choose();
        level_reserved(book[k], t, side) + side_reserved(book.remove(k), t, side)
    }
}

proof fn lemma_commitment_nonneg(side: Side, o: Order)
    ensures
        commitment(side, o) >= 0,
{
    assert(o.price * o.quantity >= 0) by (nonlinear_arith);
}

proof fn lemma_level_reserved_nonneg(queue: Seq<Order>, t: u64, side: Side)
    ensures
        level_reserved(queue, t, side) >= 0,
    decreases queue.len(),
{
    if queue.len() > 0 {
        lemma_commitment_nonneg(side, queue.last());
        lemma_level_reserved_nonneg(queue.drop_last(), t, side);
    }
}

proof fn lemma_side_reserved_nonneg(book: Map<u64, Seq<Order>>, t: u64, side: Side)
    requires
        book.dom().finite(),
    ensures
        side_reserved(book, t, side) >= 0,
    decreases book.dom().len(),
{
    if book.dom().len() > 0 {
        let k = book.dom().choose();
        lemma_level_reserved_nonneg(book[k], t, side);
        lemma_side_reserved_nonneg(book.remove(k), t, side);
    }
}

proof fn lemma_side_reserved_remove(book: Map<u64, Seq<Order>>, k: u64, t: u64, side: Side)
    requires
        book.dom().finite(),
        book.contains_key(k),
    ensures
        side_reserved(book, t, side) == level_reserved(book[k], t, side) + side_reserved(book.remove(k), t, side),
    decreases book.dom().len(),
{
    let c = book.dom().choose();
    assert(book.dom().len() > 0) by {
        assert(book.dom().contains(k));
    }
    if c != k {
        let mc = book.remove(c);
        let mk = book.remove(k);
        assert(mc.dom() =~= book.dom().remove(c));
        assert(mk.dom() =~= book.dom().remove(k));
        lemma_side_reserved_remove(mc, k, t, side);
        lemma_side_reserved_remove(mk, c, t, side);
        assert(mc.remove(k) =~= mk.remove(c));
    }
}

/// An order at index `j` of a queue counts towards its trader's reservation.
proof fn lemma_level_reserved_covers(queue: Seq<Order>, j: int, side: Side)
    requires
        0 <= j < queue.len(),
    ensures
        level_reserved(queue, queue[j].trader_id, side) >= commitment(side, queue[j]),
    decreases queue.len(),
{
    let t = queue[j].trader_id;
    if j == queue.len() - 1 {
        lemma_level_reserved_nonneg(queue.drop_last(), t, side);
    } else {
        assert(queue.drop_last()[j] == queue[j]);
        lemma_level_reserved_covers(queue.drop_last(), j, side);
        lemma_commitment_nonneg(side, queue.last());
    }
}

proof fn lemma_filter_reserved_le(queue: Seq<Order>, id: u64, t: u64, side: Side)
    ensures
        level_reserved(queue.filter(other_than(id)), t, side) <= level_reserved(queue, t, side),
    decreases queue.len(),
{
    reveal(Seq::filter);
    if queue.len() > 0 {
        let init = queue.drop_last();
        lemma_filter_reserved_le(init, id, t, side);
        lemma_commitment_nonneg(side, queue.last());
        let f = queue.filter(other_than(id));
        if other_than(id)(queue.last()) {
            assert(f.drop_last() =~= init.filter(other_than(id)));
        }
    }
}

/// Removing the orders with id `id` lowers trader `t`'s reservation by at
/// least the commitment of the one at index `j`, if it is `t`'s.
proof fn lemma_filter_reserved_drop(queue: Seq<Order>, id: u64, j: int, side: Side)
    requires
        0 <= j < queue.len(),
        queue[j].order_id == id,
    ensures
        level_reserved(queue.filter(other_than(id)), queue[j].trader_id, side) + commitment(side, queue[j])
            <= level_reserved(queue, queue[j].trader_id, side),
    decreases queue.len(),
{
    reveal(Seq::filter);
    let t = queue[j].trader_id;
    let init = queue.drop_last();
    let f = queue.filter(other_than(id));
    lemma_commitment_nonneg(side, queue.last());
    if j == queue.len() - 1 {
        lemma_filter_reserved_le(init, id, t, side);
    } else {
        assert(init[j] == queue[j]);
        lemma_filter_reserved_drop(init, id, j, side);
        if other_than(id)(queue.last()) {
            assert(f.drop_last() =~= init.filter(other_than(id)));
        }
    }
}

pub(crate) proof fn lemma_first_with_id_member(queue: Seq<Order>, id: u64)
    requires
        first_with_id(queue, id) is Some,
    ensures
        exists|j: int| 0 <= j < queue.len() && queue[j] == first_with_id(queue, id)->0 && queue[j].order_id == id,
    decreases queue.len(),
{
    if queue[0].order_id != id {
        lemma_first_with_id_member(queue.drop_first(), id);
        let j = choose|j: int| 0 <= j < queue.drop_first().len() && queue.drop_first()[j] == first_with_id(queue.drop_first(), id)->0
            && queue.drop_first()[j].order_id == id;
        assert(queue[j + 1] == queue.drop_first()[j]);
    } else {
        assert(queue[0] == first_with_id(queue, id)->0);
    }
}

proof fn lemma_filter_member(queue: Seq<Order>, id: u64, i: int)
    requires
        0 <= i < queue.filter(other_than(id)).len(),
    ensures
        queue.contains(queue.filter(other_than(id))[i]),
    decreases queue.len(),
{
    reveal(Seq::filter);
    let init = queue.drop_last();
    let f = queue.filter(other_than(id));
    let fi = init.filter(other_than(id));
    if other_than(id)(queue.last()) && i == f.len() - 1 {
        assert(queue[queue.len() - 1] == f[i]);
    } else {
        assert(f[i] == fi[i]);
        lemma_filter_member(init, id, i);
        let k = choose|k: int| 0 <= k < init.len() && init[k] == fi[i];
        assert(queue[k] == init[k]);
    }
}

/// No account holds more of an asset, free and locked together, than fits a
/// `u64`.
pub open spec fn holding_bound(accounts: Map<u64, Account>) -> bool {
    forall|t: u64| #[trigger] accounts.contains_key(t) ==> {
        &&& accounts[t].base_qty_available + accounts[t].base_qty_locked <= u64::MAX
        &&& accounts[t].quote_qty_available + accounts[t].quote_qty_locked <= u64::MAX
    }
}

/// Every trader with an order resting on `book` has an account.
pub open spec fn resting_traders_known(accounts: Map<u64, Account>, book: Map<u64, Seq<Order>>) -> bool {
    forall|p: u64, i: int| #[trigger] book.contains_key(p) && 0 <= i < book[p].len()
        ==> accounts.contains_key((#[trigger] book[p][i]).trader_id)
}

/// The ledger invariant: every resting order's trader has an account, and
/// each account's locked quote covers what its bids hold and its locked base
/// what its asks hold. (It is "covers", not "equals": the unfilled part of a
/// market order stays locked.)
pub open spec fn reservations_covered(accounts: Map<u64, Account>, book: OrderBook) -> bool {
    &&& resting_traders_known(accounts, book.bid_levels())
    &&& resting_traders_known(accounts, book.ask_levels())
    &&& forall|t: u64| #[trigger] accounts.contains_key(t) ==> {
        &&& accounts[t].quote_qty_locked >= side_reserved(book.bid_levels(), t, Side::Buy)
        &&& accounts[t].base_qty_locked >= side_reserved(book.ask_levels(), t, Side::Sell)
    }
}

/// Under the ledger invariant, and with no account holding more of an asset
/// than fits a `u64`, every cancel request can be carried out without a
/// panic.
pub proof fn lemma_covered_cancel_ok(accounts: Map<u64, Account>, book: OrderBook, side: Side, price: u64, id: u64)
    requires
        reservations_covered(accounts, book),
        holding_bound(accounts),
    ensures
        cancel_ok(accounts, book, side, price, id),
{
    let b = side_levels(book, side);
    assert(b.dom() =~= match side { Side::Buy => book.bids@.dom(), Side::Sell => book.asks@.dom() });
    if price != 0 && cancelled_order(b, price, id) is Some {
        let c = cancelled_order(b, price, id)->0;
        let q = b[price];
        lemma_first_with_id_member(q, id);
        let j = choose|j: int| 0 <= j < q.len() && q[j] == c && q[j].order_id == id;
        assert(accounts.contains_key(b[price][j].trader_id));
        lemma_level_reserved_covers(q, j, side);
        lemma_side_reserved_remove(b, price, c.trader_id, side);
        lemma_side_reserved_nonneg(b.remove(price), c.trader_id, side);
        assert(accounts.contains_key(c.trader_id));
    }
}

/// A cancel keeps the ledger invariant: the cancelled order's commitment
/// leaves its trader's locked balance, and at least as much leaves the
/// trader's reservation, because every order with that id leaves the level.
pub proof fn lemma_cancel_keeps_covered(accounts: Map<u64, Account>, book: OrderBook, side: Side, price: u64, id: u64,
    after: OrderBook)
    requires
        reservations_covered(accounts, book),
        cancel_ok(accounts, book, side, price, id),
        price != 0,
        side_levels(after, side) == cancel_at(side_levels(book, side), price, id),
        side == Side::Buy ==> after.ask_levels() == book.ask_levels(),
        side == Side::Sell ==> after.bid_levels() == book.bid_levels(),
    ensures
        reservations_covered(
            match cancelled_order(side_levels(book, side), price, id) {
                Some(c) => after_release(accounts, side, c),
                None => accounts,
            },
            after,
        ),
{
    let b = side_levels(book, side);
    let b2 = side_levels(after, side);
    assert(b.dom() =~= match side { Side::Buy => book.bids@.dom(), Side::Sell => book.asks@.dom() });
    let a2 = match cancelled_order(b, price, id) {
        Some(c) => after_release(accounts, side, c),
        None => accounts,
    };
    assert(a2.dom() =~= accounts.dom());
    // resting traders stay known
    assert forall|p: u64, i: int| #[trigger] b2.contains_key(p) && 0 <= i < b2[p].len()
        implies a2.contains_key((#[trigger] b2[p][i]).trader_id) by {
        if p == price {
            lemma_filter_member(b[price], id, i);
            let k = choose|k: int| 0 <= k < b[price].len() && b[price][k] == b2[p][i];
            assert(accounts.contains_key(b[price][k].trader_id));
        } else {
            assert(b2[p] == b[p]);
            assert(accounts.contains_key(b[p][i].trader_id));
        }
    }
    // reservations drop on the cancelled side
    assert forall|t: u64| true implies side_reserved(b2, t, side) <= side_reserved(b, t, side) - (
        match cancelled_order(b, price, id) {
            Some(c) => if c.trader_id == t { commitment(side, c) } else { 0 },
            None => 0,
        }) by {
        if b.contains_key(price) {
            let q = b[price];
            let kept = q.filter(other_than(id));
            lemma_side_reserved_remove(b, price, t, side);
            lemma_filter_reserved_le(q, id, t, side);
            if cancelled_order(b, price, id) is Some {
                let c = cancelled_order(b, price, id)->0;
                lemma_first_with_id_member(q, id);
                let j = choose|j: int| 0 <= j < q.len() && q[j] == c && q[j].order_id == id;
                if c.trader_id == t {
                    lemma_filter_reserved_drop(q, id, j, side);
                }
            }
            if kept.len() == 0 {
                assert(level_reserved(kept, t, side) == 0);
                assert(b2 == b.remove(price));
            } else {
                assert(b2.remove(price) =~= b.remove(price));
                lemma_side_reserved_remove(b2, price, t, side);
            }
        } else {
            assert(cancelled_order(b, price, id) is None);
        }
    }
    assert forall|t: u64| #[trigger] a2.contains_key(t) implies {
        &&& a2[t].quote_qty_locked >= side_reserved(after.bid_levels(), t, Side::Buy)
        &&& a2[t].base_qty_locked >= side_reserved(after.ask_levels(), t, Side::Sell)
    } by {
        assert(accounts.contains_key(t));
        let drop = match cancelled_order(b, price, id) {
            Some(c) => if c.trader_id == t { commitment(side, c) } else { 0 },
            None => 0,
        };
        assert(side_reserved(b2, t, side) <= side_reserved(b, t, side) - drop);
        assert(locked(a2[t], commitment_asset(side)) == locked(accounts[t], commitment_asset(side)) - drop);
    }
}


proof fn lemma_level_reserved_front(queue: Seq<Order>, t: u64, side: Side)
    requires
        queue.len() > 0,
    ensures
        level_reserved(queue, t, side) == (if queue[0].trader_id == t { commitment(side, queue[0]) } else { 0 })
            + level_reserved(queue.drop_first(), t, side),
    decreases queue.len(),
{
    if queue.len() > 1 {
        let dl = queue.drop_last();
        lemma_level_reserved_front(dl, t, side);
        assert(dl.drop_first() =~= queue.drop_first().drop_last());
        assert(dl[0] == queue[0]);
        assert(queue.drop_first().last() == queue.last());
        let df = queue.drop_first();
        assert(level_reserved(df, t, side) == level_reserved(df.drop_last(), t, side)
            + if df.last().trader_id == t { commitment(side, df.last()) } else { 0 });
        assert(level_reserved(queue, t, side) == level_reserved(dl, t, side)
            + if queue.last().trader_id == t { commitment(side, queue.last()) } else { 0 });
    } else {
        assert(queue.drop_first().len() == 0);
        assert(queue.drop_last().len() == 0);
        assert(level_reserved(queue.drop_last(), t, side) == 0);
        assert(level_reserved(queue.drop_first(), t, side) == 0);
        assert(queue.last() == queue[0]);
    }
}

/// What a fill took from its maker's reservation.
pub open spec fn fill_commitment(side: Side, f: Fill) -> int {
    commitment(side, with_quantity(f.maker, f.quantity))
}

/// What the fills against trader `m`'s resting orders took from its
/// reservation on `side`.
pub open spec fn fills_reserved(fills: Seq<Fill>, m: u64, side: Side) -> int
    decreases fills.len(),
{
    if fills.len() == 0 {
        0
    } else {
        (if fills[0].maker.trader_id == m { fill_commitment(side, fills[0]) } else { 0 })
            + fills_reserved(fills.drop_first(), m, side)
    }
}

proof fn lemma_fills_reserved_append(a: Seq<Fill>, b: Seq<Fill>, m: u64, side: Side)
    ensures
        fills_reserved(a + b, m, side) == fills_reserved(a, m, side) + fills_reserved(b, m, side),
    decreases a.len(),
{
    if a.len() == 0 {
        assert(a + b =~= b);
    } else {
        assert((a + b).drop_first() =~= a.drop_first() + b);
        assert((a + b)[0] == a[0]);
        lemma_fills_reserved_append(a.drop_first(), b, m, side);
    }
}

/// Every fill is at its maker's own price.
pub open spec fn fills_at_maker_price(fills: Seq<Fill>) -> bool {
    forall|i: int| 0 <= i < fills.len() ==> (#[trigger] fills[i]).maker.price == fills[i].price
}

/// At one level, what the maker `m` had reserved is what the fills took
/// plus what still rests.
proof fn lemma_fill_level_reserved(queue: Seq<Order>, price: u64, side: Side, wanted: u64, m: u64)
    requires
        level_ok(queue, price, side),
    ensures
        level_reserved(queue, m, side) == fills_reserved(fill_level(queue, price, wanted).0, m, side)
            + level_reserved(fill_level(queue, price, wanted).1, m, side),
        fills_at_maker_price(fill_level(queue, price, wanted).0),
    decreases queue.len(),
{
    let r = fill_level(queue, price, wanted);
    if queue.len() > 0 {
        let head = queue[0];
        assert(head.price == price);
        lemma_level_reserved_front(queue, m, side);
        if wanted <= head.quantity {
            let left = (head.quantity - wanted) as u64;
            assert(r.0.drop_first().len() == 0);
            assert(fills_reserved(r.0.drop_first(), m, side) == 0);
            assert(commitment(side, head) == commitment(side, with_quantity(head, wanted)) + commitment(side, with_quantity(head, left))) by {
                let p = head.price as int;
                assert(p * head.quantity == p * wanted + p * left) by (nonlinear_arith)
                    requires head.quantity == wanted + left;
            }
            if left > 0 {
                let rest = queue.update(0, with_quantity(head, left));
                lemma_level_reserved_front(rest, m, side);
                assert(rest.drop_first() =~= queue.drop_first());
            } else {
                assert(commitment(side, with_quantity(head, left)) == 0);
            }
        } else {
            let w = (wanted - head.quantity) as u64;
            let tail = queue.drop_first();
            assert(level_ok(tail, price, side)) by {
                assert forall|i: int| 0 <= i < tail.len() implies (#[trigger] tail[i]).side == side && tail[i].price == price
                    && tail[i].quantity > 0 by {
                    assert(tail[i] == queue[i + 1]);
                }
            }
            lemma_fill_level_reserved(tail, price, side, w, m);
            let sub = fill_level(tail, price, w);
            assert(r.0.drop_first() =~= sub.0);
            assert(with_quantity(head, head.quantity) == head);
            assert forall|i: int| 0 <= i < r.0.len() implies (#[trigger] r.0[i]).maker.price == r.0[i].price by {
                if i > 0 {
                    assert(r.0[i] == sub.0[i - 1]);
                }
            }
        }
    }
}

proof fn lemma_side_reserved_insert(book: Map<u64, Seq<Order>>, k: u64, q: Seq<Order>, t: u64, side: Side)
    requires
        book.dom().finite(),
    ensures
        side_reserved(book.insert(k, q), t, side) == side_reserved(book.remove(k), t, side) + level_reserved(q, t, side),
        book.contains_key(k) ==> side_reserved(book, t, side) == side_reserved(book.remove(k), t, side)
            + level_reserved(book[k], t, side),
        !book.contains_key(k) ==> book.remove(k) == book,
{
    let b2 = book.insert(k, q);
    lemma_side_reserved_remove(b2, k, t, side);
    assert(b2.remove(k) =~= book.remove(k));
    if book.contains_key(k) {
        lemma_side_reserved_remove(book, k, t, side);
    } else {
        assert(book.remove(k) =~= book);
    }
}

/// A sweep takes from each maker's reservation exactly what its fills took.
proof fn lemma_sweep_reserved(book: Map<u64, Seq<Order>>, prices: Seq<u64>, taker: Order, side: Side, m: u64)
    requires
        book.dom().finite(),
        side_ok(book, side),
    ensures
        side_reserved(book, m, side) == fills_reserved(sweep(book, prices, taker).0, m, side)
            + side_reserved(sweep(book, prices, taker).1, m, side),
        fills_at_maker_price(sweep(book, prices, taker).0),
        sweep(book, prices, taker).1.dom().finite(),
    decreases prices.len(),
{
    let r = sweep(book, prices, taker);
    if prices.len() > 0 && crosses_at(taker, prices[0]) {
        let p = prices[0];
        let step = take_level(book, p, taker.quantity);
        if book.contains_key(p) {
            lemma_fill_level_reserved(book[p], p, side, taker.quantity, m);
            lemma_fill_keeps_level_ok(book[p], p, side, taker.quantity);
            let fl = fill_level(book[p], p, taker.quantity);
            lemma_side_reserved_insert(book, p, fl.1, m, side);
            if fl.1.len() == 0 {
                assert(level_reserved(fl.1, m, side) == 0);
            }
        } else {
            assert(step.0.len() == 0);
        }
        assert(step.1.dom().finite()) by {
            if book.contains_key(p) {
                assert(step.1.dom().subset_of(book.dom().insert(p)));
                vstd::set_lib::lemma_len_subset(step.1.dom(), book.dom().insert(p));
            }
        }
        assert(side_ok(step.1, side));
        if step.2 != 0 {
            let next = with_quantity(taker, step.2);
            lemma_sweep_reserved(step.1, prices.drop_first(), next, side, m);
            let sub = sweep(step.1, prices.drop_first(), next);
            lemma_fills_reserved_append(step.0, sub.0, m, side);
            assert forall|i: int| 0 <= i < r.0.len() implies (#[trigger] r.0[i]).maker.price == r.0[i].price by {
                if i < step.0.len() {
                    assert(r.0[i] == step.0[i]);
                } else {
                    assert(r.0[i] == sub.0[i - step.0.len()]);
                }
            }
        }
    } else {
        assert(fills_reserved(r.0, m, side) == 0);
    }
}

pub open spec fn crosses_at(taker: Order, level: u64) -> bool {
    crate::orderbook::crosses(taker, level)
}


/// Quote that trader `t` pays as buyer over `trades`.
pub open spec fn bought_cost(trades: Seq<Trade>, t: u64) -> int
    decreases trades.len(),
{
    if trades.len() == 0 {
        0
    } else {
        (if trades[0].buyer_id == t { trades[0].price * trades[0].quantity } else { 0 }) + bought_cost(trades.drop_first(), t)
    }
}

/// Base that trader `t` delivers as seller over `trades`.
pub open spec fn sold_qty(trades: Seq<Trade>, t: u64) -> int
    decreases trades.len(),
{
    if trades.len() == 0 {
        0
    } else {
        (if trades[0].seller_id == t { trades[0].quantity as int } else { 0 }) + sold_qty(trades.drop_first(), t)
    }
}

/// The price improvement refunded to a buyer with limit `limit` over `trades`.
pub open spec fn refund_total(limit: u64, trades: Seq<Trade>) -> int
    decreases trades.len(),
{
    if trades.len() == 0 {
        0
    } else {
        (if refund_of(limit, trades[0]) > 0 { refund_of(limit, trades[0]) } else { 0 }) + refund_total(limit, trades.drop_first())
    }
}

/// Settlement takes from each known trader's locked quote what it pays as
/// buyer and from its locked base what it delivers as seller.
proof fn lemma_settle_locked(accounts: Map<u64, Account>, trades: Seq<Trade>, t: u64)
    requires
        accounts.dom().finite(),
        parties_known(accounts, trades),
        settle_all_ok(accounts, trades),
        accounts.contains_key(t),
    ensures
        settle_all(accounts, trades).dom() == accounts.dom(),
        settle_all(accounts, trades)[t].quote_qty_locked == accounts[t].quote_qty_locked - bought_cost(trades, t),
        settle_all(accounts, trades)[t].base_qty_locked == accounts[t].base_qty_locked - sold_qty(trades, t),
    decreases trades.len(),
{
    if trades.len() > 0 {
        let tr = trades[0];
        assert(accounts.contains_key(tr.buyer_id));
        let next = settle_one(accounts, tr);
        crate::ledger_laws::lemma_settle_one_conserves_total(accounts, tr, crate::engine::Asset::Base);
        assert forall|i: int| 0 <= i < trades.drop_first().len() implies next.contains_key((#[trigger] trades.drop_first()[i]).buyer_id)
            && next.contains_key(trades.drop_first()[i].seller_id) by {
            assert(trades.drop_first()[i] == trades[i + 1]);
        }
        lemma_settle_locked(next, trades.drop_first(), t);
    }
}

/// Refunds take their total from the buyer's locked quote and touch nothing
/// else that is locked.
proof fn lemma_refund_locked(accounts: Map<u64, Account>, trader: u64, limit: u64, trades: Seq<Trade>, t: u64)
    requires
        refund_all_ok(accounts, trader, limit, trades),
        accounts.contains_key(t),
    ensures
        refund_all(accounts, trader, limit, trades).dom() == accounts.dom(),
        refund_all(accounts, trader, limit, trades)[t].quote_qty_locked
            == accounts[t].quote_qty_locked - (if t == trader { refund_total(limit, trades) } else { 0 }),
        refund_all(accounts, trader, limit, trades)[t].base_qty_locked == accounts[t].base_qty_locked,
        forall|i: int| 0 <= i < trades.len() ==> (#[trigger] trades[i]).price <= limit,
    decreases trades.len(),
{
    if trades.len() > 0 {
        let next = refund_one(accounts, trader, limit, trades[0]);
        assert(next.dom() =~= accounts.dom());
        lemma_refund_locked(next, trader, limit, trades.drop_first(), t);
        assert forall|i: int| 0 <= i < trades.len() implies (#[trigger] trades[i]).price <= limit by {
            if i > 0 {
                assert(trades[i] == trades.drop_first()[i - 1]);
            }
        }
    }
}

/// The trades reporting `fills` of `taker`, numbered from `first_id`.
pub open spec fn fill_trades(fills: Seq<Fill>, taker: Order, first_id: int) -> Seq<Trade> {
    Seq::new(fills.len(), |i: int| trade_of(fills[i], taker, first_id + i))
}

/// Quote that fills are worth at their prices.
pub open spec fn fill_value(fills: Seq<Fill>) -> int
    decreases fills.len(),
{
    if fills.len() == 0 {
        0
    } else {
        fills[0].price * fills[0].quantity + fill_value(fills.drop_first())
    }
}

/// What the trades of one incoming order do to each trader's locked
/// balances, in terms of its fills.
proof fn lemma_fill_trades_sums(fills: Seq<Fill>, taker: Order, first_id: int, t: u64)
    requires
        fills_at_maker_price(fills),
    ensures
        taker.side == Side::Buy ==> sold_qty(fill_trades(fills, taker, first_id), t) == fills_reserved(fills, t, Side::Sell),
        taker.side == Side::Buy ==> bought_cost(fill_trades(fills, taker, first_id), t)
            == if t == taker.trader_id { fill_value(fills) } else { 0 },
        taker.side == Side::Buy && (forall|i: int| 0 <= i < fills.len() ==> (#[trigger] fills[i]).price <= taker.price) ==>
            refund_total(taker.price, fill_trades(fills, taker, first_id)) + fill_value(fills) == taker.price * filled(fills),
        taker.side == Side::Sell ==> {
            &&& bought_cost(fill_trades(fills, taker, first_id), t) == fills_reserved(fills, t, Side::Buy)
            &&& sold_qty(fill_trades(fills, taker, first_id), t) == if t == taker.trader_id { filled(fills) } else { 0 }
        },
    decreases fills.len(),
{
    let ft = fill_trades(fills, taker, first_id);
    if fills.len() == 0 {
        assert(taker.price * filled(fills) == 0);
    }
    if fills.len() > 0 {
        let rest = fills.drop_first();
        assert(fills_at_maker_price(rest)) by {
            assert forall|i: int| 0 <= i < rest.len() implies (#[trigger] rest[i]).maker.price == rest[i].price by {
                assert(rest[i] == fills[i + 1]);
            }
        }
        lemma_fill_trades_sums(rest, taker, first_id + 1, t);
        assert(ft.drop_first() =~= fill_trades(rest, taker, first_id + 1));
        let f = fills[0];
        assert(f.maker.price == f.price);
        assert(ft[0] == trade_of(f, taker, first_id));
        assert(filled(fills) == f.quantity + filled(rest));
        assert(fill_value(fills) == f.price * f.quantity + fill_value(rest));
        assert(fills_reserved(fills, t, Side::Sell) == (if f.maker.trader_id == t { fill_commitment(Side::Sell, f) } else { 0 })
            + fills_reserved(rest, t, Side::Sell));
        assert(fills_reserved(fills, t, Side::Buy) == (if f.maker.trader_id == t { fill_commitment(Side::Buy, f) } else { 0 })
            + fills_reserved(rest, t, Side::Buy));
        assert(sold_qty(ft, t) == (if ft[0].seller_id == t { ft[0].quantity as int } else { 0 }) + sold_qty(ft.drop_first(), t));
        assert(bought_cost(ft, t) == (if ft[0].buyer_id == t { ft[0].price * ft[0].quantity } else { 0 }) + bought_cost(ft.drop_first(), t));
        assert(refund_total(taker.price, ft) == (if refund_of(taker.price, ft[0]) > 0 { refund_of(taker.price, ft[0]) } else { 0 })
            + refund_total(taker.price, ft.drop_first()));
        if taker.side == Side::Buy {
            if forall|i: int| 0 <= i < fills.len() ==> (#[trigger] fills[i]).price <= taker.price {
                assert forall|i: int| 0 <= i < rest.len() implies (#[trigger] rest[i]).price <= taker.price by {
                    assert(rest[i] == fills[i + 1]);
                }
                assert(fills[0].price <= taker.price);
                let pl = taker.price as int;
                let pf = f.price as int;
                let q = f.quantity as int;
                assert((pl - pf) * q + pf * q == pl * q) by (nonlinear_arith);
                assert(pl * q + pl * filled(rest) == pl * (q + filled(rest))) by (nonlinear_arith);
                assert((pl - pf) * q >= 0) by (nonlinear_arith)
                    requires pf <= pl, q >= 0;
                assert(refund_of(taker.price, ft[0]) == (pl - pf) * q);
                assert(taker.price * filled(fills) == pl * (q + filled(rest)));
                assert(refund_total(taker.price, ft.drop_first()) + fill_value(rest) == pl * filled(rest));
            }
        }
    }
}

proof fn lemma_enqueue_reserved(book: Map<u64, Seq<Order>>, o: Order, t: u64, side: Side)
    requires
        book.dom().finite(),
    ensures
        side_reserved(enqueue(book, o), t, side)
            == side_reserved(book, t, side) + if o.trader_id == t { commitment(side, o) } else { 0 },
        enqueue(book, o).dom().finite(),
{
    let p = o.price;
    let q = if book.contains_key(p) { book[p].push(o) } else { seq![o] };
    lemma_side_reserved_insert(book, p, q, t, side);
    if book.contains_key(p) {
        assert(q.drop_last() =~= book[p]);
    } else {
        assert(q.drop_last() =~= Seq::<Order>::empty());
        assert(level_reserved(q.drop_last(), t, side) == 0);
    }
}

/// Every order resting in `queue` belongs to a trader with an account.
pub open spec fn level_known(accounts: Map<u64, Account>, queue: Seq<Order>) -> bool {
    forall|i: int| 0 <= i < queue.len() ==> accounts.contains_key((#[trigger] queue[i]).trader_id)
}

proof fn lemma_fill_keeps_known(accounts: Map<u64, Account>, queue: Seq<Order>, price: u64, wanted: u64)
    requires
        level_known(accounts, queue),
    ensures
        level_known(accounts, fill_level(queue, price, wanted).1),
        makers_known(accounts, fill_level(queue, price, wanted).0),
    decreases queue.len(),
{
    let fl = fill_level(queue, price, wanted).0;
    if queue.len() > 0 {
        assert(accounts.contains_key(queue[0].trader_id));
        let tail = queue.drop_first();
        assert(level_known(accounts, tail)) by {
            assert forall|i: int| 0 <= i < tail.len() implies accounts.contains_key((#[trigger] tail[i]).trader_id) by {
                assert(tail[i] == queue[i + 1]);
            }
        }
        if wanted > queue[0].quantity {
            lemma_fill_keeps_known(accounts, tail, price, (wanted - queue[0].quantity) as u64);
            let sub = fill_level(tail, price, (wanted - queue[0].quantity) as u64).0;
            assert forall|i: int| 0 <= i < fl.len() implies accounts.contains_key((#[trigger] fl[i]).maker.trader_id) by {
                if i > 0 {
                    assert(fl[i] == sub[i - 1]);
                }
            }
        } else {
            let r = fill_level(queue, price, wanted).1;
            assert forall|i: int| 0 <= i < r.len() implies accounts.contains_key((#[trigger] r[i]).trader_id) by {
                if (queue[0].quantity - wanted) as u64 > 0 {
                    if i > 0 {
                        assert(r[i] == queue[i]);
                    }
                } else {
                    assert(r[i] == tail[i]);
                }
            }
        }
    }
}

/// Every fill's maker has an account.
pub open spec fn makers_known(accounts: Map<u64, Account>, fills: Seq<Fill>) -> bool {
    forall|i: int| 0 <= i < fills.len() ==> accounts.contains_key((#[trigger] fills[i]).maker.trader_id)
}

proof fn lemma_sweep_keeps_known(accounts: Map<u64, Account>, book: Map<u64, Seq<Order>>, prices: Seq<u64>, taker: Order)
    requires
        resting_traders_known(accounts, book),
    ensures
        resting_traders_known(accounts, sweep(book, prices, taker).1),
        makers_known(accounts, sweep(book, prices, taker).0),
    decreases prices.len(),
{
    let all = sweep(book, prices, taker).0;
    if prices.len() > 0 && crosses_at(taker, prices[0]) {
        let p = prices[0];
        let step = take_level(book, p, taker.quantity);
        if book.contains_key(p) {
            assert(level_known(accounts, book[p])) by {
                assert forall|i: int| 0 <= i < book[p].len() implies accounts.contains_key((#[trigger] book[p][i]).trader_id) by {
                    assert(book.contains_key(p));
                }
            }
            lemma_fill_keeps_known(accounts, book[p], p, taker.quantity);
        }
        assert(resting_traders_known(accounts, step.1)) by {
            assert forall|k: u64, i: int| #[trigger] step.1.contains_key(k) && 0 <= i < step.1[k].len()
                implies accounts.contains_key((#[trigger] step.1[k][i]).trader_id) by {
                if k != p {
                    assert(step.1[k] == book[k]);
                }
            }
        }
        if step.2 != 0 {
            lemma_sweep_keeps_known(accounts, step.1, prices.drop_first(), with_quantity(taker, step.2));
            let sub = sweep(step.1, prices.drop_first(), with_quantity(taker, step.2)).0;
            assert forall|i: int| 0 <= i < all.len() implies accounts.contains_key((#[trigger] all[i]).maker.trader_id) by {
                if i < step.0.len() {
                    assert(all[i] == step.0[i]);
                } else {
                    assert(all[i] == sub[i - step.0.len()]);
                }
            }
        }
    }
}

proof fn lemma_enqueue_keeps_known(accounts: Map<u64, Account>, book: Map<u64, Seq<Order>>, o: Order)
    requires
        resting_traders_known(accounts, book),
        accounts.contains_key(o.trader_id),
    ensures
        resting_traders_known(accounts, enqueue(book, o)),
{
    let b2 = enqueue(book, o);
    assert forall|k: u64, i: int| #[trigger] b2.contains_key(k) && 0 <= i < b2[k].len()
        implies accounts.contains_key((#[trigger] b2[k][i]).trader_id) by {
        if k == o.price && book.contains_key(k) && i < book[k].len() {
            assert(b2[k][i] == book[k][i]);
        }
    }
}

/// The ledger invariant over the two sides of a book given as maps.
pub open spec fn covered(accounts: Map<u64, Account>, bids: Map<u64, Seq<Order>>, asks: Map<u64, Seq<Order>>) -> bool {
    &&& resting_traders_known(accounts, bids)
    &&& resting_traders_known(accounts, asks)
    &&& forall|t: u64| #[trigger] accounts.contains_key(t) ==> {
        &&& accounts[t].quote_qty_locked >= side_reserved(bids, t, Side::Buy)
        &&& accounts[t].base_qty_locked >= side_reserved(asks, t, Side::Sell)
    }
}

proof fn lemma_unknown_trader_reserves_nothing(accounts: Map<u64, Account>, book: Map<u64, Seq<Order>>, t: u64, side: Side)
    requires
        book.dom().finite(),
        resting_traders_known(accounts, book),
        !accounts.contains_key(t),
    ensures
        side_reserved(book, t, side) == 0,
    decreases book.dom().len(),
{
    if book.dom().len() > 0 {
        let k = book.dom().choose();
        let q = book[k];
        assert(level_known(accounts, q)) by {
            assert forall|i: int| 0 <= i < q.len() implies accounts.contains_key((#[trigger] q[i]).trader_id) by {
                assert(book.contains_key(k) && 0 <= i < book[k].len());
                assert(accounts.contains_key(book[k][i].trader_id));
            }
        }
        assert(level_reserved(q, t, side) == 0) by {
            lemma_level_reserved_zero(accounts, q, t, side);
        }
        assert(resting_traders_known(accounts, book.remove(k))) by {
            assert forall|p: u64, i: int| #[trigger] book.remove(k).contains_key(p) && 0 <= i < book.remove(k)[p].len()
                implies accounts.contains_key((#[trigger] book.remove(k)[p][i]).trader_id) by {
                assert(book.contains_key(p) && book.remove(k)[p] == book[p]);
            }
        }
        lemma_unknown_trader_reserves_nothing(accounts, book.remove(k), t, side);
    }
}

proof fn lemma_level_reserved_zero(accounts: Map<u64, Account>, q: Seq<Order>, t: u64, side: Side)
    requires
        level_known(accounts, q),
        !accounts.contains_key(t),
    ensures
        level_reserved(q, t, side) == 0,
    decreases q.len(),
{
    if q.len() > 0 {
        assert(accounts.contains_key(q[q.len() - 1].trader_id));
        assert(level_known(accounts, q.drop_last())) by {
            assert forall|i: int| 0 <= i < q.drop_last().len() implies accounts.contains_key((#[trigger] q.drop_last()[i]).trader_id) by {
                assert(q.drop_last()[i] == q[i]);
            }
        }
        lemma_level_reserved_zero(accounts, q.drop_last(), t, side);
    }
}


/// What an order still wants once matched against the book.
pub open spec fn order_left(book: OrderBook, o: Order) -> u64 {
    match o.side {
        Side::Buy => sweep(book.ask_levels(), ascending(book.ask_levels().dom()), o).2,
        Side::Sell => sweep(book.bid_levels(), descending(book.bid_levels().dom()), o).2,
    }
}

/// Whether what an order still wants comes to rest (a limit order with
/// quantity left).
pub open spec fn order_rests(book: OrderBook, o: Order) -> bool {
    o.order_type == OrderType::Limit && order_left(book, o) > 0
}

proof fn lemma_place_funded_keeps_covered(accounts: Map<u64, Account>, book: OrderBook, o: Order)
    requires
        accounts.dom().finite(),
        covered(accounts, book.bid_levels(), book.ask_levels()),
        book_ok(book.bid_levels(), book.ask_levels()),
        order_is_valid(o),
        order_funded(accounts, o),
        place_ok(accounts, book, o),
    ensures
        covered(
            accounts_after_order(accounts, book, o),
            match_order(book.bid_levels(), book.ask_levels(), o).1,
            match_order(book.bid_levels(), book.ask_levels(), o).2,
        ),
        accounts_after_order(accounts, book, o).dom() == accounts.dom(),
        forall|t: u64| #[trigger] accounts.contains_key(t) ==> {
            &&& accounts_after_order(accounts, book, o)[t].quote_qty_locked
                - side_reserved(match_order(book.bid_levels(), book.ask_levels(), o).1, t, Side::Buy)
                == accounts[t].quote_qty_locked - side_reserved(book.bid_levels(), t, Side::Buy)
                + if o.side == Side::Buy && t == o.trader_id && !order_rests(book, o) { o.price * order_left(book, o) } else { 0 }
            &&& accounts_after_order(accounts, book, o)[t].base_qty_locked
                - side_reserved(match_order(book.bid_levels(), book.ask_levels(), o).2, t, Side::Sell)
                == accounts[t].base_qty_locked - side_reserved(book.ask_levels(), t, Side::Sell)
                + if o.side == Side::Sell && t == o.trader_id && !order_rests(book, o) { order_left(book, o) as int } else { 0 }
        },
{
    let bids = book.bid_levels();
    let asks = book.ask_levels();
    assert(asks.dom() =~= book.asks@.dom());
    assert(bids.dom() =~= book.bids@.dom());
    let tk = o.trader_id;
    let m = match_order(bids, asks, o);
    let (opp, opp_side, ps) = match o.side {
        Side::Buy => (asks, Side::Sell, ascending(asks.dom())),
        Side::Sell => (bids, Side::Buy, descending(bids.dom())),
    };
    let sw = sweep(opp, ps, o);
    let fills = sw.0;
    let left = sw.2;
    assert(book.fills_for(o) == fills);
    lemma_sweep_conserves(opp, ps, o);
    lemma_sweep_keeps_known(accounts, opp, ps, o);
    let trades = trades_for(book, o);
    assert(trades =~= fill_trades(fills, o, book.trade_counter + 1));
    let l1 = locked_for(accounts, o);
    assert(accounts.contains_key(tk));
    assert(l1.dom() =~= accounts.dom());
    let r = refunded_for(accounts, book, o);
    let fin = accounts_after_order(accounts, book, o);
    let rests = o.order_type == OrderType::Limit && left > 0;
    let rested = with_quantity(o, left);
    // the refunds, where there are any
    assert(r.dom() == accounts.dom() && forall|t: u64| #[trigger] accounts.contains_key(t) ==>
        r[t].base_qty_locked == l1[t].base_qty_locked
        && r[t].quote_qty_locked == l1[t].quote_qty_locked - (if o.side == Side::Buy && t == tk {
            refund_total(o.price, trades) } else { 0 })) by {
        if o.side == Side::Buy {
            assert forall|t: u64| #[trigger] accounts.contains_key(t) implies r[t].base_qty_locked == l1[t].base_qty_locked
                && r[t].quote_qty_locked == l1[t].quote_qty_locked - (if t == tk { refund_total(o.price, trades) } else { 0 }) by {
                lemma_refund_locked(l1, tk, o.price, trades, t);
            }
            lemma_refund_locked(l1, tk, o.price, trades, tk);
        }
    }
    if o.side == Side::Buy {
        lemma_refund_locked(l1, tk, o.price, trades, tk);
        assert forall|i: int| 0 <= i < fills.len() implies (#[trigger] fills[i]).price <= o.price by {
            assert(trades[i].price == fills[i].price);
        }
    }
    // settlement
    assert(parties_known(r, trades)) by {
        assert forall|i: int| 0 <= i < trades.len() implies r.contains_key((#[trigger] trades[i]).buyer_id)
            && r.contains_key(trades[i].seller_id) by {
            assert(accounts.contains_key(fills[i].maker.trader_id));
        }
    }
    assert(opp.dom().finite());
    assert(side_ok(opp, opp_side));
    assert(fin.dom() =~= accounts.dom()) by {
        lemma_settle_locked(r, trades, tk);
    }

    assert(left == order_left(book, o) && rests == order_rests(book, o));
    assert forall|t: u64| #[trigger] accounts.contains_key(t) implies {
        &&& fin[t].quote_qty_locked - side_reserved(m.1, t, Side::Buy)
            == accounts[t].quote_qty_locked - side_reserved(bids, t, Side::Buy)
            + if o.side == Side::Buy && t == tk && !rests { o.price * left } else { 0 }
        &&& fin[t].base_qty_locked - side_reserved(m.2, t, Side::Sell)
            == accounts[t].base_qty_locked - side_reserved(asks, t, Side::Sell)
            + if o.side == Side::Sell && t == tk && !rests { left as int } else { 0 }
        &&& fin[t].quote_qty_locked >= side_reserved(m.1, t, Side::Buy)
        &&& fin[t].base_qty_locked >= side_reserved(m.2, t, Side::Sell)
    } by {
        assert(accounts.contains_key(t));
        assert(r.contains_key(t));
        lemma_settle_locked(r, trades, t);
        lemma_sweep_reserved(opp, ps, o, opp_side, t);
        lemma_fill_trades_sums(fills, o, book.trade_counter + 1, t);
        let own = match o.side { Side::Buy => bids, Side::Sell => asks };
        lemma_enqueue_reserved(own, rested, t, o.side);
        lemma_side_reserved_nonneg(own, t, o.side);
        if o.side == Side::Buy {
            let pl = o.price as int;
            assert(pl * o.quantity - pl * filled(fills) == pl * left) by (nonlinear_arith)
                requires filled(fills) + left == o.quantity;
            assert(pl * left >= 0) by (nonlinear_arith)
                requires pl >= 0, left >= 0;
            assert(order_lock(o) == pl * o.quantity);
        }
    }
    let own = match o.side { Side::Buy => bids, Side::Sell => asks };
    let own_side = o.side;
    assert(resting_traders_known(fin, m.1) && resting_traders_known(fin, m.2)) by {
        if rests {
            lemma_enqueue_keeps_known(accounts, own, rested);
        }
        assert forall|k: u64, i: int| #[trigger] m.1.contains_key(k) && 0 <= i < m.1[k].len()
            implies fin.contains_key((#[trigger] m.1[k][i]).trader_id) by {
            assert(accounts.contains_key(m.1[k][i].trader_id));
        }
        assert forall|k: u64, i: int| #[trigger] m.2.contains_key(k) && 0 <= i < m.2[k].len()
            implies fin.contains_key((#[trigger] m.2[k][i]).trader_id) by {
            assert(accounts.contains_key(m.2[k][i].trader_id));
        }
    }
}


/// Placing an order keeps the ledger invariant and a well-formed book, when
/// it is refused for want of funds and when it is accepted: every resting
/// order's trader keeps an account, and each account's locked balances still
/// cover what its resting orders hold.
pub proof fn lemma_place_keeps_invariant(accounts: Map<u64, Account>, book: OrderBook, o: Order)
    requires
        accounts.dom().finite(),
        covered(accounts, book.bid_levels(), book.ask_levels()),
        book_ok(book.bid_levels(), book.ask_levels()),
        place_ok(accounts, book, o),
    ensures
        order_is_valid(o) && !order_funded(accounts, o) ==> covered(locked_for(accounts, o), book.bid_levels(), book.ask_levels()),
        order_is_valid(o) && order_funded(accounts, o) ==> {
            &&& covered(
                accounts_after_order(accounts, book, o),
                match_order(book.bid_levels(), book.ask_levels(), o).1,
                match_order(book.bid_levels(), book.ask_levels(), o).2,
            )
            &&& book_ok(match_order(book.bid_levels(), book.ask_levels(), o).1, match_order(book.bid_levels(), book.ask_levels(), o).2)
        },
{
    let bids = book.bid_levels();
    let asks = book.ask_levels();
    assert(asks.dom() =~= book.asks@.dom());
    assert(bids.dom() =~= book.bids@.dom());
    if order_is_valid(o) {
        if order_funded(accounts, o) {
            lemma_place_funded_keeps_covered(accounts, book, o);
            lemma_match_keeps_book_ok(bids, asks, o);
        } else {
            let tk = o.trader_id;
            let l = locked_for(accounts, o);
            if accounts.contains_key(tk) {
                assert(l =~= accounts);
            } else {
                lemma_unknown_trader_reserves_nothing(accounts, bids, tk, Side::Buy);
                lemma_unknown_trader_reserves_nothing(accounts, asks, tk, Side::Sell);
                assert forall|t: u64| #[trigger] l.contains_key(t) implies {
                    &&& l[t].quote_qty_locked >= side_reserved(bids, t, Side::Buy)
                    &&& l[t].base_qty_locked >= side_reserved(asks, t, Side::Sell)
                } by {
                    if t != tk {
                        assert(accounts.contains_key(t));
                    }
                }
            }
        }
    }
}

/// The ledger invariant in its exact form: every resting order's trader has
/// an account, and each account's locked quote is exactly what its bids hold
/// and its locked base exactly what its asks hold.
pub open spec fn reserved_exactly(accounts: Map<u64, Account>, bids: Map<u64, Seq<Order>>, asks: Map<u64, Seq<Order>>) -> bool {
    &&& resting_traders_known(accounts, bids)
    &&& resting_traders_known(accounts, asks)
    &&& forall|t: u64| #[trigger] accounts.contains_key(t) ==> {
        &&& accounts[t].quote_qty_locked == side_reserved(bids, t, Side::Buy)
        &&& accounts[t].base_qty_locked == side_reserved(asks, t, Side::Sell)
    }
}

/// Placing a limit order keeps the exact ledger invariant, whether it is
/// refused for want of funds or accepted: what it locks either pays for its
/// executions, comes back as price improvement, or stays reserved by the part
/// that rests.
pub proof fn lemma_place_limit_keeps_exact(accounts: Map<u64, Account>, book: OrderBook, o: Order)
    requires
        accounts.dom().finite(),
        reserved_exactly(accounts, book.bid_levels(), book.ask_levels()),
        book_ok(book.bid_levels(), book.ask_levels()),
        place_ok(accounts, book, o),
        o.order_type == OrderType::Limit,
    ensures
        order_is_valid(o) && !order_funded(accounts, o)
            ==> reserved_exactly(locked_for(accounts, o), book.bid_levels(), book.ask_levels()),
        order_is_valid(o) && order_funded(accounts, o) ==> reserved_exactly(
            accounts_after_order(accounts, book, o),
            match_order(book.bid_levels(), book.ask_levels(), o).1,
            match_order(book.bid_levels(), book.ask_levels(), o).2,
        ),
{
    let bids = book.bid_levels();
    let asks = book.ask_levels();
    assert(asks.dom() =~= book.asks@.dom());
    assert(bids.dom() =~= book.bids@.dom());
    if order_is_valid(o) {
        let tk = o.trader_id;
        if order_funded(accounts, o) {
            lemma_place_funded_keeps_covered(accounts, book, o);
            let fin = accounts_after_order(accounts, book, o);
            let m = match_order(bids, asks, o);
            let left = order_left(book, o);
            assert(!order_rests(book, o) ==> left == 0);
            assert(o.price * 0 == 0);
            assert forall|t: u64| #[trigger] fin.contains_key(t) implies {
                &&& fin[t].quote_qty_locked == side_reserved(m.1, t, Side::Buy)
                &&& fin[t].base_qty_locked == side_reserved(m.2, t, Side::Sell)
            } by {
                assert(accounts.contains_key(t));
            }
        } else {
            let l = locked_for(accounts, o);
            if accounts.contains_key(tk) {
                assert(l =~= accounts);
            } else {
                lemma_unknown_trader_reserves_nothing(accounts, bids, tk, Side::Buy);
                lemma_unknown_trader_reserves_nothing(accounts, asks, tk, Side::Sell);
                assert forall|t: u64| #[trigger] l.contains_key(t) implies {
                    &&& l[t].quote_qty_locked == side_reserved(bids, t, Side::Buy)
                    &&& l[t].base_qty_locked == side_reserved(asks, t, Side::Sell)
                } by {
                    if t != tk {
                        assert(accounts.contains_key(t));
                    }
                }
            }
        }
    }
}

/// Under the ledger invariant and a well-formed book, a cancel keeps both.
pub proof fn lemma_cancel_keeps_invariant(accounts: Map<u64, Account>, book: OrderBook, side: Side, price: u64, id: u64,
    after: OrderBook)
    requires
        reservations_covered(accounts, book),
        book_ok(book.bid_levels(), book.ask_levels()),
        cancel_ok(accounts, book, side, price, id),
        price != 0,
        side_levels(after, side) == cancel_at(side_levels(book, side), price, id),
        side == Side::Buy ==> after.ask_levels() == book.ask_levels(),
        side == Side::Sell ==> after.bid_levels() == book.bid_levels(),
    ensures
        reservations_covered(
            match cancelled_order(side_levels(book, side), price, id) {
                Some(c) => after_release(accounts, side, c),
                None => accounts,
            },
            after,
        ),
        book_ok(after.bid_levels(), after.ask_levels()),
{
    lemma_cancel_keeps_covered(accounts, book, side, price, id, after);
    crate::matching_laws::lemma_cancel_keeps_side_ok(side_levels(book, side), price, id, side);
}


/// No two orders at one price level share an id.
pub open spec fn ids_distinct(book: Map<u64, Seq<Order>>) -> bool {
    forall|p: u64, i: int, j: int|
        #![trigger book[p][i], book[p][j]]
        book.contains_key(p) && 0 <= i < book[p].len() && 0 <= j < book[p].len() && i != j
            ==> book[p][i].order_id != book[p][j].order_id
}

pub(crate) proof fn lemma_first_with_id_none(queue: Seq<Order>, id: u64, i: int)
    requires
        first_with_id(queue, id) is None,
        0 <= i < queue.len(),
    ensures
        queue[i].order_id != id,
    decreases queue.len(),
{
    if i > 0 {
        assert(queue.drop_first()[i - 1] == queue[i]);
        lemma_first_with_id_none(queue.drop_first(), id, i - 1);
    }
}

/// Removing the one order with id `id`, found at index `j`, lowers trader
/// `t`'s reservation by exactly that order's commitment if it is `t`'s.
proof fn lemma_filter_reserved_exact(queue: Seq<Order>, id: u64, j: int, t: u64, side: Side)
    requires
        0 <= j < queue.len(),
        queue[j].order_id == id,
        forall|i: int| 0 <= i < queue.len() && i != j ==> (#[trigger] queue[i]).order_id != id,
    ensures
        level_reserved(queue.filter(other_than(id)), t, side)
            == level_reserved(queue, t, side) - (if queue[j].trader_id == t { commitment(side, queue[j]) } else { 0 }),
    decreases queue.len(),
{
    reveal(Seq::filter);
    let init = queue.drop_last();
    let f = queue.filter(other_than(id));
    if j == queue.len() - 1 {
        assert forall|i: int| 0 <= i < init.len() implies (#[trigger] init[i]).order_id != id by {
            assert(init[i] == queue[i]);
        }
        lemma_filter_keeps_all(init, id);
    } else {
        assert forall|i: int| 0 <= i < init.len() && i != j implies (#[trigger] init[i]).order_id != id by {
            assert(init[i] == queue[i]);
        }
        assert(init[j] == queue[j]);
        lemma_filter_reserved_exact(init, id, j, t, side);
        assert(queue[queue.len() - 1].order_id != id);
        assert(f.drop_last() =~= init.filter(other_than(id)));
    }
}

/// A cancel that can be carried out keeps the exact ledger invariant when
/// the ids at the level are distinct: the one order with the id leaves the
/// level, and exactly its commitment leaves its trader's locked balance.
/// (`lemma_covered_cancel_ok` gives when a cancel can be carried out.)
pub proof fn lemma_cancel_keeps_exact(accounts: Map<u64, Account>, book: OrderBook, side: Side, price: u64, id: u64,
    after: OrderBook)
    requires
        reserved_exactly(accounts, book.bid_levels(), book.ask_levels()),
        ids_distinct(side_levels(book, side)),
        cancel_ok(accounts, book, side, price, id),
        price != 0,
        side_levels(after, side) == cancel_at(side_levels(book, side), price, id),
        side == Side::Buy ==> after.ask_levels() == book.ask_levels(),
        side == Side::Sell ==> after.bid_levels() == book.bid_levels(),
    ensures
        reserved_exactly(
            match cancelled_order(side_levels(book, side), price, id) {
                Some(c) => after_release(accounts, side, c),
                None => accounts,
            },
            after.bid_levels(),
            after.ask_levels(),
        ),
{
    lemma_cancel_keeps_covered(accounts, book, side, price, id, after);
    let b = side_levels(book, side);
    let b2 = side_levels(after, side);
    assert(b.dom() =~= match side { Side::Buy => book.bids@.dom(), Side::Sell => book.asks@.dom() });
    let a2 = match cancelled_order(b, price, id) {
        Some(c) => after_release(accounts, side, c),
        None => accounts,
    };
    assert(a2.dom() =~= accounts.dom());
    assert forall|t: u64| true implies side_reserved(b2, t, side) == side_reserved(b, t, side) - (
        match cancelled_order(b, price, id) {
            Some(c) => if c.trader_id == t { commitment(side, c) } else { 0 },
            None => 0,
        }) by {
        if b.contains_key(price) {
            let q = b[price];
            let kept = q.filter(other_than(id));
            lemma_side_reserved_remove(b, price, t, side);
            if cancelled_order(b, price, id) is Some {
                let c = cancelled_order(b, price, id)->0;
                lemma_first_with_id_member(q, id);
                let j = choose|j: int| 0 <= j < q.len() && q[j] == c && q[j].order_id == id;
                assert forall|i: int| 0 <= i < q.len() && i != j implies (#[trigger] q[i]).order_id != id by {
                    assert(b[price][i] == q[i] && b[price][j] == q[j]);
                }
                lemma_filter_reserved_exact(q, id, j, t, side);
            } else {
                assert forall|i: int| 0 <= i < q.len() implies (#[trigger] q[i]).order_id != id by {
                    lemma_first_with_id_none(q, id, i);
                }
                lemma_filter_keeps_all(q, id);
            }
            if kept.len() == 0 {
                assert(level_reserved(kept, t, side) == 0);
                assert(b2 == b.remove(price));
            } else {
                assert(b2.remove(price) =~= b.remove(price));
                lemma_side_reserved_remove(b2, price, t, side);
            }
        } else {
            assert(cancelled_order(b, price, id) is None);
        }
    }
    assert forall|t: u64| #[trigger] a2.contains_key(t) implies {
        &&& a2[t].quote_qty_locked == side_reserved(after.bid_levels(), t, Side::Buy)
        &&& a2[t].base_qty_locked == side_reserved(after.ask_levels(), t, Side::Sell)
    } by {
        assert(accounts.contains_key(t));
    }
}

/// Deposits, locks and withdrawals keep the ledger invariant: none of them
/// lowers a locked balance, and an account they open has no resting orders.
pub proof fn lemma_requests_keep_invariant(accounts: Map<u64, Account>, book: OrderBook, t: u64, amount: u64, asset: Asset)
    requires
        covered(accounts, book.bid_levels(), book.ask_levels()),
    ensures
        can_deposit(accounts, t, amount, asset) ==> covered(after_deposit(accounts, t, amount, asset), book.bid_levels(), book.ask_levels()),
        can_lock(accounts, t, amount, asset) ==> covered(after_lock(accounts, t, amount, asset), book.bid_levels(), book.ask_levels()),
        covered(after_withdraw(accounts, t, amount, asset), book.bid_levels(), book.ask_levels()),
{
    let bids = book.bid_levels();
    let asks = book.ask_levels();
    assert(asks.dom() =~= book.asks@.dom());
    assert(bids.dom() =~= book.bids@.dom());
    if !accounts.contains_key(t) {
        lemma_unknown_trader_reserves_nothing(accounts, bids, t, Side::Buy);
        lemma_unknown_trader_reserves_nothing(accounts, asks, t, Side::Sell);
    }
    let d = after_deposit(accounts, t, amount, asset);
    let l = after_lock(accounts, t, amount, asset);
    let w = after_withdraw(accounts, t, amount, asset);
    assert forall|u: u64| #[trigger] d.contains_key(u) implies d[u].quote_qty_locked >= side_reserved(bids, u, Side::Buy)
        && d[u].base_qty_locked >= side_reserved(asks, u, Side::Sell) by {
        if u != t { assert(accounts.contains_key(u)); }
    }
    if can_lock(accounts, t, amount, asset) {
        assert forall|u: u64| #[trigger] l.contains_key(u) implies l[u].quote_qty_locked >= side_reserved(bids, u, Side::Buy)
            && l[u].base_qty_locked >= side_reserved(asks, u, Side::Sell) by {
            if u != t { assert(accounts.contains_key(u)); }
        }
    }
    assert forall|u: u64| #[trigger] w.contains_key(u) implies w[u].quote_qty_locked >= side_reserved(bids, u, Side::Buy)
        && w[u].base_qty_locked >= side_reserved(asks, u, Side::Sell) by {
        if u != t { assert(accounts.contains_key(u)); }
    }
}


proof fn lemma_total_nonneg(accounts: Map<u64, Account>, asset: Asset)
    requires
        accounts.dom().finite(),
    ensures
        total(accounts, asset) >= 0,
    decreases accounts.dom().len(),
{
    if accounts.dom().len() > 0 {
        let k = accounts.dom().choose();
        lemma_total_nonneg(accounts.remove(k), asset);
    }
}

/// One account, or two different ones, hold no more than all accounts.
proof fn lemma_total_bounds(accounts: Map<u64, Account>, a: u64, b: u64, asset: Asset)
    requires
        accounts.dom().finite(),
        accounts.contains_key(a),
        accounts.contains_key(b),
    ensures
        holding(accounts[a], asset) <= total(accounts, asset),
        a != b ==> holding(accounts[a], asset) + holding(accounts[b], asset) <= total(accounts, asset),
{
    lemma_total_remove(accounts, a, asset);
    lemma_total_nonneg(accounts.remove(a), asset);
    if a != b {
        let r = accounts.remove(a);
        lemma_total_remove(r, b, asset);
        lemma_total_nonneg(r.remove(b), asset);
    }
}

proof fn lemma_budgets_nonneg(trades: Seq<Trade>, t: u64)
    ensures
        bought_cost(trades, t) >= 0,
        sold_qty(trades, t) >= 0,
    decreases trades.len(),
{
    if trades.len() > 0 {
        lemma_budgets_nonneg(trades.drop_first(), t);
        let tr = trades[0];
        assert(tr.price * tr.quantity >= 0) by (nonlinear_arith);
    }
}

/// Each known trader's locked balances cover what it pays as buyer and
/// delivers as seller over `trades`.
pub open spec fn budgets_cover(accounts: Map<u64, Account>, trades: Seq<Trade>) -> bool {
    forall|t: u64| #[trigger] accounts.contains_key(t) ==> {
        &&& accounts[t].quote_qty_locked >= bought_cost(trades, t)
        &&& accounts[t].base_qty_locked >= sold_qty(trades, t)
    }
}

/// Settlement cannot fail when every party is known, every locked balance
/// covers what its trader owes, no trade is worth more than a `u64`, and all
/// accounts together hold no more of either asset than a `u64`.
pub proof fn lemma_settle_ok_from_budgets(accounts: Map<u64, Account>, trades: Seq<Trade>)
    requires
        accounts.dom().finite(),
        parties_known(accounts, trades),
        budgets_cover(accounts, trades),
        forall|i: int| 0 <= i < trades.len() ==> (#[trigger] trades[i]).price * trades[i].quantity <= u64::MAX,
        total(accounts, Asset::Base) <= u64::MAX,
        total(accounts, Asset::Quote) <= u64::MAX,
    ensures
        settle_all_ok(accounts, trades),
    decreases trades.len(),
{
    if trades.len() > 0 {
        let tr = trades[0];
        let b = tr.buyer_id;
        let sl = tr.seller_id;
        let cost = tr.price * tr.quantity;
        let rest = trades.drop_first();
        assert(accounts.contains_key(b) && accounts.contains_key(sl));
        lemma_budgets_nonneg(rest, b);
        lemma_budgets_nonneg(rest, sl);
        assert(cost >= 0) by (nonlinear_arith)
            requires cost == tr.price * tr.quantity;
        // the buyer can pay, the seller can deliver
        assert(accounts[b].quote_qty_locked >= cost);
        assert(accounts[sl].base_qty_locked >= tr.quantity) by {
            lemma_budgets_nonneg(rest, sl);
            if sl == b {
                assert(sold_qty(trades, sl) == tr.quantity + sold_qty(rest, sl));
            }
        }
        lemma_total_bounds(accounts, b, sl, Asset::Base);
        lemma_total_bounds(accounts, b, sl, Asset::Quote);
        let a1 = crate::engine::settle_buyer(accounts, tr);
        assert(settle_one_ok(accounts, tr));
        lemma_settle_one_conserves_total(accounts, tr, Asset::Base);
        lemma_settle_one_conserves_total(accounts, tr, Asset::Quote);
        let next = settle_one(accounts, tr);
        assert(parties_known(next, rest)) by {
            assert forall|i: int| 0 <= i < rest.len() implies next.contains_key((#[trigger] rest[i]).buyer_id)
                && next.contains_key(rest[i].seller_id) by {
                assert(rest[i] == trades[i + 1]);
            }
        }
        assert(budgets_cover(next, rest)) by {
            assert forall|t: u64| #[trigger] next.contains_key(t) implies next[t].quote_qty_locked >= bought_cost(rest, t)
                && next[t].base_qty_locked >= sold_qty(rest, t) by {
                assert(accounts.contains_key(t));
            }
        }
        assert forall|i: int| 0 <= i < rest.len() implies (#[trigger] rest[i]).price * rest[i].quantity <= u64::MAX by {
            assert(rest[i] == trades[i + 1]);
        }
        lemma_settle_ok_from_budgets(next, rest);
    }
}


proof fn lemma_refund_total_nonneg(limit: u64, trades: Seq<Trade>)
    ensures
        refund_total(limit, trades) >= 0,
    decreases trades.len(),
{
    if trades.len() > 0 {
        lemma_refund_total_nonneg(limit, trades.drop_first());
    }
}

/// Refunds cannot fail when every trade is at or below the limit, no refund
/// exceeds a `u64`, the buyer's locked quote covers them all and the buyer
/// holds no more quote than a `u64`.
proof fn lemma_refund_ok_from_budget(accounts: Map<u64, Account>, trader: u64, limit: u64, trades: Seq<Trade>)
    requires
        accounts.contains_key(trader),
        forall|i: int| 0 <= i < trades.len() ==> (#[trigger] trades[i]).price <= limit,
        forall|i: int| 0 <= i < trades.len() ==> limit * (#[trigger] trades[i]).quantity <= u64::MAX,
        accounts[trader].quote_qty_locked >= refund_total(limit, trades),
        holding(accounts[trader], Asset::Quote) <= u64::MAX,
    ensures
        refund_all_ok(accounts, trader, limit, trades),
    decreases trades.len(),
{
    if trades.len() > 0 {
        let tr = trades[0];
        let rest = trades.drop_first();
        lemma_refund_total_nonneg(limit, rest);
        let pl = limit as int;
        let pf = tr.price as int;
        let q = tr.quantity as int;
        assert(tr.price <= limit);
        assert(limit * tr.quantity <= u64::MAX);
        assert((pl - pf) * q <= pl * q && (pl - pf) * q >= 0) by (nonlinear_arith)
            requires pf <= pl, pf >= 0, q >= 0;
        assert(refund_of(limit, tr) == (pl - pf) * q);
        let next = refund_one(accounts, trader, limit, tr);
        assert forall|i: int| 0 <= i < rest.len() implies (#[trigger] rest[i]).price <= limit by {
            assert(rest[i] == trades[i + 1]);
        }
        assert forall|i: int| 0 <= i < rest.len() implies limit * (#[trigger] rest[i]).quantity <= u64::MAX by {
            assert(rest[i] == trades[i + 1]);
        }
        lemma_refund_ok_from_budget(next, trader, limit, rest);
    }
}

proof fn lemma_fill_bounds(fills: Seq<Fill>, m: u64, i: int)
    requires
        0 <= i < fills.len(),
    ensures
        fills[i].quantity <= filled(fills),
        fill_value(fills) >= 0,
        fills[i].maker.trader_id == m ==> fill_commitment(Side::Buy, fills[i]) <= fills_reserved(fills, m, Side::Buy),
        fills_reserved(fills, m, Side::Buy) >= 0,
        fills_reserved(fills, m, Side::Sell) >= 0,
    decreases fills.len(),
{
    let f = fills[0];
    assert(f.price * f.quantity >= 0) by (nonlinear_arith);
    lemma_commitment_nonneg(Side::Buy, with_quantity(f.maker, f.quantity));
    lemma_commitment_nonneg(Side::Sell, with_quantity(f.maker, f.quantity));
    if i > 0 {
        lemma_fill_bounds(fills.drop_first(), m, i - 1);
        assert(fills.drop_first()[i - 1] == fills[i]);
    } else if fills.len() > 1 {
        lemma_fill_bounds(fills.drop_first(), m, 0);
    } else {
        assert(fills.drop_first().len() == 0);
        assert(filled(fills.drop_first()) == 0);
        assert(fill_value(fills.drop_first()) == 0);
        assert(fills_reserved(fills.drop_first(), m, Side::Buy) == 0);
        assert(fills_reserved(fills.drop_first(), m, Side::Sell) == 0);
    }
}

/// The ledger invariant and a well-formed book, with every account's
/// holdings summing to no more than a `u64` per asset, make an order safe to
/// place, given the bounds that `place_ok` asks of the order itself: a buy's lock
/// amount fits, a market buy meets no ask above its price, and the trade
/// counter has room for its executions.
pub proof fn lemma_invariant_gives_place_ok(accounts: Map<u64, Account>, book: OrderBook, o: Order)
    requires
        accounts.dom().finite(),
        covered(accounts, book.bid_levels(), book.ask_levels()),
        book_ok(book.bid_levels(), book.ask_levels()),
        total(accounts, Asset::Base) <= u64::MAX,
        total(accounts, Asset::Quote) <= u64::MAX,
        o.side == Side::Buy ==> o.price * o.quantity <= u64::MAX,
        o.side == Side::Buy ==> forall|i: int| 0 <= i < book.fills_for(o).len() ==> (#[trigger] book.fills_for(o)[i]).price <= o.price,
        book.trade_counter + book.fills_for(o).len() <= u64::MAX,
    ensures
        place_ok(accounts, book, o),
{
    if !order_is_valid(o) {
        return;
    }
    let bids = book.bid_levels();
    let asks = book.ask_levels();
    assert(asks.dom() =~= book.asks@.dom());
    assert(bids.dom() =~= book.bids@.dom());
    let tk = o.trader_id;
    let amount = order_lock(o);
    if o.side == Side::Sell {
        assert(amount == o.quantity);
    }
    if !order_funded(accounts, o) {
        return;
    }
    assert(accounts.contains_key(tk));
    lemma_total_bounds(accounts, tk, tk, Asset::Base);
    lemma_total_bounds(accounts, tk, tk, Asset::Quote);
    let (opp, opp_side, ps) = match o.side {
        Side::Buy => (asks, Side::Sell, ascending(asks.dom())),
        Side::Sell => (bids, Side::Buy, descending(bids.dom())),
    };
    let sw = sweep(opp, ps, o);
    let fills = sw.0;
    let left = sw.2;
    assert(book.fills_for(o) == fills);
    lemma_sweep_conserves(opp, ps, o);
    lemma_sweep_keeps_known(accounts, opp, ps, o);
    let trades = trades_for(book, o);
    assert(trades =~= fill_trades(fills, o, book.trade_counter + 1));
    let l1 = locked_for(accounts, o);
    assert(l1.dom() =~= accounts.dom());
    lemma_total_insert(accounts, tk, l1[tk], Asset::Base);
    lemma_total_insert(accounts, tk, l1[tk], Asset::Quote);
    assert(opp.dom().finite());
    assert(side_ok(opp, opp_side));
    let pl = o.price as int;
    if o.side == Side::Buy {
        // refunds
        lemma_sweep_reserved(opp, ps, o, opp_side, tk);
        lemma_fill_trades_sums(fills, o, book.trade_counter + 1, tk);
        assert forall|i: int| 0 <= i < trades.len() implies (#[trigger] trades[i]).price <= o.price by {
            assert(trades[i].price == fills[i].price);
        }
        assert forall|i: int| 0 <= i < trades.len() implies o.price * (#[trigger] trades[i]).quantity <= u64::MAX by {
            lemma_fill_bounds(fills, tk, i);
            let q = trades[i].quantity as int;
            assert(pl * q <= pl * o.quantity) by (nonlinear_arith)
                requires q <= o.quantity, pl >= 0;
        }
        assert(fill_value(fills) >= 0) by {
            if fills.len() > 0 {
                lemma_fill_bounds(fills, tk, 0);
            }
        }
        assert(pl * filled(fills) <= pl * o.quantity) by (nonlinear_arith)
            requires filled(fills) <= o.quantity, pl >= 0;
        assert(refund_total(o.price, trades) == pl * filled(fills) - fill_value(fills));
        assert(l1[tk].quote_qty_locked == accounts[tk].quote_qty_locked + pl * o.quantity);
        lemma_refund_ok_from_budget(l1, tk, o.price, trades);
        lemma_refunds_conserve_total(l1, tk, o.price, trades, Asset::Base);
        lemma_refunds_conserve_total(l1, tk, o.price, trades, Asset::Quote);
    }
    let r = refunded_for(accounts, book, o);
    assert(r.dom() == accounts.dom());
    assert forall|t: u64| #[trigger] accounts.contains_key(t) implies r[t].base_qty_locked == l1[t].base_qty_locked
        && r[t].quote_qty_locked == l1[t].quote_qty_locked - (if o.side == Side::Buy && t == tk {
            refund_total(o.price, trades) } else { 0 }) by {
        if o.side == Side::Buy {
            lemma_refund_locked(l1, tk, o.price, trades, t);
        }
    }
    assert(parties_known(r, trades)) by {
        assert forall|i: int| 0 <= i < trades.len() implies r.contains_key((#[trigger] trades[i]).buyer_id)
            && r.contains_key(trades[i].seller_id) by {
            assert(accounts.contains_key(fills[i].maker.trader_id));
        }
    }
    assert(budgets_cover(r, trades)) by {
        assert forall|t: u64| #[trigger] r.contains_key(t) implies r[t].quote_qty_locked >= bought_cost(trades, t)
            && r[t].base_qty_locked >= sold_qty(trades, t) by {
            assert(accounts.contains_key(t));
            lemma_sweep_reserved(opp, ps, o, opp_side, t);
            lemma_fill_trades_sums(fills, o, book.trade_counter + 1, t);
            lemma_side_reserved_nonneg(sw.1, t, opp_side);
            if fills.len() > 0 {
                lemma_fill_bounds(fills, t, 0);
            } else {
                assert(fill_value(fills) == 0);
                assert(filled(fills) == 0);
            }
            if o.side == Side::Buy {
                assert(pl * filled(fills) <= pl * o.quantity) by (nonlinear_arith)
                    requires filled(fills) <= o.quantity, pl >= 0;
            }
        }
    }
    assert forall|i: int| 0 <= i < trades.len() implies (#[trigger] trades[i]).price * trades[i].quantity <= u64::MAX by {
        let f = fills[i];
        lemma_fill_bounds(fills, f.maker.trader_id, i);
        if o.side == Side::Buy {
            let q = f.quantity as int;
            let pf = f.price as int;
            assert(pf * q <= pl * o.quantity) by (nonlinear_arith)
                requires q <= o.quantity, pf <= pl, pf >= 0, q >= 0;
        } else {
            let m = f.maker.trader_id;
            assert(accounts.contains_key(m));
            lemma_sweep_reserved(opp, ps, o, opp_side, m);
            lemma_side_reserved_nonneg(sw.1, m, opp_side);
            lemma_total_bounds(accounts, m, m, Asset::Quote);
            assert(f.maker.price == f.price);
        }
    }
    lemma_settle_ok_from_budgets(r, trades);
}


/// Placing an order never changes how much of an asset all accounts hold
/// together, whether it is refused for want of funds (opening an empty
/// account at most) or accepted, when every trader resting on the book has an
/// account.
pub proof fn lemma_place_conserves_totals(accounts: Map<u64, Account>, book: OrderBook, o: Order, asset: Asset)
    requires
        accounts.dom().finite(),
        resting_traders_known(accounts, book.bid_levels()),
        resting_traders_known(accounts, book.ask_levels()),
        place_ok(accounts, book, o),
    ensures
        order_is_valid(o) && !order_funded(accounts, o) ==> total(locked_for(accounts, o), asset) == total(accounts, asset),
        order_is_valid(o) && order_funded(accounts, o) ==> total(accounts_after_order(accounts, book, o), asset)
            == total(accounts, asset),
{
    if order_is_valid(o) {
        let tk = o.trader_id;
        if order_funded(accounts, o) {
            let bids = book.bid_levels();
            let asks = book.ask_levels();
            let (opp, ps) = match o.side {
                Side::Buy => (asks, ascending(asks.dom())),
                Side::Sell => (bids, descending(bids.dom())),
            };
            lemma_sweep_keeps_known(accounts, opp, ps, o);
            assert(book.fills_for(o) == sweep(opp, ps, o).0);
            lemma_order_conserves_total(accounts, book, o, asset);
        } else {
            let l = locked_for(accounts, o);
            assert(o.price * o.quantity > 0) by (nonlinear_arith)
                requires o.price != 0, o.quantity != 0;
            assert(order_lock(o) as u64 != 0);
            if accounts.contains_key(tk) {
                assert(l =~= accounts);
            } else {
                assert(l.dom() =~= accounts.dom().insert(tk));
                lemma_total_remove(l, tk, asset);
                assert(l.remove(tk) =~= accounts);
            }
        }
    }
}

} // verus!
