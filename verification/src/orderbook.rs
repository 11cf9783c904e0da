//! The two-sided limit order book and its price-time priority matching.

use vstd::prelude::*;
use std::collections::BTreeMap;
use std::collections::VecDeque;
use crate::clock::{elapsed_since_epoch, trade_timestamp};
use crate::prices::{ascending, descending, prices_ascending, prices_descending};
use crate::types::{Order, OrderType, Side, Trade};

verus! {

broadcast use vstd::std_specs::btree::group_btree_axioms;

/// One execution against a resting order: the resting order as it stood
/// before the execution, the level's price and the quantity executed.
pub struct Fill {
    pub maker: Order,
    pub price: u64,
    pub quantity: u64,
}

/// A book side as a map from price to the queue of orders resting there,
/// earliest first.
pub open spec fn levels(m: BTreeMap<u64, VecDeque<Order>>) -> Map<u64, Seq<Order>> {
    Map::new(|p: u64| m@.contains_key(p), |p: u64| m@[p]@)
}

/// `o` with its quantity replaced by `q`.
pub open spec fn with_quantity(o: Order, q: u64) -> Order {
    Order { quantity: q, ..o }
}

/// Whether an incoming order may trade at a level priced `level`: a market
/// order trades at any price, a limit buy at or below its price, a limit sell
/// at or above it.
pub open spec fn crosses(taker: Order, level: u64) -> bool {
    match taker.order_type {
        OrderType::Market => true,
        OrderType::Limit => match taker.side {
            Side::Buy => level <= taker.price,
            Side::Sell => taker.price <= level,
        },
    }
}

/// Executing up to `wanted` against one price level, front of the queue first.
/// Returns the executions, what is left of the queue, and the quantity still
/// wanted. An exhausted resting order leaves the queue; a partly filled one
/// keeps its place at the front.
pub open spec fn fill_level(queue: Seq<Order>, price: u64, wanted: u64) -> (Seq<Fill>, Seq<Order>, u64)
    decreases queue.len(),
{
    if queue.len() == 0 {
        (Seq::empty(), queue, wanted)
    } else {
        let head = queue[0];
        if wanted <= head.quantity {
            let left_on_book = (head.quantity - wanted) as u64;
            let rest = if left_on_book > 0 {
                queue.update(0, with_quantity(head, left_on_book))
            } else {
                queue.drop_first()
            };
            (seq![Fill { maker: head, price, quantity: wanted }], rest, 0)
        } else {
            let r = fill_level(queue.drop_first(), price, (wanted - head.quantity) as u64);
            (seq![Fill { maker: head, price, quantity: head.quantity }] + r.0, r.1, r.2)
        }
    }
}

/// Executing up to `wanted` against the level at `price`, if there is one; a
/// level whose queue empties leaves the book.
pub open spec fn take_level(book: Map<u64, Seq<Order>>, price: u64, wanted: u64) -> (Seq<Fill>, Map<u64, Seq<Order>>, u64) {
    if book.contains_key(price) {
        let r = fill_level(book[price], price, wanted);
        (r.0, if r.1.len() == 0 { book.remove(price) } else { book.insert(price, r.1) }, r.2)
    } else {
        (Seq::empty(), book, wanted)
    }
}

/// Walking the levels in `prices` order while they cross the incoming order
/// and it still wants quantity. Returns the executions, the book side after
/// them and the quantity the incoming order still wants.
pub open spec fn sweep(book: Map<u64, Seq<Order>>, prices: Seq<u64>, taker: Order) -> (Seq<Fill>, Map<u64, Seq<Order>>, u64)
    decreases prices.len(),
{
    if prices.len() == 0 || !crosses(taker, prices[0]) {
        (Seq::empty(), book, taker.quantity)
    } else {
        let step = take_level(book, prices[0], taker.quantity);
        if step.2 == 0 {
            step
        } else {
            let r = sweep(step.1, prices.drop_first(), with_quantity(taker, step.2));
            (step.0 + r.0, r.1, r.2)
        }
    }
}

/// `o` joins the back of the queue at its price.
pub open spec fn enqueue(book: Map<u64, Seq<Order>>, o: Order) -> Map<u64, Seq<Order>> {
    book.insert(o.price, if book.contains_key(o.price) { book[o.price].push(o) } else { seq![o] })
}

/// Matching an incoming order against the book: a buy walks the asks from
/// the lowest price up, a sell walks the bids from the highest price down; the
/// unfilled rest of a limit order then rests on its own side. Returns the
/// executions, the bids and the asks.
pub open spec fn match_order(bids: Map<u64, Seq<Order>>, asks: Map<u64, Seq<Order>>, taker: Order) -> (Seq<Fill>, Map<u64, Seq<Order>>, Map<u64, Seq<Order>>) {
    match taker.side {
        Side::Buy => {
            let r = sweep(asks, ascending(asks.dom()), taker);
            let rests = taker.order_type == OrderType::Limit && r.2 > 0;
            (r.0, if rests { enqueue(bids, with_quantity(taker, r.2)) } else { bids }, r.1)
        },
        Side::Sell => {
            let r = sweep(bids, descending(bids.dom()), taker);
            let rests = taker.order_type == OrderType::Limit && r.2 > 0;
            (r.0, r.1, if rests { enqueue(asks, with_quantity(taker, r.2)) } else { asks })
        },
    }
}

/// `t` reports the execution `f` of the incoming order `taker` under the id
/// `id`: same price and quantity, the taker on its own side and the resting
/// order's trader on the other.
pub open spec fn records_fill(t: Trade, f: Fill, taker: Order, id: int) -> bool {
    &&& t.trade_id == id
    &&& t.price == f.price
    &&& t.quantity == f.quantity
    &&& match taker.side {
        Side::Buy => t.buyer_id == taker.trader_id && t.seller_id == f.maker.trader_id,
        Side::Sell => t.buyer_id == f.maker.trader_id && t.seller_id == taker.trader_id,
    }
}

/// `trades` report `fills` in order, with consecutive ids from `first_id`.
pub open spec fn records_fills(trades: Seq<Trade>, fills: Seq<Fill>, taker: Order, first_id: int) -> bool {
    &&& trades.len() == fills.len()
    &&& forall|i: int| 0 <= i < fills.len() ==> records_fill(#[trigger] trades[i], fills[i], taker, first_id + i)
}

pub struct OrderBook {
    pub bids: BTreeMap<u64, VecDeque<Order>>,
    pub asks: BTreeMap<u64, VecDeque<Order>>,
    pub trade_counter: u64,
}

impl OrderBook {
    pub open spec fn bid_levels(&self) -> Map<u64, Seq<Order>> {
        levels(self.bids)
    }

    pub open spec fn ask_levels(&self) -> Map<u64, Seq<Order>> {
        levels(self.asks)
    }

    /// The executions that matching `taker` against this book produces.
    pub open spec fn fills_for(&self, taker: Order) -> Seq<Fill> {
        match_order(self.bid_levels(), self.ask_levels(), taker).0
    }

    pub fn new() -> (book: Self)
        ensures
            book.bid_levels() == Map::<u64, Seq<Order>>::empty(),
            book.ask_levels() == Map::<u64, Seq<Order>>::empty(),
            book.trade_counter == 0,
    {
        let book = OrderBook { bids: BTreeMap::new(), asks: BTreeMap::new(), trade_counter: 0 };
        assert(book.bid_levels() =~= Map::<u64, Seq<Order>>::empty());
        assert(book.ask_levels() =~= Map::<u64, Seq<Order>>::empty());
        book
    }
}

fn crosses_exec(taker: &Order, level: u64) -> (b: bool)
    ensures
        b == crosses(*taker, level),
{
    match taker.order_type {
        OrderType::Market => true,
        OrderType::Limit => match taker.side {
            Side::Buy => level <= taker.price,
            Side::Sell => taker.price <= level,
        },
    }
}

/// The trade reporting an execution of `quantity` at `price` between the
/// incoming order `taker` and the resting order `maker`, under id `trade_id`,
/// stamped `timestamp`.
pub fn trade_for_fill(taker: &Order, maker: &Order, price: u64, quantity: u64, trade_id: u64, timestamp: u64) -> (t: Trade)
    ensures
        records_fill(t, Fill { maker: *maker, price, quantity }, *taker, trade_id as int),
        t.timestamp == timestamp,
{
    match taker.side {
        Side::Buy => Trade { trade_id, buyer_id: taker.trader_id, seller_id: maker.trader_id, quantity, price, timestamp },
        Side::Sell => Trade { trade_id, buyer_id: maker.trader_id, seller_id: taker.trader_id, quantity, price, timestamp },
    }
}

/// Executes against one queue, appending a trade per execution.
fn fill_queue(
    queue: &mut VecDeque<Order>,
    price: u64,
    taker: &Order,
    wanted: u64,
    counter: &mut u64,
    trades: &mut Vec<Trade>,
) -> (left: u64)
    requires
        *old(counter) + fill_level(old(queue)@, price, wanted).0.len() <= u64::MAX,
    ensures
        final(queue)@ == fill_level(old(queue)@, price, wanted).1,
        left == fill_level(old(queue)@, price, wanted).2,
        *final(counter) == *old(counter) + fill_level(old(queue)@, price, wanted).0.len(),
        final(trades)@.len() == old(trades)@.len() + fill_level(old(queue)@, price, wanted).0.len(),
        final(trades)@.subrange(0, old(trades)@.len() as int) == old(trades)@,
        records_fills(
            final(trades)@.skip(old(trades)@.len() as int),
            fill_level(old(queue)@, price, wanted).0,
            *taker,
            *old(counter) + 1,
        ),
{
    let ghost q0 = queue@;
    let ghost c0 = *counter;
    let ghost t0 = trades@;
    let ghost total = fill_level(q0, price, wanted);
    let ghost mut done: Seq<Fill> = Seq::empty();
    let mut left = wanted;
    loop
        invariant_except_break
            total.0 == done + fill_level(queue@, price, left).0,
            total.1 == fill_level(queue@, price, left).1,
            total.2 == fill_level(queue@, price, left).2,
        invariant
            c0 + total.0.len() <= u64::MAX,
            *counter == c0 + done.len(),
            trades@.len() == t0.len() + done.len(),
            trades@.subrange(0, t0.len() as int) == t0,
            forall|i: int| 0 <= i < done.len() ==> records_fill(#[trigger] trades@[t0.len() + i], done[i], *taker, c0 + 1 + i),
        ensures
            total == (done, queue@, left),
        decreases queue@.len(),
    {
        let ghost qb = queue@;
        let ghost lb = left;
        match queue.pop_front() {
            None => {
                assert(total.0 =~= done);
                break;
            },
            Some(resting) => {
                assert(qb[0] == resting);
                let qty = if left < resting.quantity { left } else { resting.quantity };
                left = left - qty;
                let remaining = resting.quantity - qty;
                assert(fill_level(qb, price, lb).0.len() >= 1);
                *counter = *counter + 1;
                let stamp = trade_timestamp(elapsed_since_epoch());
                let trade = trade_for_fill(taker, &resting, price, qty, *counter, stamp);
                trades.push(trade);
                let ghost f = Fill { maker: resting, price, quantity: qty };
                proof {
                    done = done.push(f);
                }
                if remaining > 0 {
                    queue.push_front(Order { quantity: remaining, ..resting });
                }
                assert(trades@.subrange(0, t0.len() as int) =~= t0);
                if left == 0 {
                    assert(total.0 =~= done);
                    if remaining > 0 {
                        assert(queue@ =~= qb.update(0, with_quantity(resting, remaining)));
                    } else {
                        assert(queue@ =~= qb.drop_first());
                    }
                    break;
                }
                assert(queue@ =~= qb.drop_first());
                assert(total.0 =~= done + fill_level(queue@, price, left).0);
            },
        }
    }
    assert(trades@.skip(t0.len() as int) =~= trades@.subrange(t0.len() as int, trades@.len() as int));
    assert forall|i: int| 0 <= i < done.len() implies records_fill(
        #[trigger] trades@.skip(t0.len() as int)[i], done[i], *taker, c0 + 1 + i) by {
        assert(trades@.skip(t0.len() as int)[i] == trades@[t0.len() + i]);
    }

    left
}


/// Walks `prices` in order, executing against each crossing level.
fn sweep_levels(
    book: &mut BTreeMap<u64, VecDeque<Order>>,
    prices: &Vec<u64>,
    taker: Order,
    counter: &mut u64,
    trades: &mut Vec<Trade>,
) -> (left: u64)
    requires
        *old(counter) + sweep(levels(*old(book)), prices@, taker).0.len() <= u64::MAX,
    ensures
        levels(*final(book)) == sweep(levels(*old(book)), prices@, taker).1,
        left == sweep(levels(*old(book)), prices@, taker).2,
        *final(counter) == *old(counter) + sweep(levels(*old(book)), prices@, taker).0.len(),
        final(trades)@.len() == old(trades)@.len() + sweep(levels(*old(book)), prices@, taker).0.len(),
        final(trades)@.subrange(0, old(trades)@.len() as int) == old(trades)@,
        records_fills(
            final(trades)@.skip(old(trades)@.len() as int),
            sweep(levels(*old(book)), prices@, taker).0,
            taker,
            *old(counter) + 1,
        ),
{
    let ghost c0 = *counter;
    let ghost t0 = trades@;
    let ghost total = sweep(levels(*book), prices@, taker);
    let ghost mut done: Seq<Fill> = Seq::empty();
    let mut cur = taker;
    let mut i: usize = 0;
    assert(prices@.skip(0) =~= prices@);
    loop
        invariant_except_break
            i <= prices@.len(),
            total.0 == done + sweep(levels(*book), prices@.skip(i as int), cur).0,
            total.1 == sweep(levels(*book), prices@.skip(i as int), cur).1,
            total.2 == sweep(levels(*book), prices@.skip(i as int), cur).2,
        invariant
            cur == with_quantity(taker, cur.quantity),
            c0 + total.0.len() <= u64::MAX,
            *counter == c0 + done.len(),
            trades@.len() == t0.len() + done.len(),
            trades@.subrange(0, t0.len() as int) == t0,
            forall|k: int| 0 <= k < done.len() ==> records_fill(#[trigger] trades@[t0.len() + k], done[k], taker, c0 + 1 + k),
        ensures
            total == (done, levels(*book), cur.quantity),
        decreases prices@.len() - i,
    {
        if i >= prices.len() {
            assert(prices@.skip(i as int).len() == 0);
            assert(total.0 =~= done);
            break;
        }
        let p = prices[i];
        let ghost rest_prices = prices@.skip(i as int);
        assert(rest_prices[0] == p);
        assert(rest_prices.drop_first() =~= prices@.skip(i + 1));
        if !crosses_exec(&cur, p) {
            assert(total.0 =~= done);
            break;
        }
        let ghost bb = levels(*book);
        let ghost step = take_level(bb, p, cur.quantity);
        let ghost tb = trades@;
        let ghost db = done;
        let left;
        match book.remove(&p) {
            None => {
                left = cur.quantity;
                assert(levels(*book) =~= bb);
            },
            Some(mut queue) => {
                assert(bb.contains_key(p) && bb[p] == queue@);
                let ghost qb = queue@;
                assert(step.0 == fill_level(qb, p, cur.quantity).0);
                left = fill_queue(&mut queue, p, &taker, cur.quantity, counter, trades);
                assert(trades@.skip(tb.len() as int).len() == step.0.len());
                assert(trades@.len() == tb.len() + step.0.len());
                if queue.len() > 0 {
                    book.insert(p, queue);
                    assert(levels(*book) =~= bb.insert(p, queue@));
                } else {
                    assert(levels(*book) =~= bb.remove(p));
                }
                proof {
                    let new_fills = step.0;
                    assert forall|k: int| 0 <= k < new_fills.len() implies records_fill(
                        #[trigger] trades@[tb.len() + k], new_fills[k], taker, c0 + 1 + db.len() + k) by {
                        assert(trades@.skip(tb.len() as int)[k] == trades@[tb.len() + k]);
                    }
                    done = done + new_fills;
                    assert forall|k: int| 0 <= k < done.len() implies records_fill(
                        #[trigger] trades@[t0.len() + k], done[k], taker, c0 + 1 + k) by {
                        if k < db.len() {
                            assert(trades@.subrange(0, tb.len() as int)[t0.len() + k] == tb[t0.len() + k]);
                            assert(done[k] == db[k]);
                            assert(records_fill(tb[t0.len() + k], db[k], taker, c0 + 1 + k));
                        } else {
                            let k2 = k - db.len();
                            assert(done[k] == new_fills[k2]);
                            assert(t0.len() + k == tb.len() + k2);
                            assert(records_fill(trades@[tb.len() + k2], new_fills[k2], taker, c0 + 1 + db.len() + k2));
                        }
                    }
                    assert(trades@.subrange(0, t0.len() as int) =~= t0) by {
                        assert forall|k: int| 0 <= k < t0.len() implies trades@[k] == t0[k] by {
                            assert(trades@.subrange(0, tb.len() as int)[k] == tb[k]);
                        }
                    }
                }
            },
        }
        i = i + 1;
        cur = Order { quantity: left, ..cur };
        if left == 0 {
            assert(total.0 =~= done);
            break;
        }
        assert(total.0 =~= done + sweep(levels(*book), prices@.skip(i as int), cur).0);
    }
    assert(trades@.skip(t0.len() as int) =~= trades@.subrange(t0.len() as int, trades@.len() as int));
    assert forall|k: int| 0 <= k < done.len() implies records_fill(
        #[trigger] trades@.skip(t0.len() as int)[k], done[k], taker, c0 + 1 + k) by {
        assert(trades@.skip(t0.len() as int)[k] == trades@[t0.len() + k]);
    }
    cur.quantity
}

/// Puts `o` at the back of the queue at its price.
fn rest_order(book: &mut BTreeMap<u64, VecDeque<Order>>, o: Order)
    ensures
        levels(*final(book)) == enqueue(levels(*old(book)), o),
{
    let ghost b0 = levels(*book);
    match book.remove(&o.price) {
        Some(mut queue) => {
            queue.push_back(o);
            book.insert(o.price, queue);
        },
        None => {
            let mut queue: VecDeque<Order> = VecDeque::new();
            queue.push_back(o);
            assert(queue@ =~= seq![o]);
            book.insert(o.price, queue);
        },
    }
    assert(levels(*book) =~= enqueue(b0, o));
}

impl OrderBook {
    /// Matches `incoming_order` against the opposite side under price-time
    /// priority and rests the unfilled part of a limit order. Returns one trade
    /// per execution, numbered on from the trade counter; each trade's
    /// timestamp is read from the wall clock.
    pub fn process_order(&mut self, incoming_order: Order) -> (trades: Vec<Trade>)
        requires
            old(self).trade_counter + old(self).fills_for(incoming_order).len() <= u64::MAX,
        ensures
            final(self).bid_levels() == match_order(old(self).bid_levels(), old(self).ask_levels(), incoming_order).1,
            final(self).ask_levels() == match_order(old(self).bid_levels(), old(self).ask_levels(), incoming_order).2,
            final(self).trade_counter == old(self).trade_counter + old(self).fills_for(incoming_order).len(),
            records_fills(trades@, old(self).fills_for(incoming_order), incoming_order, old(self).trade_counter + 1),
    {
        let mut trades: Vec<Trade> = Vec::new();
        assert(levels(self.asks).dom() =~= self.asks@.dom());
        assert(levels(self.bids).dom() =~= self.bids@.dom());
        match incoming_order.side {
            Side::Buy => {
                let prices = prices_ascending(&self.asks);
                let left = sweep_levels(&mut self.asks, &prices, incoming_order, &mut self.trade_counter, &mut trades);
                if incoming_order.order_type == OrderType::Limit && left > 0 {
                    rest_order(&mut self.bids, Order { quantity: left, ..incoming_order });
                }
            },
            Side::Sell => {
                let prices = prices_descending(&self.bids);
                let left = sweep_levels(&mut self.bids, &prices, incoming_order, &mut self.trade_counter, &mut trades);
                if incoming_order.order_type == OrderType::Limit && left > 0 {
                    rest_order(&mut self.asks, Order { quantity: left, ..incoming_order });
                }
            },
        }
        assert(trades@.skip(0) =~= trades@);
        trades
    }
}


/// Whether an order is not the one with id `id`.
pub open spec fn other_than(id: u64) -> spec_fn(Order) -> bool {
    |o: Order| o.order_id != id
}

/// The earliest order in `queue` with id `id`, if any.
pub open spec fn first_with_id(queue: Seq<Order>, id: u64) -> Option<Order>
    decreases queue.len(),
{
    if queue.len() == 0 {
        None
    } else if queue[0].order_id == id {
        Some(queue[0])
    } else {
        first_with_id(queue.drop_first(), id)
    }
}

/// The book side after every order with id `id` leaves the level at `price`;
/// a level left empty leaves the book.
pub open spec fn cancel_at(book: Map<u64, Seq<Order>>, price: u64, id: u64) -> Map<u64, Seq<Order>> {
    if book.contains_key(price) {
        let kept = book[price].filter(other_than(id));
        if kept.len() == 0 {
            book.remove(price)
        } else {
            book.insert(price, kept)
        }
    } else {
        book
    }
}

/// The order that a cancel of `id` at `price` reports: the earliest one with
/// that id at that level.
pub open spec fn cancelled_order(book: Map<u64, Seq<Order>>, price: u64, id: u64) -> Option<Order> {
    if book.contains_key(price) {
        first_with_id(book[price], id)
    } else {
        None
    }
}

fn cancel_in(tree: &mut BTreeMap<u64, VecDeque<Order>>, price: u64, id: u64) -> (r: Option<Order>)
    ensures
        levels(*final(tree)) == cancel_at(levels(*old(tree)), price, id),
        r == cancelled_order(levels(*old(tree)), price, id),
{
    let ghost b0 = levels(*tree);
    match tree.remove(&price) {
        None => {
            assert(levels(*tree) =~= b0);
            None
        },
        Some(queue) => {
            let mut found: Option<Order> = None;
            let mut kept: VecDeque<Order> = VecDeque::new();
            let n = queue.len();
            let mut i: usize = 0;
            assert(queue@.take(0) =~= Seq::<Order>::empty());
            assert(queue@.skip(0) =~= queue@);
            proof {
                reveal(Seq::filter);
            }
            while i < n
                invariant
                    n == queue@.len(),
                    i <= n,
                    kept@ == queue@.take(i as int).filter(other_than(id)),
                    first_with_id(queue@, id) == (if found is Some {
                        found
                    } else {
                        first_with_id(queue@.skip(i as int), id)
                    }),
                decreases n - i,
            {
                let o = queue[i];
                proof {
                    reveal(Seq::filter);
                    assert(queue@.take(i + 1).drop_last() =~= queue@.take(i as int));
                    assert(queue@.skip(i as int).drop_first() =~= queue@.skip(i + 1));
                }
                if o.order_id == id {
                    if found.is_none() {
                        found = Some(o);
                    }
                } else {
                    kept.push_back(o);
                }
                i = i + 1;
            }
            assert(queue@.take(n as int) =~= queue@);
            if kept.len() > 0 {
                tree.insert(price, kept);
                assert(levels(*tree) =~= cancel_at(b0, price, id));
            } else {
                assert(levels(*tree) =~= cancel_at(b0, price, id));
            }
            found
        },
    }
}

impl OrderBook {
    /// Cancels order `target_order_id` resting at `price` on `side`: every order
    /// with that id leaves that level, and the earliest of them is returned.
    pub fn cancel_order(&mut self, side: Side, price: u64, target_order_id: u64) -> (r: Option<Order>)
        ensures
            final(self).trade_counter == old(self).trade_counter,
            side == Side::Buy ==> final(self).bid_levels() == cancel_at(old(self).bid_levels(), price, target_order_id)
                && final(self).ask_levels() == old(self).ask_levels()
                && r == cancelled_order(old(self).bid_levels(), price, target_order_id),
            side == Side::Sell ==> final(self).ask_levels() == cancel_at(old(self).ask_levels(), price, target_order_id)
                && final(self).bid_levels() == old(self).bid_levels()
                && r == cancelled_order(old(self).ask_levels(), price, target_order_id),
    {
        match side {
            Side::Buy => cancel_in(&mut self.bids, price, target_order_id),
            Side::Sell => cancel_in(&mut self.asks, price, target_order_id),
        }
    }

    /// The highest bid price, if any bid rests.
    pub fn best_bid(&self) -> (r: Option<u64>)
        ensures
            r is None <==> self.bid_levels().dom().is_empty(),
            r matches Some(p) ==> self.bid_levels().contains_key(p)
                && forall|q: u64| #[trigger] self.bid_levels().contains_key(q) ==> q <= p,
    {
        let ps = prices_ascending(&self.bids);
        assert(levels(self.bids).dom() =~= self.bids@.dom());
        if ps.len() == 0 {
            assert(ps@.to_set() =~= Set::<u64>::empty());
            None
        } else {
            let p = ps[ps.len() - 1];
            assert(ps@.to_set().contains(p));
            assert forall|q: u64| #[trigger] self.bid_levels().contains_key(q) implies q <= p by {
                assert(ps@.to_set().contains(q));
                assert(ps@.contains(q));
            }
            assert(!self.bid_levels().dom().is_empty()) by {
                assert(self.bid_levels().dom().contains(p));
            }
            Some(p)
        }
    }

    /// The lowest ask price, if any ask rests.
    pub fn best_ask(&self) -> (r: Option<u64>)
        ensures
            r is None <==> self.ask_levels().dom().is_empty(),
            r matches Some(p) ==> self.ask_levels().contains_key(p)
                && forall|q: u64| #[trigger] self.ask_levels().contains_key(q) ==> p <= q,
    {
        let ps = prices_ascending(&self.asks);
        assert(levels(self.asks).dom() =~= self.asks@.dom());
        if ps.len() == 0 {
            assert(ps@.to_set() =~= Set::<u64>::empty());
            None
        } else {
            let p = ps[0];
            assert(ps@.to_set().contains(p));
            assert forall|q: u64| #[trigger] self.ask_levels().contains_key(q) implies p <= q by {
                assert(ps@.to_set().contains(q));
                assert(ps@.contains(q));
            }
            assert(!self.ask_levels().dom().is_empty()) by {
                assert(self.ask_levels().dom().contains(p));
            }
            Some(p)
        }
    }
}

} // verus!
