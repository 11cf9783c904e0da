//! Properties of matching that hold for every book and every incoming order.

use vstd::prelude::*;
use crate::orderbook::{
    cancel_at, cancelled_order, crosses, enqueue, fill_level, match_order, other_than, sweep, take_level,
    with_quantity, first_with_id, Fill,
};
use crate::prices::{ascending, descending, lemma_ladder_exists};
use crate::types::{Order, OrderType, Side};

verus! {

/// Total quantity of a sequence of executions.
pub open spec fn filled(fills: Seq<Fill>) -> nat
    decreases fills.len(),
{
    if fills.len() == 0 {
        0
    } else {
        fills[0].quantity as nat + filled(fills.drop_first())
    }
}

/// Total quantity resting in a queue.
pub open spec fn resting(queue: Seq<Order>) -> nat
    decreases queue.len(),
{
    if queue.len() == 0 {
        0
    } else {
        queue[0].quantity as nat + resting(queue.drop_first())
    }
}

pub(crate) proof fn lemma_filled_append(a: Seq<Fill>, b: Seq<Fill>)
    ensures
        filled(a + b) == filled(a) + filled(b),
    decreases a.len(),
{
    if a.len() == 0 {
        assert(a + b =~= b);
    } else {
        assert((a + b).drop_first() =~= a.drop_first() + b);
        lemma_filled_append(a.drop_first(), b);
    }
}

/// Every execution at a level is at that level's price.
proof fn lemma_level_price(queue: Seq<Order>, price: u64, wanted: u64)
    ensures
        forall|i: int| 0 <= i < fill_level(queue, price, wanted).0.len()
            ==> (#[trigger] fill_level(queue, price, wanted).0[i]).price == price,
    decreases queue.len(),
{
    if queue.len() > 0 && wanted > queue[0].quantity {
        lemma_level_price(queue.drop_first(), price, (wanted - queue[0].quantity) as u64);
    }
}

/// Time priority: at one level the executions take the queue's orders in
/// queue order, each of them whole but for the last.
pub proof fn lemma_time_priority(queue: Seq<Order>, price: u64, wanted: u64)
    ensures
        fill_level(queue, price, wanted).0.len() <= queue.len(),
        forall|i: int| 0 <= i < fill_level(queue, price, wanted).0.len()
            ==> (#[trigger] fill_level(queue, price, wanted).0[i]).maker == queue[i],
        forall|i: int| 0 <= i < fill_level(queue, price, wanted).0.len() - 1
            ==> (#[trigger] fill_level(queue, price, wanted).0[i]).quantity == queue[i].quantity,
    decreases queue.len(),
{
    if queue.len() > 0 && wanted > queue[0].quantity {
        let w = (wanted - queue[0].quantity) as u64;
        lemma_time_priority(queue.drop_first(), price, w);
        let r = fill_level(queue.drop_first(), price, w);
        let f = fill_level(queue, price, wanted).0;
        assert forall|i: int| 0 < i < f.len() implies (#[trigger] f[i]).maker == queue[i] by {
            assert(f[i] == r.0[i - 1]);
        }
        assert forall|i: int| 0 < i < f.len() - 1 implies (#[trigger] f[i]).quantity == queue[i].quantity by {
            assert(f[i] == r.0[i - 1]);
        }
    }
}

/// Quantity is conserved at a level: what is executed plus what is still
/// wanted is what was wanted, and what is executed plus what still rests is
/// what rested.
pub proof fn lemma_level_conserves(queue: Seq<Order>, price: u64, wanted: u64)
    ensures
        filled(fill_level(queue, price, wanted).0) + fill_level(queue, price, wanted).2 == wanted,
        filled(fill_level(queue, price, wanted).0) + resting(fill_level(queue, price, wanted).1) == resting(queue),
    decreases queue.len(),
{
    let r = fill_level(queue, price, wanted);
    if queue.len() == 0 {
        assert(r.0.len() == 0);
        assert(filled(r.0) == 0);
    } else if wanted <= queue[0].quantity {
        let left = (queue[0].quantity - wanted) as u64;
        assert(r.0 == seq![Fill { maker: queue[0], price, quantity: wanted }]);
        assert(r.0.drop_first() =~= Seq::<Fill>::empty());
        assert(filled(r.0.drop_first()) == 0);
        assert(filled(r.0) == wanted);
        assert(resting(queue) == queue[0].quantity + resting(queue.drop_first()));
        if left > 0 {
            assert(r.1.drop_first() =~= queue.drop_first());
            assert(r.1[0].quantity == left);
            assert(resting(r.1) == left + resting(r.1.drop_first()));
        } else {
            assert(r.1 == queue.drop_first());
        }
    } else {
        let w = (wanted - queue[0].quantity) as u64;
        let sub = fill_level(queue.drop_first(), price, w);
        lemma_level_conserves(queue.drop_first(), price, w);
        assert(r.0.drop_first() =~= sub.0);
        assert(filled(r.0) == queue[0].quantity + filled(sub.0));
        assert(resting(queue) == queue[0].quantity + resting(queue.drop_first()));
    }
}

/// The incoming order's quantity is conserved by a sweep: executed plus
/// still wanted is what it came with.
pub proof fn lemma_sweep_conserves(book: Map<u64, Seq<Order>>, prices: Seq<u64>, taker: Order)
    ensures
        filled(sweep(book, prices, taker).0) + sweep(book, prices, taker).2 == taker.quantity,
    decreases prices.len(),
{
    if prices.len() == 0 || !crosses(taker, prices[0]) {
    } else {
        let p = prices[0];
        let step = take_level(book, p, taker.quantity);
        if book.contains_key(p) {
            lemma_level_conserves(book[p], p, taker.quantity);
        }
        if step.2 != 0 {
            let next = with_quantity(taker, step.2);
            lemma_sweep_conserves(step.1, prices.drop_first(), next);
            lemma_filled_append(step.0, sweep(step.1, prices.drop_first(), next).0);
        }
    }
}

/// Every execution of a sweep is at a price that crosses the incoming order.
proof fn lemma_sweep_within_limit(book: Map<u64, Seq<Order>>, prices: Seq<u64>, taker: Order)
    ensures
        forall|i: int| 0 <= i < sweep(book, prices, taker).0.len()
            ==> crosses(taker, (#[trigger] sweep(book, prices, taker).0[i]).price)
                && prices.contains(sweep(book, prices, taker).0[i].price),
    decreases prices.len(),
{
    if prices.len() == 0 || !crosses(taker, prices[0]) {
    } else {
        let p = prices[0];
        let step = take_level(book, p, taker.quantity);
        if book.contains_key(p) {
            lemma_level_price(book[p], p, taker.quantity);
        }
        assert forall|i: int| 0 <= i < step.0.len() implies (#[trigger] step.0[i]).price == p by {}
        assert(prices[0] == p);
        if step.2 != 0 {
            let next = with_quantity(taker, step.2);
            let rest = prices.drop_first();
            lemma_sweep_within_limit(step.1, rest, next);
            let r = sweep(step.1, rest, next);
            let all = sweep(book, prices, taker).0;
            assert forall|i: int| 0 <= i < all.len() implies crosses(taker, (#[trigger] all[i]).price)
                && prices.contains(all[i].price) by {
                if i < step.0.len() {
                    assert(all[i] == step.0[i]);
                } else {
                    assert(all[i] == r.0[i - step.0.len()]);
                    let k = choose|k: int| 0 <= k < rest.len() && rest[k] == all[i].price;
                    assert(prices[k + 1] == all[i].price);
                }
            }
        }
    }
}

/// Price protection: no execution is at a price worse than a limit order's
/// limit (a buy pays at most its price, a sell receives at least its price).
pub proof fn lemma_fills_within_limit(bids: Map<u64, Seq<Order>>, asks: Map<u64, Seq<Order>>, taker: Order)
    ensures
        forall|i: int| 0 <= i < match_order(bids, asks, taker).0.len()
            ==> crosses(taker, (#[trigger] match_order(bids, asks, taker).0[i]).price),
        taker.order_type == OrderType::Limit && taker.side == Side::Buy ==>
            forall|i: int| 0 <= i < match_order(bids, asks, taker).0.len()
                ==> (#[trigger] match_order(bids, asks, taker).0[i]).price <= taker.price,
        taker.order_type == OrderType::Limit && taker.side == Side::Sell ==>
            forall|i: int| 0 <= i < match_order(bids, asks, taker).0.len()
                ==> (#[trigger] match_order(bids, asks, taker).0[i]).price >= taker.price,
{
    match taker.side {
        Side::Buy => lemma_sweep_within_limit(asks, ascending(asks.dom()), taker),
        Side::Sell => lemma_sweep_within_limit(bids, descending(bids.dom()), taker),
    }
}

/// `a` comes strictly before `b` in a walk that goes up (`up`) or down.
pub open spec fn before(a: u64, b: u64, up: bool) -> bool {
    if up { a < b } else { a > b }
}

proof fn lemma_sweep_price_order(book: Map<u64, Seq<Order>>, prices: Seq<u64>, taker: Order, up: bool)
    requires
        forall|i: int, j: int| 0 <= i < j < prices.len() ==> before(prices[i], prices[j], up),
    ensures
        forall|i: int, j: int| 0 <= i < j < sweep(book, prices, taker).0.len() ==>
            (#[trigger] sweep(book, prices, taker).0[i]).price == (#[trigger] sweep(book, prices, taker).0[j]).price
            || before(sweep(book, prices, taker).0[i].price, sweep(book, prices, taker).0[j].price, up),
    decreases prices.len(),
{
    if prices.len() == 0 || !crosses(taker, prices[0]) {
    } else {
        let p = prices[0];
        let step = take_level(book, p, taker.quantity);
        if book.contains_key(p) {
            lemma_level_price(book[p], p, taker.quantity);
        }
        assert forall|i: int| 0 <= i < step.0.len() implies (#[trigger] step.0[i]).price == p by {}
        if step.2 != 0 {
            let next = with_quantity(taker, step.2);
            let rest = prices.drop_first();
            lemma_sweep_price_order(step.1, rest, next, up);
            lemma_sweep_within_limit(step.1, rest, next);
            let r = sweep(step.1, rest, next);
            let all = sweep(book, prices, taker).0;
            assert forall|i: int, j: int| 0 <= i < j < all.len() implies
                (#[trigger] all[i]).price == (#[trigger] all[j]).price || before(all[i].price, all[j].price, up) by {
                if j < step.0.len() {
                    assert(all[i] == step.0[i] && all[j] == step.0[j]);
                } else if i < step.0.len() {
                    assert(all[i] == step.0[i]);
                    assert(all[j] == r.0[j - step.0.len()]);
                    assert(rest.contains(r.0[j - step.0.len()].price));
                    let k = choose|k: int| 0 <= k < rest.len() && rest[k] == all[j].price;
                    assert(prices[k + 1] == all[j].price);
                } else {
                    assert(all[i] == r.0[i - step.0.len()]);
                    assert(all[j] == r.0[j - step.0.len()]);
                }
            }
        }
    }
}

/// Price priority: a buy meets the asks from the lowest price up and a sell
/// meets the bids from the highest price down, so the prices of its
/// executions never improve for the book as matching goes on.
pub proof fn lemma_price_priority(bids: Map<u64, Seq<Order>>, asks: Map<u64, Seq<Order>>, taker: Order)
    requires
        bids.dom().finite(),
        asks.dom().finite(),
    ensures
        taker.side == Side::Buy ==> forall|i: int, j: int| 0 <= i < j < match_order(bids, asks, taker).0.len()
            ==> (#[trigger] match_order(bids, asks, taker).0[i]).price <= (#[trigger] match_order(bids, asks, taker).0[j]).price,
        taker.side == Side::Sell ==> forall|i: int, j: int| 0 <= i < j < match_order(bids, asks, taker).0.len()
            ==> (#[trigger] match_order(bids, asks, taker).0[i]).price >= (#[trigger] match_order(bids, asks, taker).0[j]).price,
{
    match taker.side {
        Side::Buy => {
            lemma_ladder_exists(asks.dom());
            lemma_sweep_price_order(asks, ascending(asks.dom()), taker, true);
        },
        Side::Sell => {
            lemma_ladder_exists(bids.dom());
            let up = ascending(bids.dom());
            let down = descending(bids.dom());
            assert forall|i: int, j: int| 0 <= i < j < down.len() implies before(down[i], down[j], false) by {
                assert(down[i] == up[up.len() - 1 - i]);
                assert(down[j] == up[up.len() - 1 - j]);
            }
            lemma_sweep_price_order(bids, down, taker, false);
        },
    }
}

/// No level of a book side holds an empty queue.
pub open spec fn no_empty_levels(book: Map<u64, Seq<Order>>) -> bool {
    forall|p: u64| #[trigger] book.contains_key(p) ==> book[p].len() > 0
}

/// No order at `o`'s price carries `o`'s id.
pub open spec fn id_fresh_at(book: Map<u64, Seq<Order>>, o: Order) -> bool {
    book.contains_key(o.price) ==> forall|i: int| 0 <= i < book[o.price].len()
        ==> (#[trigger] book[o.price][i]).order_id != o.order_id
}

proof fn lemma_first_with_id_absent(q: Seq<Order>, id: u64)
    requires
        forall|i: int| 0 <= i < q.len() ==> (#[trigger] q[i]).order_id != id,
    ensures
        first_with_id(q, id) is None,
    decreases q.len(),
{
    if q.len() > 0 {
        assert forall|i: int| 0 <= i < q.drop_first().len() implies (#[trigger] q.drop_first()[i]).order_id != id by {
            assert(q.drop_first()[i] == q[i + 1]);
        }
        lemma_first_with_id_absent(q.drop_first(), id);
    }
}

proof fn lemma_first_with_id_last(q: Seq<Order>, o: Order)
    requires
        forall|i: int| 0 <= i < q.len() ==> (#[trigger] q[i]).order_id != o.order_id,
    ensures
        first_with_id(q.push(o), o.order_id) == Some(o),
    decreases q.len(),
{
    if q.len() > 0 {
        assert(q.push(o).drop_first() =~= q.drop_first().push(o));
        assert forall|i: int| 0 <= i < q.drop_first().len() implies (#[trigger] q.drop_first()[i]).order_id != o.order_id by {
            assert(q.drop_first()[i] == q[i + 1]);
        }
        lemma_first_with_id_last(q.drop_first(), o);
    }
}

/// Filtering out an id that no order in `q` has keeps `q` as it is.
pub(crate) proof fn lemma_filter_keeps_all(q: Seq<Order>, id: u64)
    requires
        forall|i: int| 0 <= i < q.len() ==> (#[trigger] q[i]).order_id != id,
    ensures
        q.filter(other_than(id)) == q,
    decreases q.len(),
{
    reveal(Seq::filter);
    if q.len() > 0 {
        assert forall|i: int| 0 <= i < q.drop_last().len() implies (#[trigger] q.drop_last()[i]).order_id != id by {
            assert(q.drop_last()[i] == q[i]);
        }
        lemma_filter_keeps_all(q.drop_last(), id);
        assert(q.drop_last().push(q.last()) =~= q);
    }
}

/// Cancelling an order right after it came to rest gives it back and leaves
/// its side as it was, when no other order at its price has its id.
pub proof fn lemma_cancel_undoes_rest(book: Map<u64, Seq<Order>>, o: Order)
    requires
        no_empty_levels(book),
        id_fresh_at(book, o),
    ensures
        cancelled_order(enqueue(book, o), o.price, o.order_id) == Some(o),
        cancel_at(enqueue(book, o), o.price, o.order_id) == book,
{
    let p = o.price;
    let q = if book.contains_key(p) { book[p] } else { Seq::<Order>::empty() };
    assert(enqueue(book, o)[p] == q.push(o)) by {
        if !book.contains_key(p) {
            assert(seq![o] =~= Seq::<Order>::empty().push(o));
        }
    }
    lemma_first_with_id_last(q, o);
    lemma_filter_keeps_all(q, o.order_id);
    assert(q.push(o).filter(other_than(o.order_id)) == q) by {
        reveal(Seq::filter);
        assert(q.push(o).drop_last() =~= q);
    }
    if book.contains_key(p) {
        assert(enqueue(book, o).insert(p, q) =~= book);
    } else {
        assert(enqueue(book, o).remove(p) =~= book);
    }
}


/// Every bid is priced below every ask.
pub open spec fn uncrossed(bids: Map<u64, Seq<Order>>, asks: Map<u64, Seq<Order>>) -> bool {
    forall|b: u64, a: u64| #[trigger] bids.contains_key(b) && #[trigger] asks.contains_key(a) ==> b < a
}

/// A level that leaves quantity wanted has been emptied.
proof fn lemma_level_exhausted(queue: Seq<Order>, price: u64, wanted: u64)
    ensures
        fill_level(queue, price, wanted).2 > 0 ==> fill_level(queue, price, wanted).1.len() == 0,
    decreases queue.len(),
{
    if queue.len() > 0 && wanted > queue[0].quantity {
        lemma_level_exhausted(queue.drop_first(), price, (wanted - queue[0].quantity) as u64);
    }
}

/// A sweep only removes levels and quantity; when the incoming order is left
/// wanting, every level it walked that crossed it is gone.
proof fn lemma_sweep_clears_crossing(book: Map<u64, Seq<Order>>, prices: Seq<u64>, taker: Order)
    requires
        prices.no_duplicates(),
        forall|i: int, j: int| 0 <= i < j < prices.len() && !crosses(taker, prices[i]) ==> !crosses(taker, prices[j]),
    ensures
        sweep(book, prices, taker).1.dom().subset_of(book.dom()),
        sweep(book, prices, taker).2 > 0 ==> forall|k: u64| #[trigger] sweep(book, prices, taker).1.contains_key(k)
            ==> !prices.contains(k) || !crosses(taker, k),
    decreases prices.len(),
{
    let r = sweep(book, prices, taker);
    if prices.len() == 0 {
    } else if !crosses(taker, prices[0]) {
        assert forall|k: u64| #[trigger] r.1.contains_key(k) implies !prices.contains(k) || !crosses(taker, k) by {
            if prices.contains(k) {
                let j = choose|j: int| 0 <= j < prices.len() && prices[j] == k;
                if j > 0 {
                    assert(!crosses(taker, prices[j]));
                }
            }
        }
    } else {
        let p = prices[0];
        let step = take_level(book, p, taker.quantity);
        if book.contains_key(p) {
            lemma_level_exhausted(book[p], p, taker.quantity);
        }
        if step.2 != 0 {
            let next = with_quantity(taker, step.2);
            let rest = prices.drop_first();
            assert forall|i: int, j: int| 0 <= i < j < rest.len() && !crosses(next, rest[i]) implies !crosses(next, rest[j]) by {
                assert(rest[i] == prices[i + 1] && rest[j] == prices[j + 1]);
            }
            assert(rest.no_duplicates()) by {
                assert forall|i: int, j: int| 0 <= i < rest.len() && 0 <= j < rest.len() && i != j implies rest[i] != rest[j] by {
                    assert(rest[i] == prices[i + 1] && rest[j] == prices[j + 1]);
                }
            }
            lemma_sweep_clears_crossing(step.1, rest, next);
            assert(!step.1.contains_key(p));
            let sub = sweep(step.1, rest, next);
            assert(r.1 == sub.1 && r.2 == sub.2);
            assert forall|k: u64| r.2 > 0 && #[trigger] r.1.contains_key(k) implies !prices.contains(k) || !crosses(taker, k) by {
                assert(sub.1.contains_key(k));
                assert(step.1.dom().contains(k));
                assert(crosses(next, k) == crosses(taker, k));
                if prices.contains(k) && crosses(taker, k) {
                    let j = choose|j: int| 0 <= j < prices.len() && prices[j] == k;
                    assert(j != 0);
                    assert(rest[j - 1] == k);
                    assert(rest.contains(k));
                }
            }
        }
    }
}

/// The book never stays crossed: if every bid was below every ask before an
/// order is matched, the same holds after it, whatever rests.
pub proof fn lemma_book_stays_uncrossed(bids: Map<u64, Seq<Order>>, asks: Map<u64, Seq<Order>>, taker: Order)
    requires
        bids.dom().finite(),
        asks.dom().finite(),
        uncrossed(bids, asks),
    ensures
        uncrossed(match_order(bids, asks, taker).1, match_order(bids, asks, taker).2),
{
    let m = match_order(bids, asks, taker);
    match taker.side {
        Side::Buy => {
            lemma_ladder_exists(asks.dom());
            let ps = ascending(asks.dom());
            assert(ps.no_duplicates());
            lemma_sweep_clears_crossing(asks, ps, taker);
            let r = sweep(asks, ps, taker);
            assert forall|b: u64, a: u64| #[trigger] m.1.contains_key(b) && #[trigger] m.2.contains_key(a) implies b < a by {
                assert(asks.contains_key(a));
                if !bids.contains_key(b) {
                    assert(taker.order_type == OrderType::Limit && r.2 > 0 && b == taker.price);
                    assert(ps.to_set().contains(a));
                    assert(ps.contains(a));
                }
            }
        },
        Side::Sell => {
            lemma_ladder_exists(bids.dom());
            let up = ascending(bids.dom());
            let ps = descending(bids.dom());
            assert forall|i: int, j: int| 0 <= i < j < ps.len() implies ps[i] > ps[j] by {
                assert(ps[i] == up[up.len() - 1 - i]);
                assert(ps[j] == up[up.len() - 1 - j]);
            }
            assert(ps.no_duplicates());
            lemma_sweep_clears_crossing(bids, ps, taker);
            let r = sweep(bids, ps, taker);
            assert forall|b: u64, a: u64| #[trigger] m.1.contains_key(b) && #[trigger] m.2.contains_key(a) implies b < a by {
                assert(bids.contains_key(b));
                if !asks.contains_key(a) {
                    assert(taker.order_type == OrderType::Limit && r.2 > 0 && a == taker.price);
                    assert(up.to_set().contains(b));
                    assert(up.contains(b));
                    let k = choose|k: int| 0 <= k < up.len() && up[k] == b;
                    assert(ps[up.len() - 1 - k] == b);
                    assert(ps.contains(b));
                }
            }
        },
    }
}


proof fn lemma_sweep_keeps_levels_nonempty(book: Map<u64, Seq<Order>>, prices: Seq<u64>, taker: Order)
    requires
        no_empty_levels(book),
    ensures
        no_empty_levels(sweep(book, prices, taker).1),
    decreases prices.len(),
{
    if prices.len() > 0 && crosses(taker, prices[0]) {
        let step = take_level(book, prices[0], taker.quantity);
        assert(no_empty_levels(step.1));
        if step.2 != 0 {
            lemma_sweep_keeps_levels_nonempty(step.1, prices.drop_first(), with_quantity(taker, step.2));
        }
    }
}

/// Matching never leaves an empty queue in the book: a level is either gone
/// or holds an order.
pub proof fn lemma_match_keeps_levels_nonempty(bids: Map<u64, Seq<Order>>, asks: Map<u64, Seq<Order>>, taker: Order)
    requires
        no_empty_levels(bids),
        no_empty_levels(asks),
    ensures
        no_empty_levels(match_order(bids, asks, taker).1),
        no_empty_levels(match_order(bids, asks, taker).2),
{
    match taker.side {
        Side::Buy => lemma_sweep_keeps_levels_nonempty(asks, ascending(asks.dom()), taker),
        Side::Sell => lemma_sweep_keeps_levels_nonempty(bids, descending(bids.dom()), taker),
    }
}

/// A cancel never leaves an empty queue in the book.
pub proof fn lemma_cancel_keeps_levels_nonempty(book: Map<u64, Seq<Order>>, price: u64, id: u64)
    requires
        no_empty_levels(book),
    ensures
        no_empty_levels(cancel_at(book, price, id)),
{
}


/// Every order in `queue` is an order of `side` at `price` with quantity
/// left.
pub open spec fn level_ok(queue: Seq<Order>, price: u64, side: Side) -> bool {
    forall|i: int| 0 <= i < queue.len() ==> {
        &&& (#[trigger] queue[i]).side == side
        &&& queue[i].price == price
        &&& queue[i].quantity > 0
    }
}

/// Every level of a book side holds only well-formed orders of `side` at the
/// level's price.
pub open spec fn side_ok(book: Map<u64, Seq<Order>>, side: Side) -> bool {
    forall|p: u64| #[trigger] book.contains_key(p) ==> level_ok(book[p], p, side)
}

/// A well-formed book: no empty levels, every bid a buy and every ask a sell,
/// each at its level's price with quantity left.
pub open spec fn book_ok(bids: Map<u64, Seq<Order>>, asks: Map<u64, Seq<Order>>) -> bool {
    &&& no_empty_levels(bids)
    &&& no_empty_levels(asks)
    &&& side_ok(bids, Side::Buy)
    &&& side_ok(asks, Side::Sell)
}

pub(crate) proof fn lemma_fill_keeps_level_ok(queue: Seq<Order>, price: u64, side: Side, wanted: u64)
    requires
        level_ok(queue, price, side),
    ensures
        level_ok(fill_level(queue, price, wanted).1, price, side),
    decreases queue.len(),
{
    if queue.len() > 0 {
        let head = queue[0];
        let tail = queue.drop_first();
        assert(level_ok(tail, price, side)) by {
            assert forall|i: int| 0 <= i < tail.len() implies (#[trigger] tail[i]).side == side && tail[i].price == price
                && tail[i].quantity > 0 by {
                assert(tail[i] == queue[i + 1]);
            }
        }
        if wanted > head.quantity {
            lemma_fill_keeps_level_ok(tail, price, side, (wanted - head.quantity) as u64);
        }
    }
}

pub(crate) proof fn lemma_sweep_keeps_side_ok(book: Map<u64, Seq<Order>>, prices: Seq<u64>, taker: Order, side: Side)
    requires
        side_ok(book, side),
    ensures
        side_ok(sweep(book, prices, taker).1, side),
    decreases prices.len(),
{
    if prices.len() > 0 && crosses(taker, prices[0]) {
        let p = prices[0];
        let step = take_level(book, p, taker.quantity);
        if book.contains_key(p) {
            lemma_fill_keeps_level_ok(book[p], p, side, taker.quantity);
        }
        assert(side_ok(step.1, side));
        if step.2 != 0 {
            lemma_sweep_keeps_side_ok(step.1, prices.drop_first(), with_quantity(taker, step.2), side);
        }
    }
}

pub(crate) proof fn lemma_enqueue_keeps_side_ok(book: Map<u64, Seq<Order>>, o: Order, side: Side)
    requires
        side_ok(book, side),
        o.side == side,
        o.quantity > 0,
    ensures
        side_ok(enqueue(book, o), side),
        no_empty_levels(book) ==> no_empty_levels(enqueue(book, o)),
{
    let p = o.price;
    let q = if book.contains_key(p) { book[p].push(o) } else { seq![o] };
    assert(level_ok(q, p, side)) by {
        assert forall|i: int| 0 <= i < q.len() implies (#[trigger] q[i]).side == side && q[i].price == p
            && q[i].quantity > 0 by {
            if book.contains_key(p) && i < book[p].len() {
                assert(q[i] == book[p][i]);
            }
        }
    }
}

/// Matching keeps the book well formed: what rests afterwards is, level by
/// level, a non-empty queue of orders of that side at that price with
/// quantity left.
pub proof fn lemma_match_keeps_book_ok(bids: Map<u64, Seq<Order>>, asks: Map<u64, Seq<Order>>, taker: Order)
    requires
        book_ok(bids, asks),
    ensures
        book_ok(match_order(bids, asks, taker).1, match_order(bids, asks, taker).2),
{
    lemma_match_keeps_levels_nonempty(bids, asks, taker);
    match taker.side {
        Side::Buy => {
            let r = sweep(asks, ascending(asks.dom()), taker);
            lemma_sweep_keeps_side_ok(asks, ascending(asks.dom()), taker, Side::Sell);
            if taker.order_type == OrderType::Limit && r.2 > 0 {
                lemma_enqueue_keeps_side_ok(bids, with_quantity(taker, r.2), Side::Buy);
            }
        },
        Side::Sell => {
            let r = sweep(bids, descending(bids.dom()), taker);
            lemma_sweep_keeps_side_ok(bids, descending(bids.dom()), taker, Side::Buy);
            if taker.order_type == OrderType::Limit && r.2 > 0 {
                lemma_enqueue_keeps_side_ok(asks, with_quantity(taker, r.2), Side::Sell);
            }
        },
    }
}

proof fn lemma_filter_keeps_level_ok(queue: Seq<Order>, price: u64, side: Side, id: u64)
    requires
        level_ok(queue, price, side),
    ensures
        level_ok(queue.filter(other_than(id)), price, side),
    decreases queue.len(),
{
    reveal(Seq::filter);
    if queue.len() > 0 {
        let init = queue.drop_last();
        assert(level_ok(init, price, side)) by {
            assert forall|i: int| 0 <= i < init.len() implies (#[trigger] init[i]).side == side && init[i].price == price
                && init[i].quantity > 0 by {
                assert(init[i] == queue[i]);
            }
        }
        lemma_filter_keeps_level_ok(init, price, side, id);
        let sub = init.filter(other_than(id));
        let f = queue.filter(other_than(id));
        assert forall|i: int| 0 <= i < f.len() implies (#[trigger] f[i]).side == side && f[i].price == price
            && f[i].quantity > 0 by {
            if i < sub.len() {
                assert(f[i] == sub[i]);
            } else {
                assert(f[i] == queue[queue.len() - 1]);
            }
        }
    }
}

/// A cancel keeps a book side well formed.
pub proof fn lemma_cancel_keeps_side_ok(book: Map<u64, Seq<Order>>, price: u64, id: u64, side: Side)
    requires
        side_ok(book, side),
        no_empty_levels(book),
    ensures
        side_ok(cancel_at(book, price, id), side),
        no_empty_levels(cancel_at(book, price, id)),
{
    if book.contains_key(price) {
        lemma_filter_keeps_level_ok(book[price], price, side, id);
    }
}


/// Matching keeps a well-formed, uncrossed book well formed and uncrossed.
pub proof fn lemma_match_keeps_book_sound(bids: Map<u64, Seq<Order>>, asks: Map<u64, Seq<Order>>, taker: Order)
    requires
        bids.dom().finite(),
        asks.dom().finite(),
        book_ok(bids, asks),
        uncrossed(bids, asks),
    ensures
        book_ok(match_order(bids, asks, taker).1, match_order(bids, asks, taker).2),
        uncrossed(match_order(bids, asks, taker).1, match_order(bids, asks, taker).2),
{
    lemma_match_keeps_book_ok(bids, asks, taker);
    lemma_book_stays_uncrossed(bids, asks, taker);
}

/// The resting side of a book for an order of side `side`.
pub open spec fn own_side(bids: Map<u64, Seq<Order>>, asks: Map<u64, Seq<Order>>, side: Side) -> Map<u64, Seq<Order>> {
    match side {
        Side::Buy => bids,
        Side::Sell => asks,
    }
}

/// A limit order that meets nothing on the other side of a well-formed book
/// only rests: no execution, the other side unchanged, and the order at the
/// back of its level. Cancelling it right away gives it back and leaves its
/// side as it was.
pub proof fn lemma_rest_then_cancel_restores_book(bids: Map<u64, Seq<Order>>, asks: Map<u64, Seq<Order>>, o: Order)
    requires
        bids.dom().finite(),
        asks.dom().finite(),
        book_ok(bids, asks),
        o.order_type == OrderType::Limit,
        o.quantity > 0,
        id_fresh_at(own_side(bids, asks, o.side), o),
        o.side == Side::Buy ==> forall|a: u64| #[trigger] asks.contains_key(a) ==> o.price < a,
        o.side == Side::Sell ==> forall|b: u64| #[trigger] bids.contains_key(b) ==> b < o.price,
    ensures
        match_order(bids, asks, o).0.len() == 0,
        o.side == Side::Buy ==> match_order(bids, asks, o).2 == asks && match_order(bids, asks, o).1 == enqueue(bids, o),
        o.side == Side::Sell ==> match_order(bids, asks, o).1 == bids && match_order(bids, asks, o).2 == enqueue(asks, o),
        cancelled_order(own_side(match_order(bids, asks, o).1, match_order(bids, asks, o).2, o.side), o.price, o.order_id) == Some(o),
        cancel_at(own_side(match_order(bids, asks, o).1, match_order(bids, asks, o).2, o.side), o.price, o.order_id)
            == own_side(bids, asks, o.side),
{
    assert(with_quantity(o, o.quantity) == o);
    match o.side {
        Side::Buy => {
            lemma_ladder_exists(asks.dom());
            let ps = ascending(asks.dom());
            if ps.len() > 0 {
                assert(ps.to_set().contains(ps[0]));
                assert(asks.contains_key(ps[0]));
            }
            assert(sweep(asks, ps, o) == (Seq::<Fill>::empty(), asks, o.quantity));
        },
        Side::Sell => {
            lemma_ladder_exists(bids.dom());
            let up = ascending(bids.dom());
            let ps = descending(bids.dom());
            if ps.len() > 0 {
                assert(ps[0] == up[up.len() - 1]);
                assert(up.to_set().contains(up[up.len() - 1]));
                assert(bids.contains_key(ps[0]));
            }
            assert(sweep(bids, ps, o) == (Seq::<Fill>::empty(), bids, o.quantity));
        },
    }
    lemma_cancel_undoes_rest(own_side(bids, asks, o.side), o);
}

/// A market order takes whatever liquidity there is: matched against any
/// book, either it is filled in full or it has emptied the other side.
pub proof fn lemma_market_order_takes_all_liquidity(bids: Map<u64, Seq<Order>>, asks: Map<u64, Seq<Order>>, taker: Order)
    requires
        bids.dom().finite(),
        asks.dom().finite(),
        taker.order_type == OrderType::Market,
    ensures
        filled(match_order(bids, asks, taker).0) < taker.quantity ==> match taker.side {
            Side::Buy => match_order(bids, asks, taker).2.dom().len() == 0,
            Side::Sell => match_order(bids, asks, taker).1.dom().len() == 0,
        },
{
    let (opp, ps) = match taker.side {
        Side::Buy => (asks, ascending(asks.dom())),
        Side::Sell => (bids, descending(bids.dom())),
    };
    let asc = ascending(opp.dom());
    lemma_ladder_exists(opp.dom());
    assert forall|i: int| 0 <= i < ps.len() implies crosses(taker, #[trigger] ps[i]) by {}
    assert(ps.no_duplicates()) by {
        assert forall|i: int, j: int| 0 <= i < ps.len() && 0 <= j < ps.len() && i != j implies ps[i] != ps[j] by {
            if taker.side == Side::Sell {
                assert(ps[i] == asc[asc.len() - 1 - i] && ps[j] == asc[asc.len() - 1 - j]);
            }
        }
    }
    lemma_sweep_conserves(opp, ps, taker);
    lemma_sweep_clears_crossing(opp, ps, taker);
    let r = sweep(opp, ps, taker);
    if r.2 > 0 {
        assert forall|k: u64| r.1.dom().contains(k) implies false by {
            assert(opp.dom().contains(k));
            assert(asc.to_set().contains(k));
            let i = choose|i: int| 0 <= i < asc.len() && asc[i] == k;
            if taker.side == Side::Buy {
                assert(ps[i] == k);
            } else {
                assert(ps[asc.len() - 1 - i] == k);
            }
            assert(ps.contains(k));
        }
        assert(r.1.dom() =~= Set::empty());
    }
}

/// A cancel of `id` at `price` removes exactly the orders with that id from
/// that level: every other level is untouched, no order with the id stays at
/// the level, every other order there stays, and an order is reported exactly
/// when the level held one with the id, which is then the order reported.
pub proof fn lemma_cancel_removes_exactly_the_id(book: Map<u64, Seq<Order>>, price: u64, id: u64)
    ensures
        forall|p: u64| p != price ==> (#[trigger] cancel_at(book, price, id).contains_key(p)) == book.contains_key(p),
        forall|p: u64| p != price && book.contains_key(p) ==> #[trigger] cancel_at(book, price, id)[p] == book[p],
        cancel_at(book, price, id).contains_key(price) ==> book.contains_key(price)
            && forall|i: int| 0 <= i < cancel_at(book, price, id)[price].len() ==> {
                &&& (#[trigger] cancel_at(book, price, id)[price][i]).order_id != id
                &&& book[price].contains(cancel_at(book, price, id)[price][i])
            },
        book.contains_key(price) ==> forall|i: int| 0 <= i < book[price].len() && (#[trigger] book[price][i]).order_id != id
            ==> cancel_at(book, price, id).contains_key(price) && cancel_at(book, price, id)[price].contains(book[price][i]),
        cancelled_order(book, price, id) is Some
            <==> (book.contains_key(price) && exists|i: int| 0 <= i < book[price].len() && (#[trigger] book[price][i]).order_id == id),
        cancelled_order(book, price, id) matches Some(c) ==> c.order_id == id && book[price].contains(c),
{
    broadcast use vstd::seq_lib::group_filter_ensures;
    let after = cancel_at(book, price, id);
    if book.contains_key(price) {
        let q = book[price];
        let kept = q.filter(other_than(id));
        assert forall|i: int| 0 <= i < kept.len() implies q.contains(#[trigger] kept[i]) by {
            assert(kept.contains(kept[i]));
            q.lemma_filter_contains_rev(other_than(id), kept[i]);
        }
        assert forall|i: int| 0 <= i < q.len() && (#[trigger] q[i]).order_id != id
            implies after.contains_key(price) && after[price].contains(q[i]) by {
            assert(kept.contains(q[i]));
        }
        if first_with_id(q, id) is Some {
            crate::reservations::lemma_first_with_id_member(q, id);
        } else {
            assert forall|i: int| 0 <= i < q.len() implies (#[trigger] q[i]).order_id != id by {
                crate::reservations::lemma_first_with_id_none(q, id, i);
            }
        }
    }
}

} // verus!
