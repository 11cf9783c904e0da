//! Price ladders: the keys of one side of the book, in the order in which
//! an incoming order meets them.

use vstd::prelude::*;
use vstd::std_specs::iter::IteratorSpec;
use std::collections::BTreeMap;
use std::collections::VecDeque;
use crate::types::Order;

verus! {

broadcast use vstd::std_specs::btree::group_btree_axioms;

/// Each price is strictly lower than every later one.
pub open spec fn strictly_increasing(s: Seq<u64>) -> bool {
    forall|i: int, j: int| 0 <= i < j < s.len() ==> s[i] < s[j]
}

/// `s` lists exactly the prices of `keys`, lowest first.
pub open spec fn is_ladder(s: Seq<u64>, keys: Set<u64>) -> bool {
    strictly_increasing(s) && s.to_set() == keys
}

/// The prices of `keys`, lowest first (the ladder is unique: see `lemma_ladder_unique`).
pub open spec fn ascending(keys: Set<u64>) -> Seq<u64> {
    choose|s: Seq<u64>| is_ladder(s, keys)
}

/// The prices of `keys`, highest first.
pub open spec fn descending(keys: Set<u64>) -> Seq<u64> {
    ascending(keys).reverse()
}

/// Two ladders of one set of prices are the same sequence.
pub proof fn lemma_ladder_unique(a: Seq<u64>, b: Seq<u64>, keys: Set<u64>)
    requires
        is_ladder(a, keys),
        is_ladder(b, keys),
    ensures
        a == b,
    decreases a.len(),
{
    if a.len() == 0 {
        if b.len() > 0 {
            assert(b.to_set().contains(b[0]));
            assert(!a.to_set().contains(b[0]));
        }
        assert(a =~= b);
    } else if b.len() == 0 {
        assert(a.to_set().contains(a[0]));
        assert(!b.to_set().contains(a[0]));
    } else {
        assert(a.to_set().contains(a[0]));
        assert(b.contains(a[0]));
        let j = choose|j: int| 0 <= j < b.len() && b[j] == a[0];
        assert(b.to_set().contains(b[0]));
        assert(a.contains(b[0]));
        let i = choose|i: int| 0 <= i < a.len() && a[i] == b[0];
        assert(a[0] <= a[i]);
        assert(b[0] <= b[j]);
        assert(a[0] == b[0]);
        let x = a[0];
        let ta = a.drop_first();
        let tb = b.drop_first();
        let rest = keys.remove(x);
        assert forall|y: u64| ta.to_set().contains(y) <==> rest.contains(y) by {
            if ta.to_set().contains(y) {
                assert(ta.contains(y));
                let k = choose|k: int| 0 <= k < ta.len() && ta[k] == y;
                assert(a[k + 1] == y);
                assert(a.contains(y));
                assert(y != x);
            }
            if rest.contains(y) {
                assert(a.to_set().contains(y));
                assert(a.contains(y));
                let k = choose|k: int| 0 <= k < a.len() && a[k] == y;
                assert(k != 0);
                assert(ta[k - 1] == y);
                assert(ta.contains(y));
            }
        }
        assert forall|y: u64| tb.to_set().contains(y) <==> rest.contains(y) by {
            if tb.to_set().contains(y) {
                assert(tb.contains(y));
                let k = choose|k: int| 0 <= k < tb.len() && tb[k] == y;
                assert(b[k + 1] == y);
                assert(b.contains(y));
                assert(y != x);
            }
            if rest.contains(y) {
                assert(b.to_set().contains(y));
                assert(b.contains(y));
                let k = choose|k: int| 0 <= k < b.len() && b[k] == y;
                assert(k != 0);
                assert(tb[k - 1] == y);
                assert(tb.contains(y));
            }
        }
        assert(ta.to_set() =~= rest);
        assert(tb.to_set() =~= rest);
        lemma_ladder_unique(ta, tb, rest);
        assert(a =~= b) by {
            assert forall|k: int| 0 <= k < a.len() implies a[k] == b[k] by {
                if k > 0 {
                    assert(a[k] == ta[k - 1]);
                    assert(b[k] == tb[k - 1]);
                }
            }
        }
    }
}

/// A finite nonempty set of prices has a highest one.
proof fn lemma_highest_exists(keys: Set<u64>)
    requires
        keys.finite(),
        keys.len() > 0,
    ensures
        exists|m: u64| keys.contains(m) && forall|q: u64| keys.contains(q) ==> q <= m,
    decreases keys.len(),
{
    let x = keys.choose();
    assert(keys.contains(x));
    let rest = keys.remove(x);
    if rest.len() == 0 {
        assert forall|q: u64| keys.contains(q) implies q <= x by {
            if q != x {
                assert(rest.contains(q));
            }
        }
    } else {
        lemma_highest_exists(rest);
        let m = choose|m: u64| rest.contains(m) && forall|q: u64| rest.contains(q) ==> q <= m;
        let top = if m < x { x } else { m };
        assert forall|q: u64| keys.contains(q) implies q <= top by {
            if q != x {
                assert(rest.contains(q));
            }
        }
        assert(keys.contains(top));
    }
}

/// Every finite set of prices has a ladder, so `ascending` lists it.
pub proof fn lemma_ladder_exists(keys: Set<u64>)
    requires
        keys.finite(),
    ensures
        is_ladder(ascending(keys), keys),
    decreases keys.len(),
{
    if keys.len() == 0 {
        assert(Seq::<u64>::empty().to_set() =~= keys);
        assert(is_ladder(Seq::<u64>::empty(), keys));
    } else {
        lemma_highest_exists(keys);
        let m = choose|m: u64| keys.contains(m) && forall|q: u64| keys.contains(q) ==> q <= m;
        let rest = keys.remove(m);
        lemma_ladder_exists(rest);
        let l = ascending(rest);
        let s = l.push(m);
        assert forall|i: int, j: int| 0 <= i < j < s.len() implies s[i] < s[j] by {
            if j == s.len() - 1 {
                assert(l.to_set().contains(l[i]));
                assert(rest.contains(s[i]));
            }
        }
        assert forall|y: u64| s.to_set().contains(y) <==> keys.contains(y) by {
            if s.to_set().contains(y) {
                assert(s.contains(y));
                let k = choose|k: int| 0 <= k < s.len() && s[k] == y;
                if k < l.len() {
                    assert(l.contains(y));
                    assert(l.to_set().contains(y));
                }
            }
            if keys.contains(y) {
                if y == m {
                    assert(s[s.len() - 1] == y);
                } else {
                    assert(l.to_set().contains(y));
                    assert(l.contains(y));
                    let k = choose|k: int| 0 <= k < l.len() && l[k] == y;
                    assert(s[k] == y);
                }
                assert(s.contains(y));
            }
        }
        assert(s.to_set() =~= keys);
        assert(is_ladder(s, keys));
    }
}

/// The prices of a book side, lowest first.
pub fn prices_ascending(m: &BTreeMap<u64, VecDeque<Order>>) -> (ps: Vec<u64>)
    ensures
        ps@ == ascending(m@.dom()),
        is_ladder(ps@, m@.dom()),
{
    let mut ps: Vec<u64> = Vec::new();
    assert(vstd::std_specs::btree::key_obeys_cmp_spec::<u64>());
    let keys = m.keys();
    let ghost all = keys.remaining();
    for k in it: keys
        invariant
            ps@ == it.seq().take(it.index()).unref(),
            it.seq() == all,
    {
        ps.push(*k);
    }
    assert(ps@ == all.unref());
    assert(vstd::std_specs::btree::increasing_seq(all));
    assert(vstd::laws_cmp::obeys_cmp::<&u64>());
    proof {
        vstd::std_specs::btree::axiom_increasing_seq_meaning::<&u64>(all);
        assert forall|i: int, j: int| 0 <= i < j < ps@.len() implies ps@[i] < ps@[j] by {
            assert(vstd::std_specs::cmp::OrdSpec::cmp_spec(&all[i], &all[j]) is Less);
        }
        assert(is_ladder(ps@, m@.dom()));
        lemma_ladder_unique(ps@, ascending(m@.dom()), m@.dom());
    }
    ps
}

/// The prices of a book side, highest first.
pub fn prices_descending(m: &BTreeMap<u64, VecDeque<Order>>) -> (ps: Vec<u64>)
    ensures
        ps@ == descending(m@.dom()),
{
    let up = prices_ascending(m);
    let n = up.len();
    let mut ps: Vec<u64> = Vec::new();
    let mut i = n;
    while i > 0
        invariant
            i <= n,
            n == up@.len(),
            ps@ == up@.reverse().take(n - i),
        decreases i,
    {
        i = i - 1;
        ps.push(up[i]);
        assert(up@.reverse().take(n - i) =~= up@.reverse().take(n - i - 1).push(up@[i as int]));
    }
    assert(up@.reverse().take(n as int) =~= up@.reverse());
    ps
}

} // verus!
