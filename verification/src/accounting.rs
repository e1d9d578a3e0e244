//! Where the quantity of an order goes: into fills, onto the book, or
//! nowhere; and what leaves the book.
use vstd::prelude::*;
use crate::data::fill::Fill;
use crate::data::orders::{BookOrder, Order, OrderType};
use crate::data::side::Side;
use crate::matching::engine::{queue_match, side_match, beyond, priced, lemma_queue_match_left, lemma_side_match_left};
use crate::orderbook::{BookView, LevelView, drop_empty, insert_order, better, execute_spec, opposite_levels, own_levels,
    side_wf, lemma_insert_at};
use crate::ids::{lemma_insertion_index, lemma_side_match_tails};
use crate::priority::lemma_queue_match_exhausts;
use crate::snapshot::queue_total;

verus! {

/// The total quantity of some fills.
pub open spec fn fills_total(f: Seq<Fill>) -> nat
    decreases f.len(),
{
    if f.len() == 0 {
        0
    } else {
        f[0].qty as nat + fills_total(f.drop_first())
    }
}

/// The total quantity resting on one side of the book.
pub open spec fn side_total(levels: Seq<LevelView>) -> nat
    decreases levels.len(),
{
    if levels.len() == 0 {
        0
    } else {
        side_total(levels.drop_last()) + queue_total(levels.last().1)
    }
}

/// The total of a queue, counted from its head.
pub proof fn lemma_queue_total_front(q: Seq<BookOrder>)
    requires
        q.len() > 0,
    ensures
        queue_total(q) == q[0].qty + queue_total(q.drop_first()),
    decreases q.len(),
{
    if q.len() > 1 {
        let dl = q.drop_last();
        lemma_queue_total_front(dl);
        assert(q.drop_first().drop_last() =~= dl.drop_first());
        assert(q.drop_first().last() == q.last());
    } else {
        assert(q.drop_last() =~= seq![]);
        assert(q.drop_first() =~= seq![]);
    }
}

/// The total of a side, counted from its best level.
pub proof fn lemma_side_total_front(s: Seq<LevelView>)
    requires
        s.len() > 0,
    ensures
        side_total(s) == queue_total(s[0].1) + side_total(s.drop_first()),
    decreases s.len(),
{
    if s.len() > 1 {
        let dl = s.drop_last();
        lemma_side_total_front(dl);
        assert(s.drop_first().drop_last() =~= dl.drop_first());
        assert(s.drop_first().last() == s.last());
    } else {
        assert(s.drop_last() =~= seq![]);
        assert(s.drop_first() =~= seq![]);
    }
}

/// The total of a concatenation of fills.
pub proof fn lemma_fills_total_concat(a: Seq<Fill>, b: Seq<Fill>)
    ensures
        fills_total(a + b) == fills_total(a) + fills_total(b),
    decreases a.len(),
{
    if a.len() > 0 {
        assert((a + b).drop_first() =~= a.drop_first() + b);
        lemma_fills_total_concat(a.drop_first(), b);
    } else {
        assert(a + b =~= b);
    }
}

/// A fill of positive quantity taken by `id` on side `taker`, at a price
/// that is not beyond the limit.
pub open spec fn fill_ok(f: Fill, id: u32, taker: Side, limit: Option<u64>) -> bool {
    &&& f.qty > 0
    &&& f.taker == id as u128
    &&& f.taker_side == taker
    &&& limit matches Some(lp) ==> !beyond(taker, lp, f.price)
}

/// Pricing fills keeps their total.
pub proof fn lemma_priced_total(f: Seq<Fill>, p: u64)
    ensures
        fills_total(priced(f, p)) == fills_total(f),
        priced(f, p).len() == f.len(),
    decreases f.len(),
{
    if f.len() > 0 {
        assert(priced(f, p).drop_first() =~= priced(f.drop_first(), p));
        lemma_priced_total(f.drop_first(), p);
    }
}

/// Matching one queue: what it trades leaves the queue and goes into fills
/// of positive quantity taken by `id` on side `side`.
pub proof fn lemma_queue_match_accounts(q: Seq<BookOrder>, want: u64, id: u32, side: Side)
    ensures
        ({
            let o = queue_match(q, want, id, side);
            &&& o.left <= want
            &&& queue_total(o.rest) + (want - o.left) == queue_total(q)
            &&& fills_total(o.fills) == want - o.left
            &&& forall|k: int| 0 <= k < o.fills.len() ==> (#[trigger] o.fills[k]).qty > 0 && o.fills[k].taker == id as u128
                && o.fills[k].taker_side == side
        }),
    decreases q.len(),
{
    let o = queue_match(q, want, id, side);
    lemma_queue_match_left(q, want, id, side);
    if q.len() > 0 && want > 0 {
        let h = q[0];
        lemma_queue_total_front(q);
        if h.qty == 0 {
            lemma_queue_match_accounts(q.drop_first(), want, id, side);
        } else if want >= h.qty {
            let r = queue_match(q.drop_first(), (want - h.qty) as u64, id, side);
            lemma_queue_match_accounts(q.drop_first(), (want - h.qty) as u64, id, side);
            let f = seq![crate::matching::engine::fill_of(id, h, h.qty, side, true)];
            lemma_fills_total_concat(f, r.fills);
            assert(f.drop_first() =~= Seq::<Fill>::empty());
            assert(fills_total(Seq::<Fill>::empty()) == 0);
            assert(fills_total(f) == h.qty);
            assert(o.fills == f + r.fills);
            assert forall|k: int| 0 <= k < o.fills.len() implies (#[trigger] o.fills[k]).qty > 0 && o.fills[k].taker == id as u128
                && o.fills[k].taker_side == side by {
                if k > 0 {
                    assert(o.fills[k] == r.fills[k - 1]);
                }
            }
        } else {
            let nq = q.update(0, BookOrder { qty: (h.qty - want) as u64, ..h });
            lemma_queue_total_front(nq);
            assert(nq.drop_first() =~= q.drop_first());
            assert(o.fills.drop_first() =~= Seq::<Fill>::empty());
            assert(fills_total(Seq::<Fill>::empty()) == 0);
            assert(fills_total(o.fills) == want);
        }
    } else {
        assert(o.fills.len() == 0);
    }
}

/// Matching one side: what it trades leaves the side and goes into fills of
/// positive quantity taken by `id` on side `taker`, each at a price that is
/// not beyond the limit.
pub proof fn lemma_side_match_accounts(levels: Seq<LevelView>, want: u64, id: u32, taker: Side, limit: Option<u64>)
    ensures
        ({
            let m = side_match(levels, want, id, taker, limit);
            &&& m.left <= want
            &&& side_total(m.levels) + (want - m.left) == side_total(levels)
            &&& fills_total(m.fills) == want - m.left
            &&& forall|k: int| 0 <= k < m.fills.len() ==> fill_ok(#[trigger] m.fills[k], id, taker, limit)
        }),
    decreases levels.len(),
{
    let m = side_match(levels, want, id, taker, limit);
    lemma_side_match_left(levels, want, id, taker, limit);
    if levels.len() > 0 {
        let p = levels[0].0;
        let q = levels[0].1;
        let t = levels.drop_first();
        lemma_side_total_front(levels);
        if q.len() == 0 {
            lemma_side_match_accounts(t, want, id, taker, limit);
            let r = side_match(t, want, id, taker, limit);
            lemma_side_total_front(m.levels);
            assert(m.levels == seq![levels[0]] + r.levels);
            assert(m.levels.drop_first() =~= r.levels);
        } else if (limit matches Some(lp) && beyond(taker, lp, p)) || want == 0 {
            assert(m.fills.len() == 0);
        } else {
            let o = queue_match(q, want, id, taker);
            lemma_queue_match_accounts(q, want, id, taker);
            lemma_side_match_accounts(t, o.left, id, taker, limit);
            let r = side_match(t, o.left, id, taker, limit);
            let pf = priced(o.fills, p);
            assert(m.levels == seq![(p, o.rest)] + r.levels);
            assert(m.fills == pf + r.fills);
            lemma_side_total_front(m.levels);
            assert(m.levels.drop_first() =~= r.levels);
            lemma_priced_total(o.fills, p);
            lemma_fills_total_concat(pf, r.fills);
            assert forall|k: int| 0 <= k < m.fills.len() implies fill_ok(#[trigger] m.fills[k], id, taker, limit) by {
                if k < pf.len() {
                    assert(m.fills[k] == pf[k]);
                    assert(pf[k] == (Fill { price: p, ..o.fills[k] }));
                } else {
                    assert(m.fills[k] == r.fills[k - pf.len()]);
                }
            }
        }
    } else {
        assert(m.fills.len() == 0);
    }
}

/// Dropping empty levels keeps the total of a side.
pub proof fn lemma_drop_empty_total(s: Seq<LevelView>)
    ensures
        side_total(drop_empty(s)) == side_total(s),
    decreases s.len(),
{
    if s.len() > 0 {
        lemma_drop_empty_total(s.drop_last());
        let d = drop_empty(s.drop_last());
        if s.last().1.len() > 0 {
            assert(d.push(s.last()).drop_last() =~= d);
        } else {
            assert(queue_total(s.last().1) == 0);
        }
    }
}

/// Queuing an order adds its quantity to the total of a side.
pub proof fn lemma_insert_total(levels: Seq<LevelView>, side: Side, price: u64, o: BookOrder)
    ensures
        side_total(insert_order(levels, side, price, o)) == side_total(levels) + o.qty,
    decreases levels.len(),
{
    let r = insert_order(levels, side, price, o);
    let single = seq![o];
    assert(single.drop_last() =~= Seq::<BookOrder>::empty());
    assert(queue_total(Seq::<BookOrder>::empty()) == 0);
    assert(single.last() == o);
    assert(queue_total(single) == o.qty);
    lemma_side_total_front(r);
    if levels.len() == 0 {
        assert(r.drop_first() =~= seq![]);
    } else {
        lemma_side_total_front(levels);
        if levels[0].0 == price {
            assert(levels[0].1.push(o).drop_last() =~= levels[0].1);
            assert(r.drop_first() =~= levels.drop_first());
        } else if better(side, levels[0].0, price) {
            lemma_insert_total(levels.drop_first(), side, price, o);
            assert(r.drop_first() =~= insert_order(levels.drop_first(), side, price, o));
        } else {
            assert(r.drop_first() =~= levels);
        }
    }
}

/// Every unit of an order is accounted for: the trade reports as traded
/// exactly the total of its fills, each fill of positive quantity, taken by
/// the order's product on the order's side, and, for a limit order, at a
/// price that is not beyond its limit; traded and remaining quantities add up to the
/// order's quantity. The traded quantity leaves the opposite side of the
/// book; the remainder of a limit order joins its own side under the book's
/// next identifier, and a market order's remainder is dropped.
pub proof fn lemma_execute_accounts(b: BookView, order: Order)
    ensures
        ({
            let (nb, t) = execute_spec(b, order);
            &&& t.qty + t.remain == order.qty
            &&& fills_total(t.fills) == t.qty
            &&& forall|k: int| 0 <= k < t.fills.len() ==> fill_ok(#[trigger] t.fills[k], order.prod, order.side,
                if order.kind == OrderType::LimitOrder { Some(order.price) } else { None })
            &&& side_total(opposite_levels(nb, order.side)) + t.qty == side_total(opposite_levels(b, order.side))
            &&& if order.kind == OrderType::LimitOrder && t.remain > 0 {
                &&& t.id == Some(b.orderid)
                &&& side_total(own_levels(nb, order.side)) == side_total(own_levels(b, order.side)) + t.remain
            } else {
                &&& t.id is None
                &&& own_levels(nb, order.side) == own_levels(b, order.side)
            }
        }),
{
    let limit = match order.kind {
        OrderType::MarketOrder => None,
        OrderType::LimitOrder => Some(order.price),
    };
    let opp = opposite_levels(b, order.side);
    let m = side_match(opp, order.qty, order.prod, order.side, limit);
    lemma_side_match_accounts(opp, order.qty, order.prod, order.side, limit);
    lemma_drop_empty_total(m.levels);
    if order.kind == OrderType::LimitOrder && m.left > 0 {
        let o = BookOrder { id: b.orderid, qty: m.left, kind: OrderType::LimitOrder };
        lemma_insert_total(own_levels(b, order.side), order.side, order.price, o);
    }
}

/// Matching with no limit leaves something wanted only after using every
/// level up.
pub proof fn lemma_unlimited_match_exhausts(levels: Seq<LevelView>, want: u64, id: u32, taker: Side)
    ensures
        side_match(levels, want, id, taker, None).levels.len() == levels.len(),
        side_match(levels, want, id, taker, None).left > 0 ==>
            forall|i: int| 0 <= i < levels.len() ==> (#[trigger] side_match(levels, want, id, taker, None).levels[i]).1.len() == 0,
    decreases levels.len(),
{
    let m = side_match(levels, want, id, taker, None);
    lemma_side_match_tails(levels, want, id, taker, None);
    if levels.len() > 0 && m.left > 0 {
        let q = levels[0].1;
        let t = levels.drop_first();
        if q.len() == 0 {
            lemma_unlimited_match_exhausts(t, want, id, taker);
            let r = side_match(t, want, id, taker, None);
            assert(m.levels == seq![levels[0]] + r.levels);
            assert forall|i: int| 0 <= i < levels.len() implies (#[trigger] m.levels[i]).1.len() == 0 by {
                if i > 0 {
                    assert(m.levels[i] == r.levels[i - 1]);
                }
            }
        } else {
            let o = queue_match(q, want, id, taker);
            lemma_queue_match_exhausts(q, want, id, taker);
            lemma_queue_match_accounts(q, want, id, taker);
            lemma_side_match_accounts(t, o.left, id, taker, None);
            lemma_unlimited_match_exhausts(t, o.left, id, taker);
            let r = side_match(t, o.left, id, taker, None);
            assert(want > 0);
            assert(m.levels == seq![(levels[0].0, o.rest)] + r.levels);
            assert(r.left > 0);
            assert(o.rest.len() == 0);
            assert forall|i: int| 0 <= i < levels.len() implies (#[trigger] m.levels[i]).1.len() == 0 by {
                if i > 0 {
                    assert(m.levels[i] == r.levels[i - 1]);
                }
            }
        }
    }
}

/// A side whose levels are all empty holds nothing.
pub proof fn lemma_empty_levels_total(s: Seq<LevelView>)
    requires
        forall|i: int| 0 <= i < s.len() ==> (#[trigger] s[i]).1.len() == 0,
    ensures
        side_total(s) == 0,
    decreases s.len(),
{
    if s.len() > 0 {
        let d = s.drop_last();
        assert forall|i: int| 0 <= i < d.len() implies (#[trigger] d[i]).1.len() == 0 by {
            assert(d[i] == s[i]);
        }
        lemma_empty_levels_total(d);
        assert(s.last().1 =~= Seq::<BookOrder>::empty());
    }
}

/// A market order does not look at its price: executing it with any other
/// price gives the same book and the same trade.
pub proof fn lemma_market_ignores_price(b: BookView, order: Order, price: u64)
    requires
        order.kind == OrderType::MarketOrder,
    ensures
        execute_spec(b, order) == execute_spec(b, Order { price, ..order }),
{
}

/// A market order trades as much as it can: the smaller of its quantity and
/// all that rests on the opposite side; it keeps something back only when it
/// leaves the opposite side empty; its own side does not change, and it is
/// given no identifier.
pub proof fn lemma_market_takes_all_it_can(b: BookView, order: Order)
    requires
        order.kind == OrderType::MarketOrder,
    ensures
        ({
            let (nb, t) = execute_spec(b, order);
            let before = side_total(opposite_levels(b, order.side));
            &&& t.remain > 0 ==> side_total(opposite_levels(nb, order.side)) == 0
            &&& t.qty == (if order.qty <= before { order.qty as nat } else { before })
            &&& t.qty + t.remain == order.qty
            &&& own_levels(nb, order.side) == own_levels(b, order.side)
            &&& nb.orderid == b.orderid
            &&& t.id is None
        }),
{
    let (nb, t) = execute_spec(b, order);
    let opp = opposite_levels(b, order.side);
    let m = side_match(opp, order.qty, order.prod, order.side, None);
    lemma_execute_accounts(b, order);
    lemma_side_match_accounts(opp, order.qty, order.prod, order.side, None);
    lemma_drop_empty_total(m.levels);
    if m.left > 0 {
        lemma_unlimited_match_exhausts(opp, order.qty, order.prod, order.side);
        assert forall|i: int| 0 <= i < m.levels.len() implies (#[trigger] m.levels[i]).1.len() == 0 by {
            assert(side_match(opp, order.qty, order.prod, order.side, None).levels[i].1.len() == 0);
        }
        lemma_empty_levels_total(m.levels);
    }
}

/// Whatever a limit order does not trade rests on its own side at the
/// order's own limit price, behind the orders already resting at that
/// price (or alone in a new level), under the book's next identifier; an
/// order that trades entirely leaves its own side as it was.
pub proof fn lemma_limit_remainder_rests(b: BookView, order: Order)
    requires
        order.kind == OrderType::LimitOrder,
        b.wf(),
        b.orderid < u64::MAX,
    ensures
        ({
            let (nb, t) = execute_spec(b, order);
            let own = own_levels(b, order.side);
            let nown = own_levels(nb, order.side);
            let o = BookOrder { id: b.orderid, qty: t.remain, kind: OrderType::LimitOrder };
            &&& t.remain > 0 ==> {
                &&& t.id == Some(b.orderid)
                &&& nb.orderid == b.orderid + 1
                &&& exists|i: int| 0 <= i < nown.len() && #[trigger] nown[i].0 == order.price && {
                    ||| exists|j: int| 0 <= j < own.len() && #[trigger] own[j].0 == order.price && nown[i].1 == own[j].1.push(o)
                    ||| (forall|j: int| 0 <= j < own.len() ==> #[trigger] own[j].0 != order.price) && nown[i].1 == seq![o]
                }
            }
            &&& t.remain == 0 ==> t.id is None && nown == own && nb.orderid == b.orderid
        }),
{
    let (nb, t) = execute_spec(b, order);
    let own = own_levels(b, order.side);
    let nown = own_levels(nb, order.side);
    let price = order.price;
    let opp = opposite_levels(b, order.side);
    let m = side_match(opp, order.qty, order.prod, order.side, Some(price));
    if m.left > 0 {
        let o = BookOrder { id: b.orderid, qty: m.left, kind: OrderType::LimitOrder };
        assert(nown == insert_order(own, order.side, price, o));
        let i = lemma_insertion_index(own, order.side, price);
        lemma_insert_at(own, order.side, price, o, i);
        assert(side_wf(own, order.side));
        assert(t.remain == m.left);
        if i < own.len() && own[i].0 == price {
            assert(nown[i] == (price, own[i].1.push(o)));
            assert(nown[i].0 == order.price);
            assert(own[i].0 == order.price && nown[i].1 == own[i].1.push(o));
        } else {
            assert(nown[i] == (price, seq![o]));
            assert forall|j: int| 0 <= j < own.len() implies #[trigger] own[j].0 != order.price by {
                if j < i {
                    assert(better(order.side, own[j].0, price));
                } else {
                    assert(better(order.side, own[i].0, own[j].0) || i == j);
                }
            }
            assert(nown[i].0 == order.price);
            assert(nown[i].1 == seq![o]);
        }
    } else {
        assert(t.remain == 0);
        assert(nown == own);
    }
}

} // verus!
