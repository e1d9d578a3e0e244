//! Identifiers of resting orders: every order on the book has its own
//! identifier, below the identifier that the next order will get.
use vstd::prelude::*;
use crate::data::orders::BookOrder;
use crate::data::side::Side;
use crate::data::orders::{Order, OrderType};
use crate::matching::engine::{queue_match, side_match, beyond};
use crate::orderbook::{LevelView, BookView, better, side_wf, drop_empty, side_after, insert_order, lemma_insert_at,
    execute_spec, rests};
use crate::priority::lemma_price_priority;
use crate::matching::engine::lemma_side_match_shape;

verus! {

/// `(i, k)` names an order of `s`: the `k`-th of the `i`-th level.
pub open spec fn at(s: Seq<LevelView>, i: int, k: int) -> bool {
    0 <= i < s.len() && 0 <= k < s[i].1.len()
}

/// The identifier of the order at `(i, k)`.
pub open spec fn id_of(s: Seq<LevelView>, i: int, k: int) -> u64 {
    s[i].1[k].id
}

/// Every order of `s` has an identifier below `n`.
pub open spec fn ids_below(s: Seq<LevelView>, n: u64) -> bool {
    forall|i: int, k: int| at(s, i, k) ==> #[trigger] id_of(s, i, k) < n
}

/// No two orders of `s` share an identifier.
pub open spec fn ids_unique(s: Seq<LevelView>) -> bool {
    forall|i: int, k: int, j: int, l: int|
        at(s, i, k) && at(s, j, l) && #[trigger] id_of(s, i, k) == #[trigger] id_of(s, j, l) ==> i == j && k == l
}

/// No order of `a` shares an identifier with an order of `b`.
pub open spec fn ids_apart(a: Seq<LevelView>, b: Seq<LevelView>) -> bool {
    forall|i: int, k: int, j: int, l: int|
        at(a, i, k) && at(b, j, l) ==> #[trigger] id_of(a, i, k) != #[trigger] id_of(b, j, l)
}

/// Every order of `new` is an order of `old`, found at `(fi(i), fk(i, k))`,
/// and no two orders of `new` are found at the same place.
pub open spec fn embeds(new: Seq<LevelView>, old: Seq<LevelView>, fi: spec_fn(int) -> int, fk: spec_fn(int, int) -> int) -> bool {
    &&& forall|i: int, k: int| #![trigger id_of(new, i, k)] at(new, i, k) ==> at(old, fi(i), fk(i, k)) && id_of(new, i, k) == id_of(old, fi(i), fk(i, k))
    &&& forall|i: int, k: int, j: int, l: int|
        #![trigger id_of(new, i, k), id_of(new, j, l)]
        at(new, i, k) && at(new, j, l) && fi(i) == fi(j) && fk(i, k) == fk(j, l) ==> i == j && k == l
}

/// Like [`embeds`], except for the one order at `(ni, nk)`, whose
/// identifier is `fresh`.
pub open spec fn embeds_but(
    new: Seq<LevelView>,
    old: Seq<LevelView>,
    fi: spec_fn(int) -> int,
    fk: spec_fn(int, int) -> int,
    ni: int,
    nk: int,
    fresh: u64,
) -> bool {
    &&& at(new, ni, nk)
    &&& id_of(new, ni, nk) == fresh
    &&& forall|i: int, k: int| #![trigger id_of(new, i, k)] at(new, i, k) && !(i == ni && k == nk) ==> at(old, fi(i), fk(i, k)) && id_of(new, i, k) == id_of(old, fi(i), fk(i, k))
    &&& forall|i: int, k: int, j: int, l: int|
        #![trigger id_of(new, i, k), id_of(new, j, l)]
        at(new, i, k) && at(new, j, l) && !(i == ni && k == nk) && !(j == ni && l == nk) && fi(i) == fi(j) && fk(i, k) == fk(j, l)
            ==> i == j && k == l
}

/// What holds of the identifiers of `old` holds of those of a side that it
/// embeds.
pub proof fn lemma_embeds_keeps(
    new: Seq<LevelView>,
    old: Seq<LevelView>,
    fi: spec_fn(int) -> int,
    fk: spec_fn(int, int) -> int,
    n: u64,
    c: Seq<LevelView>,
)
    requires
        embeds(new, old, fi, fk),
    ensures
        ids_below(old, n) ==> ids_below(new, n),
        ids_unique(old) ==> ids_unique(new),
        ids_apart(old, c) ==> ids_apart(new, c),
        ids_apart(c, old) ==> ids_apart(c, new),
{
    if ids_below(old, n) {
        assert forall|i: int, k: int| at(new, i, k) implies #[trigger] id_of(new, i, k) < n by {
            assert(id_of(new, i, k) == id_of(old, fi(i), fk(i, k)));
            assert(id_of(old, fi(i), fk(i, k)) < n);
        }
    }
    if ids_unique(old) {
        assert forall|i: int, k: int, j: int, l: int|
            at(new, i, k) && at(new, j, l) && #[trigger] id_of(new, i, k) == #[trigger] id_of(new, j, l) implies i == j && k == l by {
            assert(id_of(new, i, k) == id_of(old, fi(i), fk(i, k)));
            assert(id_of(new, j, l) == id_of(old, fi(j), fk(j, l)));
        }
    }
    if ids_apart(old, c) {
        assert forall|i: int, k: int, j: int, l: int| at(new, i, k) && at(c, j, l) implies #[trigger] id_of(new, i, k) != #[trigger] id_of(c, j, l) by {
            assert(id_of(new, i, k) == id_of(old, fi(i), fk(i, k)));
            assert(id_of(c, j, l) == id_of(c, j, l));
        }
    }
    if ids_apart(c, old) {
        assert forall|i: int, k: int, j: int, l: int| at(c, i, k) && at(new, j, l) implies #[trigger] id_of(c, i, k) != #[trigger] id_of(new, j, l) by {
            assert(id_of(new, j, l) == id_of(old, fi(j), fk(j, l)));
            assert(id_of(c, i, k) == id_of(c, i, k));
        }
    }
}

/// What holds of the identifiers of `old`, all below `n`, holds of those of
/// a side that embeds it but for one order of identifier `n`; that side's
/// identifiers are below `n + 1`.
pub proof fn lemma_embeds_but_keeps(
    new: Seq<LevelView>,
    old: Seq<LevelView>,
    fi: spec_fn(int) -> int,
    fk: spec_fn(int, int) -> int,
    ni: int,
    nk: int,
    n: u64,
    c: Seq<LevelView>,
)
    requires
        embeds_but(new, old, fi, fk, ni, nk, n),
        ids_below(old, n),
        n < u64::MAX,
    ensures
        ids_below(new, (n + 1) as u64),
        ids_unique(old) ==> ids_unique(new),
        ids_apart(old, c) && ids_below(c, n) ==> ids_apart(new, c) && ids_apart(c, new),
{
    assert forall|i: int, k: int| at(new, i, k) implies #[trigger] id_of(new, i, k) < n + 1 by {
        if !(i == ni && k == nk) {
            assert(id_of(new, i, k) == id_of(old, fi(i), fk(i, k)));
            assert(id_of(old, fi(i), fk(i, k)) < n);
        }
    }
    if ids_unique(old) {
        assert forall|i: int, k: int, j: int, l: int|
            at(new, i, k) && at(new, j, l) && #[trigger] id_of(new, i, k) == #[trigger] id_of(new, j, l) implies i == j && k == l by {
            if !(i == ni && k == nk) {
                assert(id_of(new, i, k) == id_of(old, fi(i), fk(i, k)));
                assert(id_of(old, fi(i), fk(i, k)) < n);
            }
            if !(j == ni && l == nk) {
                assert(id_of(new, j, l) == id_of(old, fi(j), fk(j, l)));
                assert(id_of(old, fi(j), fk(j, l)) < n);
            }
        }
    }
    if ids_apart(old, c) && ids_below(c, n) {
        assert forall|i: int, k: int, j: int, l: int| at(new, i, k) && at(c, j, l) implies #[trigger] id_of(new, i, k) != #[trigger] id_of(c, j, l) by {
            assert(id_of(c, j, l) < n);
            if !(i == ni && k == nk) {
                assert(id_of(new, i, k) == id_of(old, fi(i), fk(i, k)));
            }
        }
        assert forall|i: int, k: int, j: int, l: int| at(c, i, k) && at(new, j, l) implies #[trigger] id_of(c, i, k) != #[trigger] id_of(new, j, l) by {
            assert(id_of(c, i, k) < n);
            if !(j == ni && l == nk) {
                assert(id_of(new, j, l) == id_of(old, fi(j), fk(j, l)));
            }
        }
    }
}

/// Matching one queue leaves a tail of it, identifiers kept.
pub proof fn lemma_queue_match_tail(q: Seq<BookOrder>, want: u64, id: u32, side: Side)
    ensures
        ({
            let o = queue_match(q, want, id, side);
            &&& o.rest.len() <= q.len()
            &&& forall|k: int| 0 <= k < o.rest.len() ==> (#[trigger] o.rest[k]).id == q[k + q.len() - o.rest.len()].id
        }),
    decreases q.len(),
{
    let o = queue_match(q, want, id, side);
    if q.len() > 0 && want > 0 {
        let h = q[0];
        let t = q.drop_first();
        if h.qty == 0 || want >= h.qty {
            let w = if h.qty == 0 { want } else { (want - h.qty) as u64 };
            lemma_queue_match_tail(t, w, id, side);
            assert forall|k: int| 0 <= k < o.rest.len() implies (#[trigger] o.rest[k]).id == q[k + q.len() - o.rest.len()].id by {
                assert(t[k + t.len() - o.rest.len()] == q[k + q.len() - o.rest.len()]);
            }
        }
    }
}

/// Matching one side keeps its levels, each queue cut to a tail of itself.
pub proof fn lemma_side_match_tails(levels: Seq<LevelView>, want: u64, id: u32, taker: Side, limit: Option<u64>)
    ensures
        ({
            let m = side_match(levels, want, id, taker, limit);
            &&& m.levels.len() == levels.len()
            &&& forall|i: int| 0 <= i < levels.len() ==> (#[trigger] m.levels[i]).1.len() <= levels[i].1.len()
            &&& forall|i: int, k: int| at(m.levels, i, k) ==>
                #[trigger] id_of(m.levels, i, k) == id_of(levels, i, k + levels[i].1.len() - m.levels[i].1.len())
        }),
    decreases levels.len(),
{
    let m = side_match(levels, want, id, taker, limit);
    if levels.len() > 0 {
        let p = levels[0].0;
        let q = levels[0].1;
        let t = levels.drop_first();
        if q.len() == 0 {
            lemma_side_match_tails(t, want, id, taker, limit);
            let r = side_match(t, want, id, taker, limit);
            assert(m.levels == seq![levels[0]] + r.levels);
            assert forall|i: int| 0 <= i < levels.len() implies (#[trigger] m.levels[i]).1.len() <= levels[i].1.len() by {
                if i > 0 {
                    assert(m.levels[i] == r.levels[i - 1]);
                    assert(levels[i] == t[i - 1]);
                }
            }
            assert forall|i: int, k: int| at(m.levels, i, k) implies
                #[trigger] id_of(m.levels, i, k) == id_of(levels, i, k + levels[i].1.len() - m.levels[i].1.len()) by {
                assert(i > 0);
                assert(m.levels[i] == r.levels[i - 1]);
                assert(levels[i] == t[i - 1]);
                assert(id_of(r.levels, i - 1, k) == id_of(t, i - 1, k + t[i - 1].1.len() - r.levels[i - 1].1.len()));
            }
        } else if (limit matches Some(lp) && beyond(taker, lp, p)) || want == 0 {
        } else {
            let o = queue_match(q, want, id, taker);
            lemma_queue_match_tail(q, want, id, taker);
            lemma_side_match_tails(t, o.left, id, taker, limit);
            let r = side_match(t, o.left, id, taker, limit);
            assert(m.levels == seq![(p, o.rest)] + r.levels);
            assert forall|i: int| 0 <= i < levels.len() implies (#[trigger] m.levels[i]).1.len() <= levels[i].1.len() by {
                if i > 0 {
                    assert(m.levels[i] == r.levels[i - 1]);
                    assert(levels[i] == t[i - 1]);
                }
            }
            assert forall|i: int, k: int| at(m.levels, i, k) implies
                #[trigger] id_of(m.levels, i, k) == id_of(levels, i, k + levels[i].1.len() - m.levels[i].1.len()) by {
                if i > 0 {
                    assert(m.levels[i] == r.levels[i - 1]);
                    assert(levels[i] == t[i - 1]);
                    assert(id_of(r.levels, i - 1, k) == id_of(t, i - 1, k + t[i - 1].1.len() - r.levels[i - 1].1.len()));
                } else {
                    assert(m.levels[0].1 == o.rest);
                    assert(o.rest[k].id == q[k + q.len() - o.rest.len()].id);
                }
            }
        }
    }
}

/// Apartness goes both ways.
pub proof fn lemma_apart_sym(a: Seq<LevelView>, b: Seq<LevelView>)
    requires
        ids_apart(a, b),
    ensures
        ids_apart(b, a),
{
    assert forall|i: int, k: int, j: int, l: int| at(b, i, k) && at(a, j, l) implies #[trigger] id_of(b, i, k) != #[trigger] id_of(a, j, l) by {
        assert(id_of(a, j, l) != id_of(b, i, k));
    }
}

/// Identifiers below `n` are below any larger bound.
pub proof fn lemma_below_more(s: Seq<LevelView>, n: u64, m: u64)
    requires
        ids_below(s, n),
        n <= m,
    ensures
        ids_below(s, m),
{
    assert forall|i: int, k: int| at(s, i, k) implies #[trigger] id_of(s, i, k) < m by {
        assert(id_of(s, i, k) < n);
    }
}

/// Where the empty levels come first, dropping them drops a prefix.
pub proof fn lemma_drop_empty_prefix(s: Seq<LevelView>) -> (k: int)
    requires
        forall|i: int, j: int| 0 <= j < i < s.len() && (#[trigger] s[i]).1.len() == 0 ==> (#[trigger] s[j]).1.len() == 0,
    ensures
        0 <= k <= s.len(),
        drop_empty(s) == s.skip(k),
        forall|j: int| 0 <= j < k ==> (#[trigger] s[j]).1.len() == 0,
        forall|j: int| k <= j < s.len() ==> (#[trigger] s[j]).1.len() > 0,
    decreases s.len(),
{
    if s.len() == 0 {
        assert(s.skip(0) =~= s);
        0
    } else {
        let d = s.drop_last();
        let last = s.last();
        assert forall|i: int, j: int| 0 <= j < i < d.len() && (#[trigger] d[i]).1.len() == 0 implies (#[trigger] d[j]).1.len() == 0 by {
            assert(d[i] == s[i]);
            assert(d[j] == s[j]);
        }
        let k0 = lemma_drop_empty_prefix(d);
        if last.1.len() > 0 {
            assert(d.skip(k0).push(last) =~= s.skip(k0));
            assert forall|j: int| k0 <= j < s.len() implies (#[trigger] s[j]).1.len() > 0 by {
                if j < d.len() {
                    assert(d[j] == s[j]);
                }
            }
            assert forall|j: int| 0 <= j < k0 implies (#[trigger] s[j]).1.len() == 0 by {
                assert(d[j] == s[j]);
            }
            k0
        } else {
            assert forall|j: int| 0 <= j < s.len() implies (#[trigger] s[j]).1.len() == 0 by {
                if j < s.len() - 1 {
                    assert(s[s.len() - 1].1.len() == 0);
                }
            }
            if k0 < d.len() {
                assert(d[k0] == s[k0]);
                assert(s[k0].1.len() == 0);
            }
            assert(d.skip(k0) =~= s.skip(s.len() as int));
            s.len() as int
        }
    }
}

/// Matching a well-formed side leaves a side that it embeds.
pub proof fn lemma_side_after_embeds(levels: Seq<LevelView>, book_side: Side, want: u64, id: u32, limit: Option<u64>)
    -> (f: (spec_fn(int) -> int, spec_fn(int, int) -> int))
    requires
        side_wf(levels, book_side),
    ensures
        embeds(side_after(levels, want, id, book_side.flipped(), limit), levels, f.0, f.1),
{
    let taker = book_side.flipped();
    let m = side_match(levels, want, id, taker, limit);
    let after = side_after(levels, want, id, taker, limit);
    lemma_side_match_tails(levels, want, id, taker, limit);
    lemma_price_priority(levels, want, id, taker, limit);
    lemma_side_match_shape(levels, want, id, taker, limit);
    let ml = m.levels;
    assert forall|i: int, j: int| 0 <= j < i < ml.len() && (#[trigger] ml[i]).1.len() == 0 implies (#[trigger] ml[j]).1.len() == 0 by {
        assert(levels[i].1.len() > 0);
        assert(ml[i] != levels[i]);
    }
    let kk: int = if m.pivot is Some {
        lemma_drop_empty_prefix(ml)
    } else {
        assert(ml.skip(0) =~= ml);
        0
    };
    assert(after == ml.skip(kk));
    let fi = |i: int| i + kk;
    let fk = |i: int, k: int| k + levels[i + kk].1.len() - ml[i + kk].1.len();
    assert forall|i: int, k: int| #![trigger id_of(after, i, k)] at(after, i, k) implies at(levels, fi(i), fk(i, k))
        && id_of(after, i, k) == id_of(levels, fi(i), fk(i, k)) by {
        assert(after[i] == ml[i + kk]);
        assert(id_of(after, i, k) == id_of(ml, i + kk, k));
        assert(ml[i + kk].1.len() <= levels[i + kk].1.len());
    }
    assert forall|i: int, k: int, j: int, l: int|
        #![trigger id_of(after, i, k), id_of(after, j, l)]
        at(after, i, k) && at(after, j, l) && fi(i) == fi(j) && fk(i, k) == fk(j, l) implies i == j && k == l by {}
    (fi, fk)
}

/// Where an order would be queued: after the levels that come before `price`.
pub proof fn lemma_insertion_index(levels: Seq<LevelView>, side: Side, price: u64) -> (i: int)
    ensures
        0 <= i <= levels.len(),
        forall|j: int| 0 <= j < i ==> better(side, #[trigger] levels[j].0, price),
        i < levels.len() ==> !better(side, levels[i].0, price),
    decreases levels.len(),
{
    if levels.len() == 0 || !better(side, levels[0].0, price) {
        0
    } else {
        let t = levels.drop_first();
        let i0 = lemma_insertion_index(t, side, price);
        assert forall|j: int| 0 <= j < i0 + 1 implies better(side, #[trigger] levels[j].0, price) by {
            if j > 0 {
                assert(levels[j] == t[j - 1]);
            }
        }
        if i0 + 1 < levels.len() {
            assert(levels[i0 + 1] == t[i0]);
        }
        i0 + 1
    }
}

/// Queuing an order embeds the side but for the new order.
pub proof fn lemma_insert_embeds(levels: Seq<LevelView>, side: Side, price: u64, o: crate::data::orders::BookOrder)
    -> (f: (spec_fn(int) -> int, spec_fn(int, int) -> int, int, int))
    ensures
        embeds_but(insert_order(levels, side, price, o), levels, f.0, f.1, f.2, f.3, o.id),
{
    let r = insert_order(levels, side, price, o);
    let i = lemma_insertion_index(levels, side, price);
    lemma_insert_at(levels, side, price, o, i);
    if i < levels.len() && levels[i].0 == price {
        assert(r.len() == levels.len());
        assert forall|j: int| 0 <= j < r.len() && j != i implies #[trigger] r[j] == levels[j] by {}
        assert(r[i] == (price, levels[i].1.push(o)));
        let fi = |j: int| j;
        let fk = |j: int, l: int| l;
        let nk = levels[i].1.len() as int;
        assert(id_of(r, i, nk) == o.id);
        assert forall|j: int, l: int| #![trigger id_of(r, j, l)] at(r, j, l) && !(j == i && l == nk) implies at(levels, fi(j), fk(j, l))
            && id_of(r, j, l) == id_of(levels, fi(j), fk(j, l)) by {
            if j != i {
                assert(r[j] == levels[j]);
            } else {
                assert(r[i].1[l] == levels[i].1[l]);
            }
        }
        (fi, fk, i, nk)
    } else {
        assert(r.len() == levels.len() + 1);
        assert forall|j: int| 0 <= j < i implies #[trigger] r[j] == levels[j] by {}
        assert forall|j: int| i < j < r.len() implies #[trigger] r[j] == levels[j - 1] by {}
        assert(r[i] == (price, seq![o]));
        let fi = |j: int| if j < i { j } else { j - 1 };
        let fk = |j: int, l: int| l;
        assert(id_of(r, i, 0) == o.id);
        assert forall|j: int, l: int| #![trigger id_of(r, j, l)] at(r, j, l) && !(j == i && l == 0) implies at(levels, fi(j), fk(j, l))
            && id_of(r, j, l) == id_of(levels, fi(j), fk(j, l)) by {
            if j < i {
                assert(r[j] == levels[j]);
            } else if j > i {
                assert(r[j] == levels[j - 1]);
            }
        }
        (fi, fk, i, 0)
    }
}

/// The identifiers of the book: each resting order has its own, and all are
/// below the identifier that the next resting order gets.
pub open spec fn ids_ok(b: BookView) -> bool {
    &&& ids_below(b.asks, b.orderid)
    &&& ids_below(b.bids, b.orderid)
    &&& ids_unique(b.asks)
    &&& ids_unique(b.bids)
    &&& ids_apart(b.asks, b.bids)
}

/// Executing an order keeps the identifiers of the resting orders distinct
/// and below the identifier that the next resting order gets.
pub proof fn lemma_execute_keeps_ids(b: BookView, order: Order)
    requires
        crate::orderbook::side_wf(b.asks, Side::Sell),
        crate::orderbook::side_wf(b.bids, Side::Buy),
        ids_ok(b),
        b.orderid < u64::MAX || !rests(b, order),
    ensures
        ids_ok(execute_spec(b, order).0),
{
    let limit = match order.kind {
        OrderType::MarketOrder => None,
        OrderType::LimitOrder => Some(order.price),
    };
    let nb = execute_spec(b, order).0;
    let n = b.orderid;
    match order.side {
        Side::Buy => {
            let m = side_match(b.asks, order.qty, order.prod, Side::Buy, limit);
            let f = lemma_side_after_embeds(b.asks, Side::Sell, order.qty, order.prod, limit);
            let asks = side_after(b.asks, order.qty, order.prod, Side::Buy, limit);
            assert(nb.asks == asks);
            lemma_embeds_keeps(asks, b.asks, f.0, f.1, n, b.bids);
            if order.kind == OrderType::LimitOrder && m.left > 0 {
                let o = crate::data::orders::BookOrder { id: n, qty: m.left, kind: OrderType::LimitOrder };
                let g = lemma_insert_embeds(b.bids, Side::Buy, order.price, o);
                let bids = insert_order(b.bids, Side::Buy, order.price, o);
                assert(nb.bids == bids);
                lemma_apart_sym(asks, b.bids);
                lemma_embeds_but_keeps(bids, b.bids, g.0, g.1, g.2, g.3, n, asks);
                lemma_below_more(asks, n, (n + 1) as u64);
                lemma_apart_sym(bids, asks);
            }
        },
        Side::Sell => {
            let m = side_match(b.bids, order.qty, order.prod, Side::Sell, limit);
            let f = lemma_side_after_embeds(b.bids, Side::Buy, order.qty, order.prod, limit);
            let bids = side_after(b.bids, order.qty, order.prod, Side::Sell, limit);
            assert(nb.bids == bids);
            lemma_apart_sym(b.asks, b.bids);
            lemma_embeds_keeps(bids, b.bids, f.0, f.1, n, b.asks);
            lemma_apart_sym(bids, b.asks);
            if order.kind == OrderType::LimitOrder && m.left > 0 {
                let o = crate::data::orders::BookOrder { id: n, qty: m.left, kind: OrderType::LimitOrder };
                let g = lemma_insert_embeds(b.asks, Side::Sell, order.price, o);
                let asks = insert_order(b.asks, Side::Sell, order.price, o);
                assert(nb.asks == asks);
                lemma_embeds_but_keeps(asks, b.asks, g.0, g.1, g.2, g.3, n, bids);
                lemma_below_more(bids, n, (n + 1) as u64);
            }
        },
    }
}

} // verus!
