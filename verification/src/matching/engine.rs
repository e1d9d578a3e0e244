use vstd::prelude::*;
use crate::data::fill::Fill;
use crate::data::orders::BookOrder;
use crate::data::side::Side;
use crate::orderbook::{PriceLevel, LevelView, levels_view};

verus! {

/// What matching against one FIFO queue leaves behind.
pub struct QueueOutcome {
    /// The queue after matching.
    pub rest: Seq<BookOrder>,
    /// The fills, in the order in which they happened.
    pub fills: Seq<Fill>,
    /// The quantity that is still wanted.
    pub left: u64,
}

/// The fill of `traded` units of the resting order `maker` by the taker `id`,
/// before the price of the level is known.
pub open spec fn fill_of(id: u32, maker: BookOrder, traded: u64, side: Side, total: bool) -> Fill {
    Fill {
        taker: id as u128,
        other: maker.id as u128,
        qty: traded,
        price: 0,
        taker_side: side,
        total_fill: total,
    }
}

/// Matching `want` units against the queue `q`, oldest order first.
///
/// Orders of quantity zero are dropped; an order that the wanted quantity
/// covers is filled totally and leaves the queue; the first order that it
/// does not cover is filled partially and stays at the head with what is left.
pub open spec fn queue_match(q: Seq<BookOrder>, want: u64, id: u32, side: Side) -> QueueOutcome
    decreases q.len(),
{
    if q.len() == 0 || want == 0 {
        QueueOutcome { rest: q, fills: seq![], left: want }
    } else {
        let h = q[0];
        if h.qty == 0 {
            queue_match(q.drop_first(), want, id, side)
        } else if want >= h.qty {
            let r = queue_match(q.drop_first(), (want - h.qty) as u64, id, side);
            QueueOutcome {
                rest: r.rest,
                fills: seq![fill_of(id, h, h.qty, side, true)] + r.fills,
                left: r.left,
            }
        } else {
            QueueOutcome {
                rest: q.update(0, BookOrder { qty: (h.qty - want) as u64, ..h }),
                fills: seq![fill_of(id, h, want, side, false)],
                left: 0,
            }
        }
    }
}

/// Matches `remaining_qty` units for the taker `id` against the queue
/// `opposite_orders`, appends one fill per traded resting order to `fills`,
/// removes the orders that were used up, and returns the quantity traded.
/// A queue does not know its price: the fills it appends carry price 0, and
/// [`gmatch`] sets the price of the level on them.
pub fn process_queue(
    opposite_orders: &mut Vec<BookOrder>,
    remaining_qty: u64,
    id: u32,
    side: Side,
    fills: &mut Vec<Fill>,
) -> (filled_qty: u64)
    ensures
        ({
            let o = queue_match(old(opposite_orders)@, remaining_qty, id, side);
            &&& final(opposite_orders)@ == o.rest
            &&& final(fills)@ == old(fills)@ + o.fills
            &&& o.left <= remaining_qty
            &&& filled_qty == remaining_qty - o.left
        }),
{
    let ghost orig = opposite_orders@;
    let ghost old_fills = fills@;
    let ghost total = queue_match(orig, remaining_qty, id, side);
    let ghost mut acc: Seq<Fill> = seq![];
    let n = opposite_orders.len();
    let mut qty_to_fill = remaining_qty;
    let mut filled_qty: u64 = 0;
    let mut i: usize = 0;
    let mut partial: Option<u64> = None;
    proof {
        assert(orig.skip(0) =~= orig);
        assert(acc + total.fills =~= total.fills);
    }
    while i < n && qty_to_fill > 0
        invariant
            n == orig.len(),
            opposite_orders@ == orig,
            i <= n,
            total == queue_match(orig, remaining_qty, id, side),
            qty_to_fill <= remaining_qty,
            filled_qty == remaining_qty - qty_to_fill,
            fills@ == old_fills + acc,
            partial is None ==> ({
                let here = queue_match(orig.skip(i as int), qty_to_fill, id, side);
                &&& total.rest == here.rest
                &&& total.left == here.left
                &&& total.fills == acc + here.fills
            }),
            partial matches Some(nq) ==> {
                &&& i < n
                &&& qty_to_fill == 0
                &&& total.rest == orig.skip(i as int).update(0, BookOrder { qty: nq, ..orig[i as int] })
                &&& total.left == 0
                &&& total.fills == acc
            },
        decreases n - i, qty_to_fill,
    {
        let head = opposite_orders[i];
        proof {
            assert(orig.skip(i as int)[0] == head);
            assert(orig.skip(i as int).drop_first() =~= orig.skip(i + 1));
        }
        if head.qty == 0 {
            i += 1;
        } else if qty_to_fill >= head.qty {
            let f = Fill {
                taker: id as u128,
                other: head.id as u128,
                qty: head.qty,
                price: 0,
                taker_side: side,
                total_fill: true,
            };
            fills.push(f);
            proof {
                assert(f == fill_of(id, head, head.qty, side, true));
                assert(acc.push(f) + queue_match(orig.skip(i + 1), (qty_to_fill - head.qty) as u64, id, side).fills
                    =~= acc + (seq![f] + queue_match(orig.skip(i + 1), (qty_to_fill - head.qty) as u64, id, side).fills));
                acc = acc.push(f);
            }
            qty_to_fill = qty_to_fill - head.qty;
            filled_qty = filled_qty + head.qty;
            i += 1;
        } else {
            let traded = qty_to_fill;
            let f = Fill {
                taker: id as u128,
                other: head.id as u128,
                qty: traded,
                price: 0,
                taker_side: side,
                total_fill: false,
            };
            fills.push(f);
            proof {
                assert(f == fill_of(id, head, traded, side, false));
                acc = acc.push(f);
            }
            partial = Some(head.qty - traded);
            qty_to_fill = 0;
            filled_qty = filled_qty + traded;
        }
    }
    match partial {
        Some(nq) => {
            let head = opposite_orders[i];
            opposite_orders.set(i, BookOrder { qty: nq, ..head });
            proof {
                assert(opposite_orders@.skip(i as int) =~= orig.skip(i as int).update(0, BookOrder { qty: nq, ..orig[i as int] }));
            }
        },
        None => {
            proof {
                assert(acc + seq![] =~= acc);
            }
        },
    }
    let rest = opposite_orders.split_off(i);
    *opposite_orders = rest;
    proof {
        assert(fills@ =~= old_fills + total.fills);
    }
    filled_qty
}

/// Matching never leaves more wanted than was asked for.
pub proof fn lemma_queue_match_left(q: Seq<BookOrder>, want: u64, id: u32, side: Side)
    ensures
        queue_match(q, want, id, side).left <= want,
    decreases q.len(),
{
    if q.len() > 0 && want > 0 {
        let h = q[0];
        if h.qty == 0 {
            lemma_queue_match_left(q.drop_first(), want, id, side);
        } else if want >= h.qty {
            lemma_queue_match_left(q.drop_first(), (want - h.qty) as u64, id, side);
        }
    }
}

/// The outcome of matching an order against one side of the book.
#[derive(Debug, Clone, Copy, PartialEq, PartialOrd)]
pub struct MatchInfo {
    /// The quantity that was not matched.
    pub remain: u64,
    /// The price of the last level whose queue was used up, if any.
    pub pivot: Option<u64>,
}

/// What matching against one side of the book leaves behind.
pub struct SideOutcome {
    /// The levels after matching, emptied ones included.
    pub levels: Seq<LevelView>,
    /// The fills, in the order in which they happened.
    pub fills: Seq<Fill>,
    /// The quantity that is still wanted.
    pub left: u64,
    /// The price of the last level whose queue was used up, if any.
    pub pivot: Option<u64>,
}

/// The fills `f`, each at price `p`.
pub open spec fn priced(f: Seq<Fill>, p: u64) -> Seq<Fill> {
    f.map_values(|x: Fill| Fill { price: p, ..x })
}

/// Sets the price of the fills from index `from` on to `price`.
fn set_prices(fills: &mut Vec<Fill>, from: usize, price: u64)
    requires
        from <= old(fills)@.len(),
    ensures
        final(fills)@ == old(fills)@.take(from as int) + priced(old(fills)@.skip(from as int), price),
{
    let ghost orig = fills@;
    let mut k = from;
    while k < fills.len()
        invariant
            from <= k <= fills@.len(),
            fills@.len() == orig.len(),
            forall|j: int| 0 <= j < from ==> #[trigger] fills@[j] == orig[j],
            forall|j: int| from <= j < k ==> #[trigger] fills@[j] == (Fill { price, ..orig[j] }),
            forall|j: int| k <= j < orig.len() ==> #[trigger] fills@[j] == orig[j],
        decreases fills@.len() - k,
    {
        let f = fills[k];
        fills.set(k, Fill { price, ..f });
        k += 1;
    }
    proof {
        assert(fills@ =~= orig.take(from as int) + priced(orig.skip(from as int), price));
    }
}

/// Whether the price `p` of a resting order is beyond the limit `lp` of a
/// taker on side `taker`: above it for a buyer, below it for a seller.
pub open spec fn beyond(taker: Side, lp: u64, p: u64) -> bool {
    match taker {
        Side::Buy => lp < p,
        Side::Sell => lp > p,
    }
}

/// Matching `want` units for the taker `id` against the levels in the order
/// given: empty levels are passed over; matching stops at the first level
/// beyond the limit, or once nothing is wanted; each level in between is
/// matched as one queue, and its fills carry the level's price.
pub open spec fn side_match(
    levels: Seq<LevelView>,
    want: u64,
    id: u32,
    taker: Side,
    limit: Option<u64>,
) -> SideOutcome
    decreases levels.len(),
{
    if levels.len() == 0 {
        SideOutcome { levels, fills: seq![], left: want, pivot: None }
    } else {
        let p = levels[0].0;
        let q = levels[0].1;
        if q.len() == 0 {
            let r = side_match(levels.drop_first(), want, id, taker, limit);
            SideOutcome { levels: seq![levels[0]] + r.levels, ..r }
        } else if (limit matches Some(lp) && beyond(taker, lp, p)) || want == 0 {
            SideOutcome { levels, fills: seq![], left: want, pivot: None }
        } else {
            let o = queue_match(q, want, id, taker);
            let r = side_match(levels.drop_first(), o.left, id, taker, limit);
            SideOutcome {
                levels: seq![(p, o.rest)] + r.levels,
                fills: priced(o.fills, p) + r.fills,
                left: r.left,
                pivot: if r.pivot is Some {
                    r.pivot
                } else if o.rest.len() == 0 {
                    Some(p)
                } else {
                    None
                },
            }
        }
    }
}

/// Matching never leaves more wanted than was asked for.
pub proof fn lemma_side_match_left(levels: Seq<LevelView>, want: u64, id: u32, taker: Side, limit: Option<u64>)
    ensures
        side_match(levels, want, id, taker, limit).left <= want,
    decreases levels.len(),
{
    if levels.len() > 0 {
        let q = levels[0].1;
        if q.len() == 0 {
            lemma_side_match_left(levels.drop_first(), want, id, taker, limit);
        } else if !((limit matches Some(lp) && beyond(taker, lp, levels[0].0)) || want == 0) {
            let o = queue_match(q, want, id, taker);
            lemma_queue_match_left(q, want, id, taker);
            lemma_side_match_left(levels.drop_first(), o.left, id, taker, limit);
        }
    }
}

/// Matches `qty` units for the taker `id` on side `taker` against `levels`,
/// best level first, up to `limit_price` where there is one; appends the
/// fills to `fills`, each at the price of the level it traded at, and leaves
/// used-up levels empty in place.
pub fn gmatch(
    levels: &mut Vec<PriceLevel>,
    taker: Side,
    id: u32,
    qty: u64,
    fills: &mut Vec<Fill>,
    limit_price: Option<u64>,
) -> (mi: MatchInfo)
    ensures
        ({
            let m = side_match(levels_view(old(levels)@), qty, id, taker, limit_price);
            &&& levels_view(final(levels)@) == m.levels
            &&& final(fills)@ == old(fills)@ + m.fills
            &&& mi.remain == m.left
            &&& mi.pivot == m.pivot
            &&& mi.remain <= qty
        }),
{
    proof {
        lemma_side_match_left(levels_view(levels@), qty, id, taker, limit_price);
    }
    let ghost orig = levels_view(levels@);
    let ghost old_fills = fills@;
    let ghost total = side_match(orig, qty, id, taker, limit_price);
    let ghost mut acc: Seq<Fill> = seq![];
    let n = levels.len();
    let mut remaining_qty = qty;
    let mut pivot: Option<u64> = None;
    let mut i: usize = 0;
    let mut stop = false;
    proof {
        assert(orig.skip(0) =~= orig);
        assert(levels_view(levels@).take(0) + total.levels =~= total.levels);
        assert(acc + total.fills =~= total.fills);
    }
    while i < n && !stop
        invariant
            n == levels@.len(),
            n == orig.len(),
            i <= n,
            total == side_match(orig, qty, id, taker, limit_price),
            fills@ == old_fills + acc,
            levels_view(levels@).skip(i as int) == orig.skip(i as int),
            ({
                let here = side_match(orig.skip(i as int), remaining_qty, id, taker, limit_price);
                &&& !stop || here == SideOutcome { levels: orig.skip(i as int), fills: seq![], left: remaining_qty, pivot: None }
                &&& total.levels == levels_view(levels@).take(i as int) + here.levels
                &&& total.fills == acc + here.fills
                &&& total.left == here.left
                &&& total.pivot == (if here.pivot is Some { here.pivot } else { pivot })
            }),
        decreases n - i, (if stop { 0int } else { 1int }),
    {
        let ghost cur = levels_view(levels@);
        let ghost sub = orig.skip(i as int);
        proof {
            assert(sub[0] == cur[i as int]);
            assert(cur[i as int] == levels@[i as int]@);
            assert(sub.drop_first() =~= orig.skip(i + 1));
        }
        let price = levels[i].price;
        if levels[i].orders.len() == 0 {
            proof {
                assert(cur.take(i + 1) =~= cur.take(i as int).push(sub[0]));
                assert(cur.skip(i + 1) =~= orig.skip(i + 1));
            }
            i += 1;
            proof {
                let here = side_match(sub, remaining_qty, id, taker, limit_price);
                let r = side_match(orig.skip(i as int), remaining_qty, id, taker, limit_price);
                assert(here.levels == seq![sub[0]] + r.levels);
                assert(levels_view(levels@).take(i as int) + r.levels =~= cur.take(i - 1) + here.levels);
            }
        } else {
            let beyond_limit = match limit_price {
                Some(lp) => match taker {
                    Side::Buy => lp < price,
                    Side::Sell => lp > price,
                },
                None => false,
            };
            if beyond_limit || remaining_qty == 0 {
                stop = true;
                proof {
                    assert(cur.take(i as int) + sub =~= cur.take(i as int) + cur.skip(i as int));
                    assert(cur.take(i as int) + cur.skip(i as int) =~= cur);
                    assert(acc + seq![] =~= acc);
                }
            } else {
                let ghost q = sub[0].1;
                let ghost o = queue_match(q, remaining_qty, id, taker);
                let from = fills.len();
                let filled_qty = process_queue(&mut levels[i].orders, remaining_qty, id, taker, fills);
                proof {
                    assert(fills@.take(from as int) =~= old_fills + acc);
                    assert(fills@.skip(from as int) =~= o.fills);
                }
                set_prices(fills, from, price);
                if levels[i].orders.len() == 0 {
                    pivot = Some(price);
                }
                remaining_qty = remaining_qty - filled_qty;
                i += 1;
                proof {
                    let nv = levels_view(levels@);
                    assert(nv =~= cur.update(i - 1, (price, o.rest)));
                    assert(nv.skip(i as int) =~= orig.skip(i as int));
                    assert(nv.take(i as int) =~= cur.take(i - 1).push((price, o.rest)));
                    let r = side_match(orig.skip(i as int), remaining_qty, id, taker, limit_price);
                    let here = side_match(sub, (remaining_qty + filled_qty) as u64, id, taker, limit_price);
                    assert(here.levels == seq![(price, o.rest)] + r.levels);
                    assert(nv.take(i as int) + r.levels =~= cur.take(i - 1) + here.levels);
                    assert(acc + priced(o.fills, price) + r.fills =~= acc + here.fills);
                    assert(fills@ =~= old_fills + (acc + priced(o.fills, price)));
                    acc = acc + priced(o.fills, price);
                }
            }
        }
    }
    proof {
        let here = side_match(orig.skip(i as int), remaining_qty, id, taker, limit_price);
        if !stop {
            assert(orig.skip(i as int).len() == 0);
            assert(levels_view(levels@).take(i as int) =~= levels_view(levels@));
            assert(levels_view(levels@) + orig.skip(i as int) =~= levels_view(levels@));
            assert(acc + here.fills =~= acc);
        }
    }
    MatchInfo { remain: remaining_qty, pivot }
}

/// Matching one queue keeps every order it leaves with a positive quantity,
/// and leaves the queue empty when it could not cover what was wanted.
pub proof fn lemma_queue_match_rest(q: Seq<BookOrder>, want: u64, id: u32, side: Side)
    requires
        forall|k: int| 0 <= k < q.len() ==> (#[trigger] q[k]).qty > 0,
    ensures
        ({
            let o = queue_match(q, want, id, side);
            &&& forall|k: int| 0 <= k < o.rest.len() ==> (#[trigger] o.rest[k]).qty > 0
            &&& o.left > 0 ==> o.rest.len() == 0
            &&& o.rest.len() <= q.len()
        }),
    decreases q.len(),
{
    if q.len() > 0 && want > 0 {
        let h = q[0];
        let t = q.drop_first();
        assert forall|k: int| 0 <= k < t.len() implies (#[trigger] t[k]).qty > 0 by {
            assert(t[k] == q[k + 1]);
        }
        if want >= h.qty {
            lemma_queue_match_rest(t, (want - h.qty) as u64, id, side);
        }
    }
}

/// Matching one side keeps the prices of its levels and the positive
/// quantities of its orders. Where every level held orders, a level is left
/// empty only if a pivot is reported; and where the taker is left wanting,
/// every level that still holds orders is beyond the limit.
#[verifier::spinoff_prover]
#[verifier::rlimit(40)]
pub proof fn lemma_side_match_shape(levels: Seq<LevelView>, want: u64, id: u32, taker: Side, limit: Option<u64>)
    requires
        forall|i: int, k: int| 0 <= i < levels.len() && 0 <= k < levels[i].1.len() ==> (#[trigger] levels[i].1[k]).qty > 0,
    ensures
        ({
            let m = side_match(levels, want, id, taker, limit);
            &&& m.levels.len() == levels.len()
            &&& forall|i: int| 0 <= i < levels.len() ==> (#[trigger] m.levels[i]).0 == levels[i].0
            &&& forall|i: int, k: int| 0 <= i < m.levels.len() && 0 <= k < m.levels[i].1.len() ==> (#[trigger] m.levels[i].1[k]).qty > 0
            &&& (m.pivot is None && (forall|i: int| 0 <= i < levels.len() ==> (#[trigger] levels[i]).1.len() > 0))
                ==> (forall|i: int| 0 <= i < m.levels.len() ==> (#[trigger] m.levels[i]).1.len() > 0)
            &&& (m.left > 0 && limit is Some && sorted_for_taker(levels, taker))
                ==> (forall|i: int| 0 <= i < m.levels.len() && (#[trigger] m.levels[i]).1.len() > 0 ==> beyond(taker, limit->0, m.levels[i].0))
        }),
    decreases levels.len(),
{
    let m = side_match(levels, want, id, taker, limit);
    if levels.len() > 0 {
        let p = levels[0].0;
        let q = levels[0].1;
        let t = levels.drop_first();
        assert forall|i: int, k: int| 0 <= i < t.len() && 0 <= k < t[i].1.len() implies (#[trigger] t[i].1[k]).qty > 0 by {
            assert(t[i] == levels[i + 1]);
        }
        assert(sorted_for_taker(levels, taker) ==> sorted_for_taker(t, taker)) by {
            if sorted_for_taker(levels, taker) {
                assert forall|i: int, j: int| 0 <= i < j < t.len() implies order_for(taker, #[trigger] t[i].0, #[trigger] t[j].0) by {
                    assert(t[i] == levels[i + 1]);
                    assert(t[j] == levels[j + 1]);
                }
            }
        }
        if q.len() == 0 {
            lemma_side_match_shape(t, want, id, taker, limit);
            let r = side_match(t, want, id, taker, limit);
            assert forall|i: int| 0 <= i < levels.len() implies (#[trigger] m.levels[i]).0 == levels[i].0 by {
                if i > 0 {
                    assert(m.levels[i] == r.levels[i - 1]);
                }
            }
            assert forall|i: int, k: int| 0 <= i < m.levels.len() && 0 <= k < m.levels[i].1.len() implies (#[trigger] m.levels[i].1[k]).qty > 0 by {
                if i > 0 {
                    assert(m.levels[i] == r.levels[i - 1]);
                    assert(m.levels[i].1[k] == r.levels[i - 1].1[k]);
                } else {
                    assert(m.levels[0] == levels[0]);
                    assert(m.levels[0].1[k] == levels[0].1[k]);
                }
            }
            if m.left > 0 && limit is Some && sorted_for_taker(levels, taker) {
                assert forall|i: int| 0 <= i < m.levels.len() && (#[trigger] m.levels[i]).1.len() > 0 implies beyond(taker, limit->0, m.levels[i].0) by {
                    assert(m.levels[i] == r.levels[i - 1]);
                }
            }
        } else if (limit matches Some(lp) && beyond(taker, lp, p)) || want == 0 {
            if m.left > 0 && limit is Some && sorted_for_taker(levels, taker) {
                assert forall|i: int| 0 <= i < m.levels.len() && (#[trigger] m.levels[i]).1.len() > 0 implies beyond(taker, limit->0, m.levels[i].0) by {
                    if i > 0 {
                        assert(order_for(taker, levels[0].0, levels[i].0));
                    }
                }
            }
        } else {
            let o = queue_match(q, want, id, taker);
            assert forall|k: int| 0 <= k < q.len() implies (#[trigger] q[k]).qty > 0 by {
                assert(levels[0].1[k] == q[k]);
            }
            lemma_queue_match_rest(q, want, id, taker);
            lemma_queue_match_left(q, want, id, taker);
            lemma_side_match_shape(t, o.left, id, taker, limit);
            lemma_side_match_left(t, o.left, id, taker, limit);
            let r = side_match(t, o.left, id, taker, limit);
            assert(m.levels == seq![(p, o.rest)] + r.levels);
            assert forall|i: int| 0 <= i < levels.len() implies (#[trigger] m.levels[i]).0 == levels[i].0 by {
                if i > 0 {
                    assert(m.levels[i] == r.levels[i - 1]);
                }
            }
            assert forall|i: int, k: int| 0 <= i < m.levels.len() && 0 <= k < m.levels[i].1.len() implies (#[trigger] m.levels[i].1[k]).qty > 0 by {
                if i > 0 {
                    assert(m.levels[i] == r.levels[i - 1]);
                    assert(m.levels[i].1[k] == r.levels[i - 1].1[k]);
                } else {
                    assert(m.levels[0].1 == o.rest);
                    assert(m.levels[0].1[k] == o.rest[k]);
                }
            }
            if m.pivot is None && (forall|i: int| 0 <= i < levels.len() ==> (#[trigger] levels[i]).1.len() > 0) {
                assert forall|i: int| 0 <= i < t.len() implies (#[trigger] t[i]).1.len() > 0 by {
                    assert(t[i] == levels[i + 1]);
                }
                assert forall|i: int| 0 <= i < m.levels.len() implies (#[trigger] m.levels[i]).1.len() > 0 by {
                    if i > 0 {
                        assert(m.levels[i] == r.levels[i - 1]);
                    }
                }
            }
            if m.left > 0 && limit is Some && sorted_for_taker(levels, taker) {
                assert forall|i: int| 0 <= i < m.levels.len() && (#[trigger] m.levels[i]).1.len() > 0 implies beyond(taker, limit->0, m.levels[i].0) by {
                    if i > 0 {
                        assert(m.levels[i] == r.levels[i - 1]);
                    } else {
                        assert(o.left > 0);
                    }
                }
            }
        }
    }
}

/// The order in which the levels that a taker of side `taker` trades
/// against are kept: ascending prices for a buyer, descending for a seller.
pub open spec fn order_for(taker: Side, a: u64, b: u64) -> bool {
    match taker {
        Side::Buy => a < b,
        Side::Sell => a > b,
    }
}

/// The levels are in the order in which a taker of side `taker` meets them.
pub open spec fn sorted_for_taker(levels: Seq<LevelView>, taker: Side) -> bool {
    forall|i: int, j: int| 0 <= i < j < levels.len() ==> order_for(taker, #[trigger] levels[i].0, #[trigger] levels[j].0)
}

} // verus!
