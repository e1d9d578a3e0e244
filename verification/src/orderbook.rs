use vstd::prelude::*;
use crate::data::fill::Fill;
use crate::data::orders::{BookOrder, Order, OrderType};
use crate::data::side::Side;
use crate::matching::limit::{limit, limit_spec};
use crate::matching::market::{market, market_spec};
use crate::ids::{ids_ok, lemma_execute_keeps_ids};
use crate::snapshot::{queue_total, level_total, totals_fit, totals_fit_within};
use crate::text::{table, table_rows, row_count, row_text, push_row, text_of};
use crate::matching::engine::{side_match, beyond, order_for, lemma_side_match_shape};

verus! {

/// The orders that rest at one price, oldest first.
#[derive(Debug)]
pub struct PriceLevel {
    pub price: u64,
    pub orders: Vec<BookOrder>,
}

/// A price level seen as its price and its queue.
pub type LevelView = (u64, Seq<BookOrder>);

impl View for PriceLevel {
    type V = LevelView;

    open spec fn view(&self) -> LevelView {
        (self.price, self.orders@)
    }
}

/// The levels of one side of the book, each seen through its view.
pub open spec fn levels_view(s: Seq<PriceLevel>) -> Seq<LevelView> {
    s.map_values(|l: PriceLevel| l@)
}

/// Whether price `a` comes before price `b` on the side of the book where
/// orders of side `side` rest: lower first for asks (sellers), higher first
/// for bids (buyers).
pub open spec fn better(side: Side, a: u64, b: u64) -> bool {
    match side {
        Side::Sell => a < b,
        Side::Buy => a > b,
    }
}

/// The levels are strictly ordered, best price first.
pub open spec fn sorted_levels(levels: Seq<LevelView>, side: Side) -> bool {
    forall|i: int, j: int| 0 <= i < j < levels.len() ==> better(side, #[trigger] levels[i].0, #[trigger] levels[j].0)
}

/// One side of a well-formed book: strictly ordered levels, none of them
/// empty, and no resting order of quantity zero.
pub open spec fn side_wf(levels: Seq<LevelView>, side: Side) -> bool {
    &&& sorted_levels(levels, side)
    &&& forall|i: int| 0 <= i < levels.len() ==> (#[trigger] levels[i]).1.len() > 0
    &&& forall|i: int, k: int| 0 <= i < levels.len() && 0 <= k < levels[i].1.len() ==> (#[trigger] levels[i].1[k]).qty > 0
}

/// The levels that are not empty, in their order.
pub open spec fn drop_empty(s: Seq<LevelView>) -> Seq<LevelView>
    decreases s.len(),
{
    if s.len() == 0 {
        s
    } else {
        let d = drop_empty(s.drop_last());
        if s.last().1.len() > 0 {
            d.push(s.last())
        } else {
            d
        }
    }
}

/// The side `levels` (of side `side`) with the order `o` queued at `price`:
/// behind the orders of that level, or in a new level at its place in the
/// price order.
pub open spec fn insert_order(levels: Seq<LevelView>, side: Side, price: u64, o: BookOrder) -> Seq<LevelView>
    decreases levels.len(),
{
    if levels.len() == 0 {
        seq![(price, seq![o])]
    } else if levels[0].0 == price {
        seq![(price, levels[0].1.push(o))] + levels.drop_first()
    } else if better(side, levels[0].0, price) {
        seq![levels[0]] + insert_order(levels.drop_first(), side, price, o)
    } else {
        seq![(price, seq![o])] + levels
    }
}

/// Whatever holds of every level holds of every level that is kept.
pub proof fn lemma_drop_empty_keeps(s: Seq<LevelView>, pred: spec_fn(LevelView) -> bool)
    requires
        forall|i: int| 0 <= i < s.len() ==> pred(#[trigger] s[i]),
    ensures
        forall|i: int| 0 <= i < drop_empty(s).len() ==> pred(#[trigger] drop_empty(s)[i]),
    decreases s.len(),
{
    if s.len() > 0 {
        let t = s.drop_last();
        assert forall|i: int| 0 <= i < t.len() implies pred(#[trigger] t[i]) by {
            assert(t[i] == s[i]);
        }
        lemma_drop_empty_keeps(t, pred);
        assert(pred(s[s.len() - 1]));
        let d = drop_empty(t);
        if s.last().1.len() > 0 {
            assert forall|i: int| 0 <= i < d.push(s.last()).len() implies pred(#[trigger] d.push(s.last())[i]) by {
                if i < d.len() {
                    assert(d.push(s.last())[i] == d[i]);
                }
            }
        }
    }
}

/// Dropping the empty levels of ordered levels whose orders all have a
/// positive quantity gives a well-formed side.
pub proof fn lemma_drop_empty_wf(s: Seq<LevelView>, side: Side)
    requires
        sorted_levels(s, side),
        forall|i: int, k: int| 0 <= i < s.len() && 0 <= k < s[i].1.len() ==> (#[trigger] s[i].1[k]).qty > 0,
    ensures
        side_wf(drop_empty(s), side),
    decreases s.len(),
{
    if s.len() > 0 {
        let t = s.drop_last();
        let last = s.last();
        assert forall|i: int, k: int| 0 <= i < t.len() && 0 <= k < t[i].1.len() implies (#[trigger] t[i].1[k]).qty > 0 by {
            assert(t[i] == s[i]);
        }
        assert forall|i: int, j: int| 0 <= i < j < t.len() implies better(side, #[trigger] t[i].0, #[trigger] t[j].0) by {
            assert(t[i] == s[i]);
            assert(t[j] == s[j]);
        }
        lemma_drop_empty_wf(t, side);
        let d = drop_empty(t);
        if last.1.len() > 0 {
            assert forall|i: int| 0 <= i < t.len() implies (|l: LevelView| better(side, l.0, last.0))(#[trigger] t[i]) by {
                assert(t[i] == s[i]);
            }
            lemma_drop_empty_keeps(t, |l: LevelView| better(side, l.0, last.0));
            let e = d.push(last);
            assert forall|i: int, j: int| 0 <= i < j < e.len() implies better(side, #[trigger] e[i].0, #[trigger] e[j].0) by {
                if j == e.len() - 1 {
                    assert((|l: LevelView| better(side, l.0, last.0))(d[i]));
                }
            }
            assert forall|i: int, k: int| 0 <= i < e.len() && 0 <= k < e[i].1.len() implies (#[trigger] e[i].1[k]).qty > 0 by {
                if i == e.len() - 1 {
                    assert(s[s.len() - 1].1[k].qty > 0);
                }
            }
        }
    }
}

/// Whatever holds of `price` and of every price of `levels` holds of every
/// price of the side after an order is queued at `price`.
pub proof fn lemma_insert_prices(levels: Seq<LevelView>, side: Side, price: u64, o: BookOrder, pred: spec_fn(u64) -> bool)
    requires
        pred(price),
        forall|i: int| 0 <= i < levels.len() ==> pred(#[trigger] levels[i].0),
    ensures
        forall|i: int| 0 <= i < insert_order(levels, side, price, o).len() ==> pred(#[trigger] insert_order(levels, side, price, o)[i].0),
    decreases levels.len(),
{
    let r = insert_order(levels, side, price, o);
    if levels.len() > 0 {
        let t = levels.drop_first();
        assert forall|i: int| 0 <= i < t.len() implies pred(#[trigger] t[i].0) by {
            assert(t[i] == levels[i + 1]);
        }
        if levels[0].0 == price {
            assert forall|i: int| 0 <= i < r.len() implies pred(#[trigger] r[i].0) by {
                if i > 0 {
                    assert(r[i] == t[i - 1]);
                }
            }
        } else if better(side, levels[0].0, price) {
            lemma_insert_prices(t, side, price, o, pred);
            let ri = insert_order(t, side, price, o);
            assert forall|i: int| 0 <= i < r.len() implies pred(#[trigger] r[i].0) by {
                if i > 0 {
                    assert(r[i] == ri[i - 1]);
                }
            }
        } else {
            assert forall|i: int| 0 <= i < r.len() implies pred(#[trigger] r[i].0) by {
                if i > 0 {
                    assert(r[i] == levels[i - 1]);
                }
            }
        }
    }
}

/// Queuing an order of positive quantity keeps a side well formed.
pub proof fn lemma_insert_wf(levels: Seq<LevelView>, side: Side, price: u64, o: BookOrder)
    requires
        side_wf(levels, side),
        o.qty > 0,
    ensures
        side_wf(insert_order(levels, side, price, o), side),
    decreases levels.len(),
{
    let r = insert_order(levels, side, price, o);
    if levels.len() > 0 {
        let t = levels.drop_first();
        let l0 = levels[0];
        assert forall|i: int| 0 <= i < t.len() implies better(side, l0.0, #[trigger] t[i].0) by {
            assert(t[i] == levels[i + 1]);
        }
        if l0.0 == price {
            assert forall|i: int, j: int| 0 <= i < j < r.len() implies better(side, #[trigger] r[i].0, #[trigger] r[j].0) by {
                assert(r[j] == levels[j]);
                if i > 0 {
                    assert(r[i] == levels[i]);
                }
            }
            assert forall|i: int| 0 <= i < r.len() implies (#[trigger] r[i]).1.len() > 0 by {
                if i > 0 {
                    assert(r[i] == levels[i]);
                }
            }
            assert forall|i: int, k: int| 0 <= i < r.len() && 0 <= k < r[i].1.len() implies (#[trigger] r[i].1[k]).qty > 0 by {
                if i > 0 {
                    assert(r[i] == levels[i]);
                } else if k < l0.1.len() {
                    assert(r[0].1[k] == levels[0].1[k]);
                }
            }
        } else if better(side, l0.0, price) {
            assert(side_wf(t, side)) by {
                assert forall|i: int, j: int| 0 <= i < j < t.len() implies better(side, #[trigger] t[i].0, #[trigger] t[j].0) by {
                    assert(t[i] == levels[i + 1]);
                    assert(t[j] == levels[j + 1]);
                }
                assert forall|i: int| 0 <= i < t.len() implies (#[trigger] t[i]).1.len() > 0 by {
                    assert(t[i] == levels[i + 1]);
                }
                assert forall|i: int, k: int| 0 <= i < t.len() && 0 <= k < t[i].1.len() implies (#[trigger] t[i].1[k]).qty > 0 by {
                    assert(t[i] == levels[i + 1]);
                }
            }
            lemma_insert_wf(t, side, price, o);
            lemma_insert_prices(t, side, price, o, |x: u64| better(side, l0.0, x));
            let ri = insert_order(t, side, price, o);
            assert forall|i: int, j: int| 0 <= i < j < r.len() implies better(side, #[trigger] r[i].0, #[trigger] r[j].0) by {
                assert(r[j] == ri[j - 1]);
                if i > 0 {
                    assert(r[i] == ri[i - 1]);
                } else {
                    assert((|x: u64| better(side, l0.0, x))(ri[j - 1].0));
                }
            }
            assert forall|i: int| 0 <= i < r.len() implies (#[trigger] r[i]).1.len() > 0 by {
                if i > 0 {
                    assert(r[i] == ri[i - 1]);
                }
            }
            assert forall|i: int, k: int| 0 <= i < r.len() && 0 <= k < r[i].1.len() implies (#[trigger] r[i].1[k]).qty > 0 by {
                if i > 0 {
                    assert(r[i] == ri[i - 1]);
                }
            }
        } else {
            assert(better(side, price, l0.0));
            assert forall|i: int, j: int| 0 <= i < j < r.len() implies better(side, #[trigger] r[i].0, #[trigger] r[j].0) by {
                assert(r[j] == levels[j - 1]);
                if i > 0 {
                    assert(r[i] == levels[i - 1]);
                } else if j > 1 {
                    assert(better(side, l0.0, levels[j - 1].0));
                }
            }
            assert forall|i: int| 0 <= i < r.len() implies (#[trigger] r[i]).1.len() > 0 by {
                if i > 0 {
                    assert(r[i] == levels[i - 1]);
                }
            }
            assert forall|i: int, k: int| 0 <= i < r.len() && 0 <= k < r[i].1.len() implies (#[trigger] r[i].1[k]).qty > 0 by {
                if i > 0 {
                    assert(r[i] == levels[i - 1]);
                }
            }
        }
    }
}

/// Whether price `a` comes before price `b` on the side where orders of
/// side `side` rest.
pub fn is_better(side: Side, a: u64, b: u64) -> (r: bool)
    ensures
        r == better(side, a, b),
{
    match side {
        Side::Sell => a < b,
        Side::Buy => a > b,
    }
}

/// Removes the empty levels, keeping the order of the others.
pub fn retain_nonempty(levels: &mut Vec<PriceLevel>)
    ensures
        levels_view(final(levels)@) == drop_empty(levels_view(old(levels)@)),
{
    let ghost orig = levels_view(levels@);
    let ghost mut k: int = 0;
    let mut i: usize = 0;
    proof {
        assert(orig.take(0) =~= seq![]);
        assert(orig.skip(0) =~= orig);
        assert(drop_empty(orig.take(0)) + orig.skip(0) =~= orig);
    }
    while i < levels.len()
        invariant
            0 <= k <= orig.len(),
            levels_view(levels@) == drop_empty(orig.take(k)) + orig.skip(k),
            i == drop_empty(orig.take(k)).len(),
        decreases levels@.len() - i,
    {
        let ghost cur = levels_view(levels@);
        proof {
            assert(cur[i as int] == levels@[i as int]@);
            assert(orig.take(k + 1).drop_last() =~= orig.take(k));
            assert(orig.take(k + 1).last() == orig[k]);
            assert(cur[i as int] == orig[k]);
            assert(orig.skip(k).drop_first() =~= orig.skip(k + 1));
        }
        if levels[i].orders.len() == 0 {
            let _ = levels.remove(i);
            proof {
                assert(levels_view(levels@) =~= cur.remove(i as int));
                assert(cur.remove(i as int) =~= drop_empty(orig.take(k + 1)) + orig.skip(k + 1));
                k = k + 1;
            }
        } else {
            i += 1;
            proof {
                assert(cur =~= drop_empty(orig.take(k + 1)) + orig.skip(k + 1));
                k = k + 1;
            }
        }
    }
    proof {
        assert(orig.skip(k).len() == 0);
        assert(k == orig.len());
        assert(orig.take(k) =~= orig);
        assert(levels_view(levels@) =~= drop_empty(orig));
    }
}

/// The side `levels` with the order `o` at price `i`'s place, given that the
/// first `i` levels come before `price` and the `i`-th does not.
pub(crate) proof fn lemma_insert_at(levels: Seq<LevelView>, side: Side, price: u64, o: BookOrder, i: int)
    requires
        0 <= i <= levels.len(),
        forall|j: int| 0 <= j < i ==> better(side, #[trigger] levels[j].0, price),
        i < levels.len() ==> !better(side, levels[i].0, price),
    ensures
        insert_order(levels, side, price, o) == (if i < levels.len() && levels[i].0 == price {
            levels.take(i) + seq![(price, levels[i].1.push(o))] + levels.skip(i + 1)
        } else {
            levels.take(i) + seq![(price, seq![o])] + levels.skip(i)
        }),
    decreases i,
{
    if i == 0 {
        assert(levels.take(0) =~= seq![]);
        assert(levels.skip(0) =~= levels);
        if levels.len() > 0 {
            assert(levels.skip(1) =~= levels.drop_first());
            assert(seq![(price, levels[0].1.push(o))] + levels.drop_first()
                =~= levels.take(0) + seq![(price, levels[0].1.push(o))] + levels.skip(1));
            assert(seq![(price, seq![o])] + levels =~= levels.take(0) + seq![(price, seq![o])] + levels.skip(0));
        } else {
            assert(seq![(price, seq![o])] =~= levels.take(0) + seq![(price, seq![o])] + levels.skip(0));
        }
    } else {
        let rest = levels.drop_first();
        assert(better(side, levels[0].0, price));
        assert(levels[0].0 != price);
        assert forall|j: int| 0 <= j < i - 1 implies better(side, #[trigger] rest[j].0, price) by {
            assert(rest[j] == levels[j + 1]);
        }
        lemma_insert_at(rest, side, price, o, i - 1);
        assert(rest.take(i - 1) =~= levels.take(i).drop_first());
        assert(rest.skip(i - 1) =~= levels.skip(i));
        if i < levels.len() {
            assert(rest.skip(i) =~= levels.skip(i + 1));
        }
        if i < levels.len() && levels[i].0 == price {
            assert(seq![levels[0]] + (rest.take(i - 1) + seq![(price, levels[i].1.push(o))] + rest.skip(i))
                =~= levels.take(i) + seq![(price, levels[i].1.push(o))] + levels.skip(i + 1));
        } else {
            assert(seq![levels[0]] + (rest.take(i - 1) + seq![(price, seq![o])] + rest.skip(i - 1))
                =~= levels.take(i) + seq![(price, seq![o])] + levels.skip(i));
        }
    }
}

/// Queues `o` at `price` on a side of the book where orders of side `side`
/// rest, opening a new level at its place in the price order if there is
/// none at that price.
pub fn add_order(levels: &mut Vec<PriceLevel>, side: Side, price: u64, o: BookOrder)
    ensures
        levels_view(final(levels)@) == insert_order(levels_view(old(levels)@), side, price, o),
{
    let ghost orig = levels_view(levels@);
    let n = levels.len();
    let mut i: usize = 0;
    while i < n && is_better(side, levels[i].price, price)
        invariant
            n == levels@.len(),
            levels_view(levels@) == orig,
            i <= n,
            forall|j: int| 0 <= j < i ==> better(side, #[trigger] orig[j].0, price),
        decreases n - i,
    {
        proof {
            assert(orig[i as int] == levels@[i as int]@);
        }
        i += 1;
    }
    proof {
        if i < n {
            assert(orig[i as int] == levels@[i as int]@);
        }
        lemma_insert_at(orig, side, price, o, i as int);
    }
    if i < n && levels[i].price == price {
        levels[i].orders.push(o);
        proof {
            assert(levels_view(levels@) =~= orig.take(i as int) + seq![(price, orig[i as int].1.push(o))] + orig.skip(i + 1));
        }
    } else {
        let mut queue: Vec<BookOrder> = Vec::with_capacity(128);
        queue.push(o);
        levels.insert(i, PriceLevel { price, orders: queue });
        proof {
            assert(levels_view(levels@) =~= orig.take(i as int) + seq![(price, seq![o])] + orig.skip(i as int));
        }
    }
}

/// The book: asks (sell orders) lowest price first, bids (buy orders)
/// highest price first.
#[derive(Debug)]
pub struct OrderBook {
    pub min_ask: Option<u64>,
    pub max_bid: Option<u64>,
    pub asks: Vec<PriceLevel>,
    pub bids: Vec<PriceLevel>,
    /// The identifier that the next order put on the book gets.
    pub orderid: u64,
}

/// The book seen as plain values.
pub struct BookView {
    pub min_ask: Option<u64>,
    pub max_bid: Option<u64>,
    pub asks: Seq<LevelView>,
    pub bids: Seq<LevelView>,
    pub orderid: u64,
}

impl View for OrderBook {
    type V = BookView;

    open spec fn view(&self) -> BookView {
        BookView {
            min_ask: self.min_ask,
            max_bid: self.max_bid,
            asks: levels_view(self.asks@),
            bids: levels_view(self.bids@),
            orderid: self.orderid,
        }
    }
}

/// Every bid is below every ask.
pub open spec fn uncrossed(bids: Seq<LevelView>, asks: Seq<LevelView>) -> bool {
    forall|i: int, j: int| 0 <= i < bids.len() && 0 <= j < asks.len() ==> #[trigger] bids[i].0 < #[trigger] asks[j].0
}

impl BookView {
    /// Both sides are well formed, the book is not crossed, and every
    /// resting order has its own identifier, below the next one.
    pub open spec fn wf(self) -> bool {
        &&& side_wf(self.asks, Side::Sell)
        &&& side_wf(self.bids, Side::Buy)
        &&& uncrossed(self.bids, self.asks)
        &&& ids_ok(self)
    }
}

/// The side after a taker of the other side matched against it, with the
/// emptied levels removed when a pivot was reported.
pub open spec fn side_after(levels: Seq<LevelView>, want: u64, id: u32, taker: Side, limit: Option<u64>) -> Seq<LevelView> {
    let m = side_match(levels, want, id, taker, limit);
    if m.pivot is Some { drop_empty(m.levels) } else { m.levels }
}

/// Matching keeps a side well formed, keeps only prices that it had, and,
/// where the taker is left wanting, keeps only prices beyond its limit.
pub proof fn lemma_side_after(
    levels: Seq<LevelView>,
    book_side: Side,
    want: u64,
    id: u32,
    limit: Option<u64>,
    pred: spec_fn(u64) -> bool,
)
    requires
        side_wf(levels, book_side),
        forall|i: int| 0 <= i < levels.len() ==> pred(#[trigger] levels[i].0),
    ensures
        ({
            let taker = book_side.flipped();
            let m = side_match(levels, want, id, taker, limit);
            let after = side_after(levels, want, id, taker, limit);
            &&& side_wf(after, book_side)
            &&& forall|i: int| 0 <= i < after.len() ==> pred(#[trigger] after[i].0)
            &&& (m.left > 0 && limit is Some) ==> forall|i: int| 0 <= i < after.len() ==> beyond(taker, limit->0, #[trigger] after[i].0)
        }),
{
    let taker = book_side.flipped();
    let m = side_match(levels, want, id, taker, limit);
    let after = side_after(levels, want, id, taker, limit);
    assert forall|i: int, j: int| 0 <= i < j < levels.len() implies order_for(taker, #[trigger] levels[i].0, #[trigger] levels[j].0) by {
        assert(better(book_side, levels[i].0, levels[j].0));
    }
    lemma_side_match_shape(levels, want, id, taker, limit);
    assert forall|i: int, j: int| 0 <= i < j < m.levels.len() implies better(book_side, #[trigger] m.levels[i].0, #[trigger] m.levels[j].0) by {
        assert(better(book_side, levels[i].0, levels[j].0));
    }
    assert forall|i: int| 0 <= i < m.levels.len() implies (|l: LevelView| pred(l.0))(#[trigger] m.levels[i]) by {
        assert(pred(levels[i].0));
    }
    if m.pivot is Some {
        lemma_drop_empty_wf(m.levels, book_side);
        lemma_drop_empty_keeps(m.levels, |l: LevelView| pred(l.0));
        assert forall|i: int| 0 <= i < after.len() implies pred(#[trigger] after[i].0) by {
            assert((|l: LevelView| pred(l.0))(after[i]));
        }
        if m.left > 0 && limit is Some {
            let lp = limit->0;
            assert forall|i: int| 0 <= i < m.levels.len() implies (|l: LevelView| l.1.len() > 0 ==> beyond(taker, lp, l.0))(#[trigger] m.levels[i]) by {}
            lemma_drop_empty_keeps(m.levels, |l: LevelView| l.1.len() > 0 ==> beyond(taker, lp, l.0));
            assert forall|i: int| 0 <= i < after.len() implies beyond(taker, lp, #[trigger] after[i].0) by {
                assert((|l: LevelView| l.1.len() > 0 ==> beyond(taker, lp, l.0))(after[i]));
                assert(after[i].1.len() > 0);
            }
        }
    } else {
        assert forall|i: int| 0 <= i < after.len() implies pred(#[trigger] after[i].0) by {
            assert((|l: LevelView| pred(l.0))(m.levels[i]));
        }
    }
}

impl OrderBook {
    /// Both sides are well formed.
    pub open spec fn wf(&self) -> bool {
        self@.wf()
    }
}

/// The result of executing one order.
#[derive(Debug)]
pub struct Trade {
    /// The identifier under which the rest of the order was put on the book.
    pub id: Option<u64>,
    pub fills: Vec<Fill>,
    /// The quantity that was traded.
    pub qty: u64,
    /// The quantity that was not traded.
    pub remain: u64,
}

/// A trade seen as plain values.
pub struct TradeView {
    pub id: Option<u64>,
    pub fills: Seq<Fill>,
    pub qty: u64,
    pub remain: u64,
}

impl View for Trade {
    type V = TradeView;

    open spec fn view(&self) -> TradeView {
        TradeView { id: self.id, fills: self.fills@, qty: self.qty, remain: self.remain }
    }
}

impl Trade {
    /// A trade in which nothing happened.
    pub fn new() -> (t: Trade)
        ensures
            t@ == (TradeView { id: None, fills: seq![], qty: 0, remain: 0 }),
    {
        Trade { id: None, fills: Vec::new(), qty: 0, remain: 0 }
    }
}

/// The side that a taker of side `side` trades against: the asks for a
/// buyer, the bids for a seller.
pub open spec fn opposite_levels(b: BookView, side: Side) -> Seq<LevelView> {
    match side {
        Side::Buy => b.asks,
        Side::Sell => b.bids,
    }
}

/// The side where orders of side `side` rest: the bids for a buyer, the
/// asks for a seller.
pub open spec fn own_levels(b: BookView, side: Side) -> Seq<LevelView> {
    match side {
        Side::Buy => b.bids,
        Side::Sell => b.asks,
    }
}

/// Whether executing `order` on the book `b` leaves part of it resting on
/// the book: a limit order that cannot be filled entirely.
pub open spec fn rests(b: BookView, order: Order) -> bool {
    &&& order.kind == OrderType::LimitOrder
    &&& side_match(opposite_levels(b, order.side), order.qty, order.prod, order.side, Some(order.price)).left > 0
}

/// Executing `order` on the book `b`: a market order trades what it can; a
/// limit order trades up to its price and rests with what is left. The
/// product number serves as the taker's identifier in the fills.
pub open spec fn execute_spec(b: BookView, order: Order) -> (BookView, TradeView) {
    match order.kind {
        OrderType::MarketOrder => market_spec(b, order.prod, order.side, order.qty),
        OrderType::LimitOrder => limit_spec(b, order.prod, order.side, order.qty, order.price),
    }
}

impl OrderBook {
    /// An empty book.
    pub fn new() -> (ob: OrderBook)
        ensures
            ob@ == (BookView { min_ask: None, max_bid: None, asks: seq![], bids: seq![], orderid: 0 }),
            ob.wf(),
    {
        let ob = OrderBook { min_ask: None, max_bid: None, asks: Vec::new(), bids: Vec::new(), orderid: 0 };
        proof {
            assert(levels_view(ob.asks@) =~= seq![]);
            assert(levels_view(ob.bids@) =~= seq![]);
        }
        ob
    }

    /// Executes `order` against the book.
    pub fn execute(&mut self, order: Order) -> (trade: Trade)
        requires
            old(self).orderid < u64::MAX || !rests(old(self)@, order),
        ensures
            (final(self)@, trade@) == execute_spec(old(self)@, order),
            old(self).wf() ==> final(self).wf(),
    {
        proof {
            if self.wf() {
                lemma_execute_keeps_wf(self@, order);
            }
        }
        match order.kind {
            OrderType::MarketOrder => market(self, order.prod, order.side, order.qty),
            OrderType::LimitOrder => limit(self, order.prod, order.side, order.qty, order.price),
        }
    }
}

/// Executing an order keeps the book well formed: each side strictly
/// ordered, best price first, with no empty level and no order of quantity
/// zero; the book is never crossed, every bid below every ask; and every
/// resting order has its own identifier, below the next one to be given.
pub proof fn lemma_execute_keeps_wf(b: BookView, order: Order)
    requires
        b.wf(),
        b.orderid < u64::MAX || !rests(b, order),
    ensures
        execute_spec(b, order).0.wf(),
{
    let id = order.prod;
    let qty = order.qty;
    let price = order.price;
    let limit = match order.kind {
        OrderType::MarketOrder => None,
        OrderType::LimitOrder => Some(price),
    };
    let nb = execute_spec(b, order).0;
    lemma_execute_keeps_ids(b, order);
    match order.side {
        Side::Buy => {
            let bids = b.bids;
            let m = side_match(b.asks, qty, id, Side::Buy, limit);
            let pa = |x: u64| forall|i: int| 0 <= i < bids.len() ==> #[trigger] bids[i].0 < x;
            assert forall|j: int| 0 <= j < b.asks.len() implies pa(#[trigger] b.asks[j].0) by {
                assert forall|i: int| 0 <= i < bids.len() implies #[trigger] bids[i].0 < b.asks[j].0 by {
                    assert(bids[i].0 < b.asks[j].0);
                }
            }
            lemma_side_after(b.asks, Side::Sell, qty, id, limit, pa);
            let asks = side_after(b.asks, qty, id, Side::Buy, limit);
            assert(nb.asks == asks);
            if order.kind == OrderType::LimitOrder && m.left > 0 {
                let o = BookOrder { id: b.orderid, qty: m.left, kind: OrderType::LimitOrder };
                lemma_insert_wf(bids, Side::Buy, price, o);
                let pb = |x: u64| forall|j: int| 0 <= j < asks.len() ==> x < #[trigger] asks[j].0;
                assert forall|i: int| 0 <= i < bids.len() implies pb(#[trigger] bids[i].0) by {
                    assert forall|j: int| 0 <= j < asks.len() implies bids[i].0 < #[trigger] asks[j].0 by {
                        assert(pa(asks[j].0));
                    }
                }
                assert(pb(price)) by {
                    assert forall|j: int| 0 <= j < asks.len() implies price < #[trigger] asks[j].0 by {
                        assert(beyond(Side::Buy, price, asks[j].0));
                    }
                }
                lemma_insert_prices(bids, Side::Buy, price, o, pb);
                let nbids = insert_order(bids, Side::Buy, price, o);
                assert(nb.bids == nbids);
                assert forall|i: int, j: int| 0 <= i < nbids.len() && 0 <= j < asks.len() implies #[trigger] nbids[i].0 < #[trigger] asks[j].0 by {
                    assert(pb(nbids[i].0));
                }
            } else {
                assert(nb.bids == bids);
                assert forall|i: int, j: int| 0 <= i < bids.len() && 0 <= j < asks.len() implies #[trigger] bids[i].0 < #[trigger] asks[j].0 by {
                    assert(pa(asks[j].0));
                }
            }
        },
        Side::Sell => {
            let asks = b.asks;
            let m = side_match(b.bids, qty, id, Side::Sell, limit);
            let pb = |x: u64| forall|j: int| 0 <= j < asks.len() ==> x < #[trigger] asks[j].0;
            assert forall|i: int| 0 <= i < b.bids.len() implies pb(#[trigger] b.bids[i].0) by {
                assert forall|j: int| 0 <= j < asks.len() implies b.bids[i].0 < #[trigger] asks[j].0 by {
                    assert(b.bids[i].0 < asks[j].0);
                }
            }
            lemma_side_after(b.bids, Side::Buy, qty, id, limit, pb);
            let bids = side_after(b.bids, qty, id, Side::Sell, limit);
            assert(nb.bids == bids);
            if order.kind == OrderType::LimitOrder && m.left > 0 {
                let o = BookOrder { id: b.orderid, qty: m.left, kind: OrderType::LimitOrder };
                lemma_insert_wf(asks, Side::Sell, price, o);
                let pa = |x: u64| forall|i: int| 0 <= i < bids.len() ==> #[trigger] bids[i].0 < x;
                assert forall|j: int| 0 <= j < asks.len() implies pa(#[trigger] asks[j].0) by {
                    assert forall|i: int| 0 <= i < bids.len() implies #[trigger] bids[i].0 < asks[j].0 by {
                        assert(pb(bids[i].0));
                    }
                }
                assert(pa(price)) by {
                    assert forall|i: int| 0 <= i < bids.len() implies #[trigger] bids[i].0 < price by {
                        assert(beyond(Side::Sell, price, bids[i].0));
                    }
                }
                lemma_insert_prices(asks, Side::Sell, price, o, pa);
                let nasks = insert_order(asks, Side::Sell, price, o);
                assert(nb.asks == nasks);
                assert forall|i: int, j: int| 0 <= i < bids.len() && 0 <= j < nasks.len() implies #[trigger] bids[i].0 < #[trigger] nasks[j].0 by {
                    assert(pa(nasks[j].0));
                }
            } else {
                assert(nb.asks == asks);
                assert forall|i: int, j: int| 0 <= i < bids.len() && 0 <= j < asks.len() implies #[trigger] bids[i].0 < #[trigger] asks[j].0 by {
                    assert(pb(bids[i].0));
                }
            }
        },
    }
}

/// The levels as table cells: each price with the quantity resting there.
pub open spec fn level_cells(levels: Seq<LevelView>) -> Seq<(u64, u64)> {
    Seq::new(levels.len(), |i: int| (levels[i].0, queue_total(levels[i].1) as u64))
}

/// The total of every level fits in a `u64`.
pub open spec fn all_totals_fit(levels: Seq<LevelView>) -> bool {
    forall|i: int| 0 <= i < levels.len() ==> queue_total(#[trigger] levels[i].1) <= u64::MAX
}

/// The text of the book: one row per level, the asks beside the bids, both
/// best price first, each row ended by a newline; a single row of dashes,
/// with no newline, when the book is empty.
pub open spec fn book_text(b: BookView) -> Seq<char> {
    let a = level_cells(b.asks);
    let c = level_cells(b.bids);
    if row_count(a, c) == 0 {
        row_text(None, None)
    } else {
        table_rows(a, c, row_count(a, c))
    }
}

fn cells_of(levels: &Vec<PriceLevel>) -> (out: Vec<(u64, u64)>)
    requires
        all_totals_fit(levels_view(levels@)),
    ensures
        out@ == level_cells(levels_view(levels@)),
{
    let ghost lv = levels_view(levels@);
    let n = levels.len();
    let mut out: Vec<(u64, u64)> = Vec::new();
    let mut i: usize = 0;
    while i < n
        invariant
            n == levels@.len(),
            lv == levels_view(levels@),
            all_totals_fit(lv),
            i <= n,
            out@.len() == i,
            forall|k: int| 0 <= k < i ==> #[trigger] out@[k] == level_cells(lv)[k],
        decreases n - i,
    {
        proof {
            assert(lv[i as int] == levels@[i as int]@);
            assert(queue_total(lv[i as int].1) <= u64::MAX);
        }
        let total = level_total(&levels[i].orders);
        out.push((levels[i].price, total));
        i += 1;
    }
    proof {
        assert(out@ =~= level_cells(lv));
    }
    out
}

impl OrderBook {
    /// Whether the quantity of every level fits in a `u64`, as
    /// [`OrderBook::to_string`] needs.
    pub fn totals_fit(&self) -> (r: bool)
        ensures
            r == (all_totals_fit(self@.asks) && all_totals_fit(self@.bids)),
    {
        let a = totals_fit_within(&self.asks, self.asks.len());
        let b = totals_fit_within(&self.bids, self.bids.len());
        proof {
            assert(totals_fit(self@.asks, self@.asks.len()) == all_totals_fit(self@.asks));
            assert(totals_fit(self@.bids, self@.bids.len()) == all_totals_fit(self@.bids));
        }
        a && b
    }

    /// The book as a table (see [`book_text`]).
    pub fn to_string(&self) -> (s: String)
        requires
            all_totals_fit(self@.asks),
            all_totals_fit(self@.bids),
        ensures
            s@ == book_text(self@),
    {
        let a = cells_of(&self.asks);
        let b = cells_of(&self.bids);
        let mut out = table(&a, &b);
        if out.len() == 0 {
            push_row(&mut out, None, None);
            proof {
                assert(out@ =~= row_text(None, None));
            }
        }
        text_of(out)
    }
}

} // verus!
