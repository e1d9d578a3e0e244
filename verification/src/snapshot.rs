use vstd::prelude::*;
use crate::data::orders::BookOrder;
use crate::orderbook::{OrderBook, LevelView, PriceLevel, levels_view};
use crate::text::{table, table_rows, row_count, row_text, push_row, text_of};

verus! {

/// One price level of a snapshot: its price and the quantity resting there.
#[derive(Debug, Clone, Copy, PartialEq, Eq, Structural)]
pub struct BookLevel {
    pub price: u64,
    pub qty: u64,
}

/// The best levels of both sides of the book, best price first.
#[derive(Debug)]
pub struct Snapshot {
    pub bids: Vec<BookLevel>,
    pub asks: Vec<BookLevel>,
}

/// The total quantity of a queue.
pub open spec fn queue_total(q: Seq<BookOrder>) -> nat
    decreases q.len(),
{
    if q.len() == 0 {
        0
    } else {
        queue_total(q.drop_last()) + q.last().qty as nat
    }
}

/// The first `depth` levels of a side (all of them if there are fewer),
/// each with its price and total quantity.
pub open spec fn top_levels(levels: Seq<LevelView>, depth: nat) -> Seq<BookLevel> {
    let n = if depth < levels.len() { depth } else { levels.len() };
    Seq::new(n, |i: int| BookLevel { price: levels[i].0, qty: queue_total(levels[i].1) as u64 })
}

/// The totals of the first `depth` levels of a side fit in a `u64`.
pub open spec fn totals_fit(levels: Seq<LevelView>, depth: nat) -> bool {
    forall|i: int| 0 <= i < levels.len() && i < depth ==> queue_total(#[trigger] levels[i].1) <= u64::MAX
}

/// A prefix of a queue holds no more than the whole queue.
proof fn lemma_queue_total_prefix(q: Seq<BookOrder>, i: int)
    requires
        0 <= i <= q.len(),
    ensures
        queue_total(q.take(i)) <= queue_total(q),
    decreases q.len(),
{
    if i < q.len() {
        assert(q.drop_last().take(i) =~= q.take(i));
        lemma_queue_total_prefix(q.drop_last(), i);
    } else {
        assert(q.take(i) =~= q);
    }
}

/// The total quantity of a queue.
pub(crate) fn level_total(q: &Vec<BookOrder>) -> (total: u64)
    requires
        queue_total(q@) <= u64::MAX,
    ensures
        total == queue_total(q@),
{
    let mut acc: u64 = 0;
    let mut i: usize = 0;
    proof {
        assert(q@.take(0) =~= seq![]);
    }
    while i < q.len()
        invariant
            i <= q@.len(),
            queue_total(q@) <= u64::MAX,
            acc == queue_total(q@.take(i as int)),
        decreases q@.len() - i,
    {
        proof {
            assert(q@.take(i + 1).drop_last() =~= q@.take(i as int));
            lemma_queue_total_prefix(q@, i + 1);
        }
        acc = acc + q[i].qty;
        i += 1;
    }
    proof {
        assert(q@.take(i as int) =~= q@);
    }
    acc
}

/// The total quantity of a queue, or `None` where it does not fit in a
/// `u64`.
fn checked_total(q: &Vec<BookOrder>) -> (total: Option<u64>)
    ensures
        total matches Some(t) ==> t == queue_total(q@),
        total is None <==> queue_total(q@) > u64::MAX,
{
    let mut acc: u64 = 0;
    let mut i: usize = 0;
    proof {
        assert(q@.take(0) =~= seq![]);
    }
    while i < q.len()
        invariant
            i <= q@.len(),
            acc == queue_total(q@.take(i as int)),
        decreases q@.len() - i,
    {
        proof {
            assert(q@.take(i + 1).drop_last() =~= q@.take(i as int));
        }
        match acc.checked_add(q[i].qty) {
            Some(next) => {
                acc = next;
            },
            None => {
                proof {
                    lemma_queue_total_prefix(q@, i + 1);
                }
                return None;
            },
        }
        i += 1;
    }
    proof {
        assert(q@.take(i as int) =~= q@);
    }
    Some(acc)
}

/// Whether the totals of the first `depth` levels of `levels` fit in a
/// `u64`.
pub fn totals_fit_within(levels: &Vec<PriceLevel>, depth: usize) -> (r: bool)
    ensures
        r == totals_fit(levels_view(levels@), depth as nat),
{
    let ghost lv = levels_view(levels@);
    let mut i: usize = 0;
    while i < levels.len() && i < depth
        invariant
            i <= levels@.len(),
            lv == levels_view(levels@),
            forall|k: int| 0 <= k < i ==> queue_total(#[trigger] lv[k].1) <= u64::MAX,
        decreases levels@.len() - i,
    {
        proof {
            assert(lv[i as int] == levels@[i as int]@);
        }
        if checked_total(&levels[i].orders).is_none() {
            proof {
                assert(queue_total(lv[i as int].1) > u64::MAX);
            }
            return false;
        }
        i += 1;
    }
    true
}

/// The first `depth` levels of `levels` with their totals.
fn top_of(levels: &Vec<PriceLevel>, depth: usize) -> (out: Vec<BookLevel>)
    requires
        totals_fit(levels_view(levels@), depth as nat),
    ensures
        out@ == top_levels(levels_view(levels@), depth as nat),
{
    let ghost lv = levels_view(levels@);
    let mut out: Vec<BookLevel> = Vec::new();
    let mut i: usize = 0;
    while i < levels.len() && i < depth
        invariant
            i <= levels@.len(),
            i <= depth,
            lv == levels_view(levels@),
            totals_fit(lv, depth as nat),
            out@.len() == i,
            forall|k: int| 0 <= k < i ==> #[trigger] out@[k] == top_levels(lv, depth as nat)[k],
        decreases levels@.len() - i,
    {
        proof {
            assert(lv[i as int] == levels@[i as int]@);
            assert(queue_total(lv[i as int].1) <= u64::MAX);
        }
        let qty = level_total(&levels[i].orders);
        out.push(BookLevel { price: levels[i].price, qty });
        i += 1;
    }
    proof {
        assert(out@ =~= top_levels(lv, depth as nat));
    }
    out
}

impl Snapshot {
    /// Whether the quantities of the first `depth` levels of each side of
    /// the book fit in a `u64`, as [`Snapshot::new`] needs.
    pub fn fits(ob: &OrderBook, depth: usize) -> (r: bool)
        ensures
            r == (totals_fit(ob@.asks, depth as nat) && totals_fit(ob@.bids, depth as nat)),
    {
        totals_fit_within(&ob.asks, depth) && totals_fit_within(&ob.bids, depth)
    }

    /// The first `depth` levels of each side of the book, best first, with
    /// the quantity that rests at each.
    pub fn new(ob: &OrderBook, depth: usize) -> (s: Snapshot)
        requires
            totals_fit(ob@.asks, depth as nat),
            totals_fit(ob@.bids, depth as nat),
        ensures
            s.asks@ == top_levels(ob@.asks, depth as nat),
            s.bids@ == top_levels(ob@.bids, depth as nat),
    {
        let asks = top_of(&ob.asks, depth);
        let bids = top_of(&ob.bids, depth);
        Snapshot { bids, asks }
    }
}

/// The levels as table cells, in their order.
pub open spec fn level_pairs(levels: Seq<BookLevel>) -> Seq<(u64, u64)> {
    levels.map_values(|l: BookLevel| (l.price, l.qty))
}

/// The text of a snapshot: one row per level, asks in their order beside
/// bids from the lowest price up; a single row of dashes when both sides
/// are empty.
pub open spec fn snapshot_text(asks: Seq<BookLevel>, bids: Seq<BookLevel>) -> Seq<char> {
    let a = level_pairs(asks);
    let b = level_pairs(bids.reverse());
    if row_count(a, b) == 0 {
        row_text(None, None)
    } else {
        table_rows(a, b, row_count(a, b)).drop_last()
    }
}

fn pairs_of(levels: &Vec<BookLevel>, reversed: bool) -> (out: Vec<(u64, u64)>)
    ensures
        out@ == level_pairs(if reversed { levels@.reverse() } else { levels@ }),
{
    let ghost src = if reversed { levels@.reverse() } else { levels@ };
    let n = levels.len();
    let mut out: Vec<(u64, u64)> = Vec::new();
    let mut i: usize = 0;
    while i < n
        invariant
            n == levels@.len(),
            src == (if reversed { levels@.reverse() } else { levels@ }),
            i <= n,
            out@.len() == i,
            forall|k: int| 0 <= k < i ==> #[trigger] out@[k] == level_pairs(src)[k],
        decreases n - i,
    {
        let l = if reversed { levels[n - 1 - i] } else { levels[i] };
        out.push((l.price, l.qty));
        i += 1;
    }
    proof {
        assert(out@ =~= level_pairs(src));
    }
    out
}

impl Snapshot {
    /// The snapshot as a table (see [`snapshot_text`]).
    pub fn to_string(&self) -> (s: String)
        ensures
            s@ == snapshot_text(self.asks@, self.bids@),
    {
        let a = pairs_of(&self.asks, false);
        let b = pairs_of(&self.bids, true);
        let mut out = table(&a, &b);
        if out.len() == 0 {
            push_row(&mut out, None, None);
            proof {
                assert(out@ =~= row_text(None, None));
            }
        } else {
            let _ = out.pop();
        }
        text_of(out)
    }
}

} // verus!
