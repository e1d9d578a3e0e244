//! What the snapshot and the text tables report of the book.
use vstd::prelude::*;
use crate::data::side::Side;
use crate::orderbook::{BookView, LevelView, better, sorted_levels, level_cells, book_text};
use crate::snapshot::{queue_total, top_levels, level_pairs, snapshot_text};
use crate::text::{table_rows, row_count};

verus! {

/// A snapshot of depth `depth` of a side ordered best first holds the best
/// `depth` levels of the side (all of them if it has fewer), best first,
/// each with the total quantity resting there: its `i`-th level is the
/// side's `i`-th, its prices come in the side's order, and every level left
/// out is worse than every level kept.
pub proof fn lemma_snapshot_best_levels(levels: Seq<LevelView>, side: Side, depth: nat)
    requires
        sorted_levels(levels, side),
    ensures
        ({
            let s = top_levels(levels, depth);
            let n = if depth < levels.len() { depth } else { levels.len() };
            &&& s.len() == n
            &&& forall|i: int| 0 <= i < n ==> (#[trigger] s[i]).price == levels[i].0 && s[i].qty == queue_total(levels[i].1) as u64
            &&& forall|i: int, j: int| 0 <= i < j < n ==> better(side, #[trigger] s[i].price, #[trigger] s[j].price)
            &&& forall|i: int, j: int| 0 <= i < n && n <= j < levels.len() ==> better(side, #[trigger] s[i].price, #[trigger] levels[j].0)
        }),
{
    let s = top_levels(levels, depth);
    let n = if depth < levels.len() { depth } else { levels.len() };
    assert forall|i: int, j: int| 0 <= i < j < n implies better(side, #[trigger] s[i].price, #[trigger] s[j].price) by {
        assert(better(side, levels[i].0, levels[j].0));
    }
    assert forall|i: int, j: int| 0 <= i < n && n <= j < levels.len() implies better(side, #[trigger] s[i].price, #[trigger] levels[j].0) by {
        assert(better(side, levels[i].0, levels[j].0));
    }
}

/// The snapshot of a well-formed book: its asks are the lowest asks of the
/// book from the lowest up, its bids the highest bids from the highest down,
/// as many of each as the depth allows.
pub proof fn lemma_snapshot_of_book(b: BookView, depth: nat)
    requires
        b.wf(),
    ensures
        ({
            let sa = top_levels(b.asks, depth);
            let sb = top_levels(b.bids, depth);
            &&& sa.len() == (if depth < b.asks.len() { depth } else { b.asks.len() })
            &&& sb.len() == (if depth < b.bids.len() { depth } else { b.bids.len() })
            &&& forall|i: int| 0 <= i < sa.len() ==> (#[trigger] sa[i]).price == b.asks[i].0 && sa[i].qty == queue_total(b.asks[i].1) as u64
            &&& forall|i: int| 0 <= i < sb.len() ==> (#[trigger] sb[i]).price == b.bids[i].0 && sb[i].qty == queue_total(b.bids[i].1) as u64
            &&& forall|i: int, j: int| 0 <= i < sa.len() && 0 <= j < b.asks.len() && j >= i ==> #[trigger] sa[i].price <= #[trigger] b.asks[j].0
            &&& forall|i: int, j: int| 0 <= i < sb.len() && 0 <= j < b.bids.len() && j >= i ==> #[trigger] sb[i].price >= #[trigger] b.bids[j].0
        }),
{
    lemma_snapshot_best_levels(b.asks, Side::Sell, depth);
    lemma_snapshot_best_levels(b.bids, Side::Buy, depth);
    let sa = top_levels(b.asks, depth);
    let sb = top_levels(b.bids, depth);
    assert forall|i: int, j: int| 0 <= i < sa.len() && 0 <= j < b.asks.len() && j >= i implies #[trigger] sa[i].price <= #[trigger] b.asks[j].0 by {
        if j > i {
            assert(better(Side::Sell, b.asks[i].0, b.asks[j].0));
        }
    }
    assert forall|i: int, j: int| 0 <= i < sb.len() && 0 <= j < b.bids.len() && j >= i implies #[trigger] sb[i].price >= #[trigger] b.bids[j].0 by {
        if j > i {
            assert(better(Side::Buy, b.bids[i].0, b.bids[j].0));
        }
    }
}

/// Each cell of the book's text reports a level: its price and the sum of
/// the quantities of all the orders resting there; and the cells are those
/// of a snapshot of the whole side.
pub proof fn lemma_book_cells_are_totals(levels: Seq<LevelView>)
    ensures
        level_cells(levels).len() == levels.len(),
        forall|i: int| 0 <= i < levels.len() ==> #[trigger] level_cells(levels)[i] == (levels[i].0, queue_total(levels[i].1) as u64),
        level_cells(levels) == level_pairs(top_levels(levels, levels.len())),
{
    assert(level_cells(levels) =~= level_pairs(top_levels(levels, levels.len())));
}

/// Printing a snapshot of the whole book, with its bids given from the
/// lowest up, gives the book's own text (without its last newline): the
/// snapshot lists its asks in their order and its bids in reverse.
pub proof fn lemma_snapshot_text_is_book_text(b: BookView)
    ensures
        ({
            let sa = top_levels(b.asks, b.asks.len());
            let sb = top_levels(b.bids, b.bids.len());
            let t = snapshot_text(sa, sb.reverse());
            book_text(b) == (if b.asks.len() == 0 && b.bids.len() == 0 { t } else { t.push('\n') })
        }),
{
    let sa = top_levels(b.asks, b.asks.len());
    let sb = top_levels(b.bids, b.bids.len());
    lemma_book_cells_are_totals(b.asks);
    lemma_book_cells_are_totals(b.bids);
    assert(sb.reverse().reverse() =~= sb);
    let a = level_pairs(sa);
    let c = level_pairs(sb);
    assert(a == level_cells(b.asks));
    assert(c == level_cells(b.bids));
    let n = row_count(a, c);
    if n > 0 {
        let rows = table_rows(a, c, n);
        assert(rows == table_rows(a, c, (n - 1) as nat) + crate::text::row_text(crate::text::cell(a, n - 1), crate::text::cell(c, n - 1)) + seq!['\n']);
        assert(rows.drop_last().push('\n') =~= rows);
    }
}

} // verus!
