use vstd::prelude::*;
use crate::data::fill::Fill;
use crate::data::side::Side;
use crate::matching::engine::{gmatch, side_match};
use crate::accounting::{fill_ok, lemma_side_match_accounts};
use crate::orderbook::{opposite_levels, OrderBook, BookView, Trade, TradeView, drop_empty, retain_nonempty};

verus! {

/// A market order of `qty` units on side `side` from taker `id`: it trades
/// against the whole opposite side, best price first; what it cannot trade
/// is dropped. Levels that it uses up leave the book.
pub open spec fn market_spec(b: BookView, id: u32, side: Side, qty: u64) -> (BookView, TradeView) {
    match side {
        Side::Buy => {
            let m = side_match(b.asks, qty, id, side, None);
            (
                BookView { asks: if m.pivot is Some { drop_empty(m.levels) } else { m.levels }, ..b },
                TradeView { id: None, fills: m.fills, qty: (qty - m.left) as u64, remain: m.left },
            )
        },
        Side::Sell => {
            let m = side_match(b.bids, qty, id, side, None);
            (
                BookView { bids: if m.pivot is Some { drop_empty(m.levels) } else { m.levels }, ..b },
                TradeView { id: None, fills: m.fills, qty: (qty - m.left) as u64, remain: m.left },
            )
        },
    }
}

/// Executes a market order of `qty` units on side `side` for taker `id`.
pub fn market(ob: &mut OrderBook, id: u32, side: Side, qty: u64) -> (trade: Trade)
    ensures
        (final(ob)@, trade@) == market_spec(old(ob)@, id, side, qty),
        forall|k: int| 0 <= k < trade.fills@.len() ==> fill_ok(#[trigger] trade.fills@[k], id, side, None),
{
    proof {
        lemma_side_match_accounts(opposite_levels(ob@, side), qty, id, side, None);
    }
    let mut fills: Vec<Fill> = Vec::new();
    match side {
        Side::Buy => {
            let mi = gmatch(&mut ob.asks, side, id, qty, &mut fills, None);
            if mi.pivot.is_some() {
                retain_nonempty(&mut ob.asks);
            }
            proof {
                assert(fills@ =~= seq![] + fills@);
            }
            Trade { id: None, fills, qty: qty - mi.remain, remain: mi.remain }
        },
        Side::Sell => {
            let mi = gmatch(&mut ob.bids, side, id, qty, &mut fills, None);
            if mi.pivot.is_some() {
                retain_nonempty(&mut ob.bids);
            }
            Trade { id: None, fills, qty: qty - mi.remain, remain: mi.remain }
        },
    }
}

} // verus!
