use vstd::prelude::*;
use crate::data::fill::Fill;
use crate::data::orders::{BookOrder, OrderType};
use crate::data::side::Side;
use crate::matching::engine::{gmatch, side_match};
use crate::accounting::{fill_ok, lemma_side_match_accounts};
use crate::orderbook::{opposite_levels, OrderBook, BookView, Trade, TradeView, drop_empty, insert_order, retain_nonempty, add_order};

verus! {

/// The best bid after a buy order rests at `price`.
pub open spec fn raised(max_bid: Option<u64>, price: u64) -> Option<u64> {
    match max_bid {
        None => Some(price),
        Some(b) => if price > b { Some(price) } else { max_bid },
    }
}

/// The best ask after a sell order rests at `price`.
pub open spec fn lowered(min_ask: Option<u64>, price: u64) -> Option<u64> {
    match min_ask {
        None => Some(price),
        Some(a) => if price < a { Some(price) } else { min_ask },
    }
}

/// A limit order of `qty` units at `price` on side `side` from taker `id`:
/// it trades against the opposite side, best price first, as long as the
/// price is not beyond its limit; what it cannot trade rests on its own side
/// at `price` under the next identifier. Levels that it uses up leave the
/// book.
pub open spec fn limit_spec(b: BookView, id: u32, side: Side, qty: u64, price: u64) -> (BookView, TradeView) {
    let resting = BookOrder { id: b.orderid, qty: 0, kind: OrderType::LimitOrder };
    match side {
        Side::Buy => {
            let m = side_match(b.asks, qty, id, side, Some(price));
            let asks = if m.pivot is Some { drop_empty(m.levels) } else { m.levels };
            let traded = (qty - m.left) as u64;
            if m.left > 0 {
                (
                    BookView {
                        asks,
                        bids: insert_order(b.bids, Side::Buy, price, BookOrder { qty: m.left, ..resting }),
                        max_bid: raised(b.max_bid, price),
                        orderid: (b.orderid + 1) as u64,
                        ..b
                    },
                    TradeView { id: Some(b.orderid), fills: m.fills, qty: traded, remain: m.left },
                )
            } else {
                (BookView { asks, ..b }, TradeView { id: None, fills: m.fills, qty: traded, remain: m.left })
            }
        },
        Side::Sell => {
            let m = side_match(b.bids, qty, id, side, Some(price));
            let bids = if m.pivot is Some { drop_empty(m.levels) } else { m.levels };
            let traded = (qty - m.left) as u64;
            if m.left > 0 {
                (
                    BookView {
                        bids,
                        asks: insert_order(b.asks, Side::Sell, price, BookOrder { qty: m.left, ..resting }),
                        min_ask: lowered(b.min_ask, price),
                        orderid: (b.orderid + 1) as u64,
                        ..b
                    },
                    TradeView { id: Some(b.orderid), fills: m.fills, qty: traded, remain: m.left },
                )
            } else {
                (BookView { bids, ..b }, TradeView { id: None, fills: m.fills, qty: traded, remain: m.left })
            }
        },
    }
}

/// Executes a limit order of `qty` units at `price` on side `side` for
/// taker `id`.
pub fn limit(ob: &mut OrderBook, id: u32, side: Side, qty: u64, price: u64) -> (trade: Trade)
    requires
        old(ob).orderid < u64::MAX || side_match(opposite_levels(old(ob)@, side), qty, id, side, Some(price)).left == 0,
    ensures
        (final(ob)@, trade@) == limit_spec(old(ob)@, id, side, qty, price),
        forall|k: int| 0 <= k < trade.fills@.len() ==> fill_ok(#[trigger] trade.fills@[k], id, side, Some(price)),
{
    proof {
        lemma_side_match_accounts(opposite_levels(ob@, side), qty, id, side, Some(price));
    }
    let mut fills: Vec<Fill> = Vec::new();
    let mut bookid: Option<u64> = None;
    match side {
        Side::Buy => {
            let mi = gmatch(&mut ob.asks, side, id, qty, &mut fills, Some(price));
            if mi.remain > 0 {
                add_order(&mut ob.bids, Side::Buy, price, BookOrder { id: ob.orderid, qty: mi.remain, kind: OrderType::LimitOrder });
                bookid = Some(ob.orderid);
                ob.orderid = ob.orderid + 1;
                ob.max_bid = match ob.max_bid {
                    None => Some(price),
                    Some(b) => if price > b { Some(price) } else { ob.max_bid },
                };
            }
            if mi.pivot.is_some() {
                retain_nonempty(&mut ob.asks);
            }
            proof {
                assert(fills@ =~= seq![] + fills@);
            }
            Trade { id: bookid, fills, qty: qty - mi.remain, remain: mi.remain }
        },
        Side::Sell => {
            let mi = gmatch(&mut ob.bids, side, id, qty, &mut fills, Some(price));
            if mi.remain > 0 {
                add_order(&mut ob.asks, Side::Sell, price, BookOrder { id: ob.orderid, qty: mi.remain, kind: OrderType::LimitOrder });
                bookid = Some(ob.orderid);
                ob.orderid = ob.orderid + 1;
                ob.min_ask = match ob.min_ask {
                    None => Some(price),
                    Some(a) => if price < a { Some(price) } else { ob.min_ask },
                };
            }
            if mi.pivot.is_some() {
                retain_nonempty(&mut ob.bids);
            }
            Trade { id: bookid, fills, qty: qty - mi.remain, remain: mi.remain }
        },
    }
}

} // verus!
