use orderbook::data::fill::Fill;
use orderbook::data::orders::{BookOrder, FlipIterator, Order, OrderType, RandomIterator, side_from_sample};
use orderbook::data::side::Side;
use orderbook::matching::engine::{gmatch, process_queue, MatchInfo};
use orderbook::matching::limit::limit;
use orderbook::matching::market::market;
use orderbook::orderbook::{OrderBook, PriceLevel, Trade};
use orderbook::session::{plan_io, IoReply, IoRequest, IoStep};
use orderbook::commands::Cmd;
use orderbook::snapshot::{BookLevel, Snapshot};

fn lim(side: Side, qty: u64, price: u64) -> Order {
    Order { qty, price, prod: 7, side, kind: OrderType::LimitOrder }
}

fn mkt(side: Side, qty: u64) -> Order {
    Order { qty, price: 0, prod: 7, side, kind: OrderType::MarketOrder }
}

fn bo(id: u64, qty: u64) -> BookOrder {
    BookOrder { id, qty, kind: OrderType::LimitOrder }
}

fn side_prices(levels: &Vec<PriceLevel>) -> Vec<u64> {
    levels.iter().map(|l| l.price).collect()
}

fn side_qty(levels: &Vec<PriceLevel>) -> u64 {
    levels.iter().map(|l| l.orders.iter().map(|o| o.qty).sum::<u64>()).sum()
}

#[test]
fn process_queue_fills_oldest_first_and_keeps_partial_head() {
    let mut q = vec![bo(1, 5), bo(2, 0), bo(3, 4), bo(4, 6)];
    let mut fills: Vec<Fill> = Vec::new();
    // a queue does not know its price: gmatch sets it on the fills
    let filled = process_queue(&mut q, 7, 9, Side::Sell, &mut fills);
    assert_eq!(7, filled);
    assert_eq!(2, fills.len());
    assert_eq!(Fill { taker: 9, other: 1, qty: 5, price: 0, taker_side: Side::Sell, total_fill: true }, fills[0]);
    assert_eq!(Fill { taker: 9, other: 3, qty: 2, price: 0, taker_side: Side::Sell, total_fill: false }, fills[1]);
    assert_eq!(2, q.len());
    assert_eq!(3, q[0].id);
    assert_eq!(2, q[0].qty);
    assert_eq!(4, q[1].id);
}

#[test]
fn process_queue_exact_fill_empties_prefix() {
    let mut q = vec![bo(1, 5), bo(2, 5)];
    let mut fills: Vec<Fill> = Vec::new();
    assert_eq!(5, process_queue(&mut q, 5, 1, Side::Buy, &mut fills));
    assert_eq!(1, q.len());
    assert_eq!(2, q[0].id);
    assert!(fills[0].total_fill);
}

#[test]
fn process_queue_with_nothing_wanted_changes_nothing() {
    let mut q = vec![bo(1, 0), bo(2, 5)];
    let mut fills: Vec<Fill> = Vec::new();
    assert_eq!(0, process_queue(&mut q, 0, 1, Side::Buy, &mut fills));
    assert_eq!(2, q.len());
    assert!(fills.is_empty());
}

#[test]
fn process_queue_more_wanted_than_available() {
    let mut q = vec![bo(1, 3), bo(2, 4)];
    let mut fills: Vec<Fill> = Vec::new();
    assert_eq!(7, process_queue(&mut q, 100, 1, Side::Buy, &mut fills));
    assert!(q.is_empty());
    assert_eq!(2, fills.len());
}

#[test]
fn gmatch_stops_at_limit_and_reports_pivot() {
    let mut levels = vec![
        PriceLevel { price: 10, orders: vec![bo(1, 5)] },
        PriceLevel { price: 11, orders: vec![] },
        PriceLevel { price: 12, orders: vec![bo(2, 5)] },
        PriceLevel { price: 13, orders: vec![bo(3, 5)] },
    ];
    let mut fills: Vec<Fill> = Vec::new();
    let mi = gmatch(&mut levels, Side::Buy, 4, 8, &mut fills, Some(12));
    assert_eq!(MatchInfo { remain: 0, pivot: Some(10) }, mi);
    assert_eq!(2, fills.len());
    assert_eq!(vec![10, 12], fills.iter().map(|f| f.price).collect::<Vec<_>>());
    assert!(fills.iter().all(|f| f.taker_side == Side::Buy));
    assert!(levels[0].orders.is_empty());
    assert_eq!(2, levels[2].orders[0].qty);
    assert_eq!(5, levels[3].orders[0].qty);

    let mut levels = vec![PriceLevel { price: 13, orders: vec![bo(3, 5)] }];
    let mut fills: Vec<Fill> = Vec::new();
    let mi = gmatch(&mut levels, Side::Buy, 4, 8, &mut fills, Some(12));
    assert_eq!(MatchInfo { remain: 8, pivot: None }, mi);
    assert!(fills.is_empty());
}

#[test]
fn gmatch_for_sellers_walks_bids_downwards() {
    let mut levels = vec![
        PriceLevel { price: 20, orders: vec![bo(1, 2)] },
        PriceLevel { price: 19, orders: vec![bo(2, 2)] },
        PriceLevel { price: 18, orders: vec![bo(3, 2)] },
    ];
    let mut fills: Vec<Fill> = Vec::new();
    let mi = gmatch(&mut levels, Side::Sell, 4, 10, &mut fills, Some(19));
    assert_eq!(MatchInfo { remain: 6, pivot: Some(19) }, mi);
    assert_eq!(vec![1u128, 2], fills.iter().map(|f| f.other).collect::<Vec<_>>());
    // fills record the taker's side and the price of the level they traded at
    assert!(fills.iter().all(|f| f.taker_side == Side::Sell));
    assert_eq!(vec![20, 19], fills.iter().map(|f| f.price).collect::<Vec<_>>());
}

#[test]
fn limit_orders_rest_at_their_price_in_order() {
    let mut ob = OrderBook::new();
    let t = ob.execute(lim(Side::Buy, 5, 100));
    assert_eq!(Some(0), t.id);
    assert_eq!(5, t.remain);
    ob.execute(lim(Side::Buy, 3, 101));
    ob.execute(lim(Side::Buy, 4, 99));
    ob.execute(lim(Side::Buy, 2, 100));
    assert_eq!(vec![101, 100, 99], side_prices(&ob.bids));
    assert_eq!(vec![0, 3], ob.bids[1].orders.iter().map(|o| o.id).collect::<Vec<_>>());
    assert_eq!(Some(101), ob.max_bid);
    assert_eq!(4, ob.orderid);
    ob.execute(lim(Side::Sell, 1, 105));
    ob.execute(lim(Side::Sell, 1, 103));
    assert_eq!(vec![103, 105], side_prices(&ob.asks));
    assert_eq!(Some(103), ob.min_ask);
}

#[test]
fn limit_buy_sweeps_up_to_its_price_and_rests() {
    let mut ob = OrderBook::new();
    ob.execute(lim(Side::Sell, 5, 10));
    ob.execute(lim(Side::Sell, 5, 11));
    ob.execute(lim(Side::Sell, 5, 13));
    let t = ob.execute(lim(Side::Buy, 12, 12));
    assert_eq!(10, t.qty);
    assert_eq!(2, t.remain);
    assert_eq!(Some(3), t.id);
    assert_eq!(vec![13], side_prices(&ob.asks));
    assert_eq!(vec![12], side_prices(&ob.bids));
    assert_eq!(2, ob.bids[0].orders[0].qty);
}

#[test]
fn limit_sell_partially_fills_the_best_bid() {
    let mut ob = OrderBook::new();
    ob.execute(lim(Side::Buy, 10, 50));
    let t = limit(&mut ob, 3, Side::Sell, 4, 45);
    assert_eq!(4, t.qty);
    assert_eq!(0, t.remain);
    assert_eq!(None, t.id);
    assert_eq!(1, t.fills.len());
    assert!(!t.fills[0].total_fill);
    assert_eq!(6, ob.bids[0].orders[0].qty);
    assert!(ob.asks.is_empty());
}

#[test]
fn market_orders_drop_what_they_cannot_trade() {
    let mut ob = OrderBook::new();
    ob.execute(lim(Side::Sell, 5, 10));
    ob.execute(lim(Side::Sell, 5, 20));
    let t = ob.execute(mkt(Side::Buy, 12));
    assert_eq!(10, t.qty);
    assert_eq!(2, t.remain);
    assert_eq!(None, t.id);
    assert!(ob.asks.is_empty());
    assert!(ob.bids.is_empty());
    let t = market(&mut ob, 1, Side::Sell, 3);
    assert_eq!(0, t.qty);
    assert_eq!(3, t.remain);
}

#[test]
fn zero_quantity_orders_do_nothing() {
    let mut ob = OrderBook::new();
    ob.execute(lim(Side::Sell, 5, 10));
    let t = ob.execute(lim(Side::Buy, 0, 10));
    assert_eq!(0, t.qty);
    assert_eq!(None, t.id);
    assert_eq!(5, side_qty(&ob.asks));
}

#[test]
fn trade_new_is_empty() {
    let t = Trade::new();
    assert!(t.fills.is_empty());
    assert_eq!(0, t.qty);
    assert_eq!(0, t.remain);
    assert_eq!(None, t.id);
}

// law: every unit of an order is traded or remains; the traded quantity is
// the total of the fills and leaves the opposite side.
#[test]
fn quantities_are_accounted_for() {
    let mut ob = OrderBook::new();
    for (q, p) in [(4u64, 10u64), (6, 10), (3, 12), (9, 15)] {
        ob.execute(lim(Side::Sell, q, p));
    }
    let before = side_qty(&ob.asks);
    let t = ob.execute(lim(Side::Buy, 11, 12));
    assert_eq!(11, t.qty + t.remain);
    assert_eq!(t.qty, t.fills.iter().map(|f| f.qty).sum::<u64>());
    assert!(t.fills.iter().all(|f| f.qty > 0 && f.taker == 7));
    assert_eq!(before - t.qty, side_qty(&ob.asks));
    assert_eq!(t.remain, side_qty(&ob.bids));
}

// law: the book is never crossed, and each side stays strictly ordered
#[test]
fn book_stays_uncrossed_and_ordered() {
    let mut ob = OrderBook::new();
    let orders = [
        lim(Side::Buy, 5, 10), lim(Side::Sell, 3, 12), lim(Side::Buy, 4, 13), lim(Side::Sell, 9, 9),
        mkt(Side::Buy, 2), lim(Side::Sell, 1, 11), lim(Side::Buy, 7, 11), mkt(Side::Sell, 20),
    ];
    for o in orders {
        ob.execute(o);
        assert!(ob.bids.windows(2).all(|w| w[0].price > w[1].price));
        assert!(ob.asks.windows(2).all(|w| w[0].price < w[1].price));
        assert!(ob.bids.iter().chain(ob.asks.iter()).all(|l| !l.orders.is_empty()));
        if let (Some(b), Some(a)) = (ob.bids.first(), ob.asks.first()) {
            assert!(b.price < a.price);
        }
    }
}

// law: better prices trade first, older orders first at one price
#[test]
fn price_time_priority() {
    let mut ob = OrderBook::new();
    ob.execute(lim(Side::Sell, 2, 11)); // id 0
    ob.execute(lim(Side::Sell, 2, 10)); // id 1
    ob.execute(lim(Side::Sell, 2, 10)); // id 2
    let t = ob.execute(lim(Side::Buy, 5, 11));
    assert_eq!(vec![1u128, 2, 0], t.fills.iter().map(|f| f.other).collect::<Vec<_>>());
    assert_eq!(vec![true, true, false], t.fills.iter().map(|f| f.total_fill).collect::<Vec<_>>());
    assert_eq!(vec![10, 10, 11], t.fills.iter().map(|f| f.price).collect::<Vec<_>>());
}

// law: fills record the taker's side, and a limit order never trades at a
// price beyond its limit
#[test]
fn fills_record_side_and_level_price() {
    let mut ob = OrderBook::new();
    ob.execute(lim(Side::Buy, 3, 100));
    ob.execute(lim(Side::Buy, 3, 98));
    let t = ob.execute(lim(Side::Sell, 5, 97));
    assert_eq!(vec![100, 98], t.fills.iter().map(|f| f.price).collect::<Vec<_>>());
    assert!(t.fills.iter().all(|f| f.taker_side == Side::Sell && f.price >= 97));
    let t = ob.execute(mkt(Side::Sell, 1));
    assert_eq!(Side::Sell, t.fills[0].taker_side);
    assert_eq!(98, t.fills[0].price);
}

#[test]
fn snapshot_takes_the_best_levels_with_totals() {
    let mut ob = OrderBook::new();
    ob.execute(lim(Side::Buy, 5, 10));
    ob.execute(lim(Side::Buy, 6, 10));
    ob.execute(lim(Side::Buy, 1, 9));
    ob.execute(lim(Side::Buy, 1, 8));
    ob.execute(lim(Side::Sell, 2, 20));
    assert!(Snapshot::fits(&ob, 2));
    let s = Snapshot::new(&ob, 2);
    assert_eq!(vec![BookLevel { price: 10, qty: 11 }, BookLevel { price: 9, qty: 1 }], s.bids);
    assert_eq!(vec![BookLevel { price: 20, qty: 2 }], s.asks);
    let s = Snapshot::new(&ob, 0);
    assert!(s.bids.is_empty() && s.asks.is_empty());
}

#[test]
fn snapshot_fits_detects_overflowing_levels() {
    let mut ob = OrderBook::new();
    ob.execute(lim(Side::Buy, u64::MAX, 10));
    ob.execute(lim(Side::Buy, 1, 10));
    assert!(!Snapshot::fits(&ob, 1));
    assert!(Snapshot::fits(&ob, 0));
    assert!(!ob.totals_fit());
}

#[test]
fn book_and_snapshot_text() {
    let mut ob = OrderBook::new();
    assert_eq!("ask:        - #0        bid:        - #0       ", ob.to_string());
    ob.execute(lim(Side::Buy, 5, 10));
    ob.execute(lim(Side::Buy, 7, 9));
    ob.execute(lim(Side::Sell, 123, 12));
    assert_eq!(
        "ask:       12 #123      bid:       10 #5       \nask:        - #0        bid:        9 #7       \n",
        ob.to_string()
    );
    let s = Snapshot::new(&ob, 5);
    assert_eq!(
        "ask:       12 #123      bid:        9 #7       \nask:        - #0        bid:       10 #5       ",
        s.to_string()
    );
    let empty = Snapshot { bids: vec![], asks: vec![] };
    assert_eq!("ask:        - #0        bid:        - #0       ", empty.to_string());
}

#[test]
fn order_text() {
    assert_eq!("limit : buy  7:  100$ #5       ", lim(Side::Buy, 5, 100).to_string());
    assert_eq!("market: sell  7:       #123456789", mkt(Side::Sell, 123456789).to_string());
    assert_eq!("limit : sell 12: 123456$ #0       ",
        Order { qty: 0, price: 123456, prod: 12, side: Side::Sell, kind: OrderType::LimitOrder }.to_string());
}

// law: a flip source alternates sides, starting with a sell
#[test]
fn flip_iterator_alternates() {
    let mut it = FlipIterator::new(OrderType::MarketOrder);
    let sides: Vec<Side> = (0..4).map(|_| it.next().unwrap().side).collect();
    assert_eq!(vec![Side::Sell, Side::Buy, Side::Sell, Side::Buy], sides);
    let o = it.next().unwrap();
    assert_eq!(Order { qty: 100, price: 10, prod: 2, side: Side::Sell, kind: OrderType::MarketOrder }, o);
}

#[test]
fn random_iterator_draws_prices_and_sides() {
    let mut it = RandomIterator::new(OrderType::LimitOrder);
    let orders: Vec<Order> = (0..300).map(|_| it.next().unwrap()).collect();
    assert!(orders.iter().all(|o| (10..20).contains(&o.price) && o.qty == 100 && o.prod == 2));
    assert!(orders.iter().any(|o| o.price != 10));
    assert!(orders.iter().any(|o| o.side == Side::Buy));
    assert!(orders.iter().any(|o| o.side == Side::Sell));
}

#[test]
fn side_from_sample_maps_zero_to_buy() {
    assert_eq!(Side::Buy, side_from_sample(0));
    assert_eq!(Side::Sell, side_from_sample(1));
    assert_eq!(Side::Sell, side_from_sample(7));
    assert_eq!(Side::Buy, Side::Sell.opposite());
}

#[test]
fn session_plans() {
    assert!(matches!(plan_io(false, IoRequest::Connect), IoStep::Connect));
    match plan_io(false, IoRequest::ConnectCheck) {
        IoStep::Answer(s) => assert_eq!("Not connected.", s),
        _ => panic!(),
    }
    assert!(matches!(plan_io(true, IoRequest::ConnectCheck), IoStep::ReportConnected));
    assert!(matches!(plan_io(true, IoRequest::Disconnect), IoStep::Disconnect));
    match plan_io(false, IoRequest::Req(Cmd::Snapshot(3))) {
        IoStep::Answer(s) => assert_eq!("Not connected, can t submit.", s),
        _ => panic!(),
    }
    assert!(matches!(plan_io(true, IoRequest::Req(Cmd::Snapshot(3))), IoStep::Send { await_snapshot: true }));
    assert!(matches!(plan_io(true, IoRequest::Req(Cmd::Order(lim(Side::Buy, 1, 1)))), IoStep::Send { await_snapshot: false }));
    assert_eq!("", IoReply::Stum.to_string());
    assert_eq!("hi", IoReply::Reply("hi".to_string()).to_string());
}

// law: every resting order has its own identifier, below the next one
#[test]
fn resting_ids_are_distinct_and_below_next() {
    let mut ob = OrderBook::new();
    let orders = [
        lim(Side::Buy, 5, 10), lim(Side::Buy, 2, 10), lim(Side::Sell, 3, 12), lim(Side::Sell, 6, 10),
        lim(Side::Buy, 4, 11), mkt(Side::Sell, 1), lim(Side::Sell, 2, 13), lim(Side::Buy, 9, 12),
    ];
    for o in orders {
        ob.execute(o);
        let mut ids: Vec<u64> = ob.bids.iter().chain(ob.asks.iter())
            .flat_map(|l| l.orders.iter().map(|o| o.id)).collect();
        assert!(ids.iter().all(|&id| id < ob.orderid));
        let n = ids.len();
        ids.sort();
        ids.dedup();
        assert_eq!(n, ids.len());
    }
}
