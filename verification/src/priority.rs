//! Price-time priority: better prices trade first, and at one price older
//! orders trade first.
use vstd::prelude::*;
use crate::data::orders::BookOrder;
use crate::data::side::Side;
use crate::matching::engine::{queue_match, side_match, beyond};
use crate::orderbook::LevelView;

verus! {

/// A queue is used up whenever something is still wanted after it.
pub proof fn lemma_queue_match_exhausts(q: Seq<BookOrder>, want: u64, id: u32, side: Side)
    ensures
        queue_match(q, want, id, side).left > 0 ==> queue_match(q, want, id, side).rest.len() == 0,
    decreases q.len(),
{
    if q.len() > 0 && want > 0 {
        let h = q[0];
        if h.qty == 0 {
            lemma_queue_match_exhausts(q.drop_first(), want, id, side);
        } else if want >= h.qty {
            lemma_queue_match_exhausts(q.drop_first(), (want - h.qty) as u64, id, side);
        }
    }
}

/// Wanting nothing changes no level.
pub proof fn lemma_side_match_nothing(levels: Seq<LevelView>, id: u32, taker: Side, limit: Option<u64>)
    ensures
        side_match(levels, 0, id, taker, limit).levels == levels,
        side_match(levels, 0, id, taker, limit).left == 0,
    decreases levels.len(),
{
    if levels.len() > 0 && levels[0].1.len() == 0 {
        lemma_side_match_nothing(levels.drop_first(), id, taker, limit);
        assert(seq![levels[0]] + levels.drop_first() =~= levels);
    }
}

/// Price priority and price protection: a level is touched only if its price
/// is not beyond the taker's limit and every better level was used up.
pub proof fn lemma_price_priority(levels: Seq<LevelView>, want: u64, id: u32, taker: Side, limit: Option<u64>)
    ensures
        ({
            let m = side_match(levels, want, id, taker, limit);
            &&& m.levels.len() == levels.len()
            &&& forall|i: int| 0 <= i < levels.len() && #[trigger] m.levels[i] != levels[i] ==> {
                &&& (limit matches Some(lp) ==> !beyond(taker, lp, levels[i].0))
                &&& forall|j: int| 0 <= j < i ==> (#[trigger] m.levels[j]).1.len() == 0
            }
        }),
    decreases levels.len(),
{
    let m = side_match(levels, want, id, taker, limit);
    if levels.len() > 0 {
        let p = levels[0].0;
        let q = levels[0].1;
        let t = levels.drop_first();
        if q.len() == 0 {
            lemma_price_priority(t, want, id, taker, limit);
            let r = side_match(t, want, id, taker, limit);
            assert forall|i: int| 0 <= i < levels.len() && #[trigger] m.levels[i] != levels[i] implies {
                &&& (limit matches Some(lp) ==> !beyond(taker, lp, levels[i].0))
                &&& forall|j: int| 0 <= j < i ==> (#[trigger] m.levels[j]).1.len() == 0
            } by {
                assert(m.levels[i] == r.levels[i - 1]);
                assert(levels[i] == t[i - 1]);
                assert forall|j: int| 0 <= j < i implies (#[trigger] m.levels[j]).1.len() == 0 by {
                    if j > 0 {
                        assert(m.levels[j] == r.levels[j - 1]);
                    }
                }
            }
        } else if (limit matches Some(lp) && beyond(taker, lp, p)) || want == 0 {
        } else {
            let o = queue_match(q, want, id, taker);
            lemma_queue_match_exhausts(q, want, id, taker);
            lemma_price_priority(t, o.left, id, taker, limit);
            let r = side_match(t, o.left, id, taker, limit);
            if o.left == 0 {
                lemma_side_match_nothing(t, id, taker, limit);
            }
            assert forall|i: int| 0 <= i < levels.len() && #[trigger] m.levels[i] != levels[i] implies {
                &&& (limit matches Some(lp) ==> !beyond(taker, lp, levels[i].0))
                &&& forall|j: int| 0 <= j < i ==> (#[trigger] m.levels[j]).1.len() == 0
            } by {
                if i > 0 {
                    assert(m.levels[i] == r.levels[i - 1]);
                    assert(levels[i] == t[i - 1]);
                    assert forall|j: int| 0 <= j < i implies (#[trigger] m.levels[j]).1.len() == 0 by {
                        if j > 0 {
                            assert(m.levels[j] == r.levels[j - 1]);
                        }
                    }
                }
            }
        }
    }
}

/// Time priority: at one price, with no order of quantity zero, the `k`-th
/// fill trades the `k`-th oldest order; every fill but the last uses its
/// order up; the queue loses exactly the orders that were used up, and the
/// order that was filled partially, if any, stays at the head with the rest
/// of its quantity.
pub proof fn lemma_time_priority(q: Seq<BookOrder>, want: u64, id: u32, side: Side)
    requires
        forall|k: int| 0 <= k < q.len() ==> (#[trigger] q[k]).qty > 0,
    ensures
        ({
            let o = queue_match(q, want, id, side);
            let n = o.fills.len();
            &&& n <= q.len()
            &&& forall|k: int| 0 <= k < n ==> (#[trigger] o.fills[k]).other == q[k].id as u128
            &&& forall|k: int| 0 <= k < n - 1 ==> (#[trigger] o.fills[k]).total_fill
            &&& if n > 0 && !o.fills[n - 1].total_fill {
                &&& o.rest == q.skip(n - 1).update(0, BookOrder { qty: (q[n - 1].qty - o.fills[n - 1].qty) as u64, ..q[n - 1] })
                &&& o.fills[n - 1].qty < q[n - 1].qty
            } else {
                o.rest == q.skip(n as int)
            }
        }),
    decreases q.len(),
{
    let o = queue_match(q, want, id, side);
    if q.len() > 0 && want > 0 {
        let h = q[0];
        let t = q.drop_first();
        assert forall|k: int| 0 <= k < t.len() implies (#[trigger] t[k]).qty > 0 by {
            assert(t[k] == q[k + 1]);
        }
        if want >= h.qty {
            lemma_time_priority(t, (want - h.qty) as u64, id, side);
            let r = queue_match(t, (want - h.qty) as u64, id, side);
            let n = o.fills.len();
            assert(n == r.fills.len() + 1);
            assert forall|k: int| 0 <= k < n implies (#[trigger] o.fills[k]).other == q[k].id as u128 by {
                if k > 0 {
                    assert(o.fills[k] == r.fills[k - 1]);
                    assert(t[k - 1] == q[k]);
                }
            }
            assert forall|k: int| 0 <= k < n - 1 implies (#[trigger] o.fills[k]).total_fill by {
                if k > 0 {
                    assert(o.fills[k] == r.fills[k - 1]);
                }
            }
            if n > 1 {
                assert(o.fills[n - 1] == r.fills[n - 2]);
                assert(t[n - 2] == q[n - 1]);
                assert(t.skip(n - 2) =~= q.skip(n - 1));
            }
            assert(t.skip(n - 1) =~= q.skip(n as int));
        } else {
            assert(q.skip(0) =~= q);
        }
    } else {
        assert(q.skip(0) =~= q);
    }
}

} // verus!
