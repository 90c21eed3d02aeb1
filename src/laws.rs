//! Properties of the matching engine that relate several operations or hold of every input.
use vstd::prelude::*;

use crate::model::{OrderEvent, Side, Trade};
use crate::order_book::{
    live, QueueEntry,
    handles_valid, lemma_scan_exhausts, lemma_sweep_shape, opposite, scan, side_handles_valid, sweep, traded,
    BookModel, LevelModel,
};
use crate::order_list::PoolModel;

verus! {

/// Cancelling an id that is not resting changes nothing and trades nothing.
pub proof fn law_cancel_unknown_is_noop(m: BookModel, id: u64)
    requires
        !m.pool.index.contains_key(id),
    ensures
        m.after_event(OrderEvent::Cancel { id }) == (m, Seq::<crate::model::Trade>::empty()),
{
}

/// Cancelling the same id a second time changes nothing.
pub proof fn law_cancel_twice_is_noop(m: BookModel, id: u64)
    ensures
        m.after_cancel(id).after_cancel(id) == m.after_cancel(id),
{
    if m.pool.index.contains_key(id) {
        assert(!m.after_cancel(id).pool.index.contains_key(id));
    }
}

/// A market order trades at most its quantity; when it trades less, the opposing side is
/// left empty; and it never rests: its own side and the pool's slots and ids stay as they were.
pub proof fn law_market_drops_shortfall(m: BookModel, id: u64, side: Side, qty: u64)
    requires
        m.wf(),
    ensures
        ({
            let (after, trades) = m.after_market(id, side, qty);
            &&& traded(trades) <= qty
            &&& (traded(trades) < qty ==> after.levels(opposite(side)).len() == 0)
            &&& after.levels(side) == m.levels(side)
            &&& after.pool.index == m.pool.index
            &&& after.pool.free == m.pool.free
            &&& after.pool.orders.len() == m.pool.orders.len()
        }),
{
    let opp = opposite(side);
    lemma_sweep_shape(m.pool, m.levels(opp), qty, id, side, None);
}


/// No record of the pool that carries the id `x` has quantity left.
pub open spec fn id_dead(pool: PoolModel, x: u64) -> bool {
    forall|h: int| 0 <= h < pool.orders.len() && (#[trigger] pool.orders[h]).id == x ==> pool.orders[h].qty == 0
}

/// The id an event carries.
pub open spec fn event_id(e: OrderEvent) -> u64 {
    match e {
        OrderEvent::Market { id, .. } => id,
        OrderEvent::Limit { id, .. } => id,
        OrderEvent::Cancel { id } => id,
        OrderEvent::Replace { id, .. } => id,
    }
}

/// No trade of `ts` names `x`, as aggressor or as resting order.
pub open spec fn trades_avoid(ts: Seq<Trade>, x: u64) -> bool {
    forall|k: int| 0 <= k < ts.len() ==> (#[trigger] ts[k]).resting != x && ts[k].aggressor != x
}

proof fn lemma_scan_dead(pool: PoolModel, q: Seq<QueueEntry>, i: int, demand: u64, mark: int, aggressor: u64, x: u64)
    requires
        0 <= i,
        -1 <= mark < i,
        handles_valid(q, pool),
        id_dead(pool, x),
        aggressor != x,
    ensures
        id_dead(scan(pool, q, i, demand, mark, aggressor).0, x),
        trades_avoid(scan(pool, q, i, demand, mark, aggressor).1, x),
    decreases q.len() - i,
{
    if i >= q.len() || demand == 0 {
    } else {
        let h = q[i].0;
        let rec = pool.orders[h as int];
        assert(h < pool.orders.len());
        if !live(pool, q[i]) {
            lemma_scan_dead(pool, q, i + 1, demand, i, aggressor, x);
        } else {
            let t = if demand < rec.qty { demand } else { rec.qty };
            let next_pool = pool.filled(h, t);
            assert(id_dead(next_pool, x)) by {
                assert forall|g: int| 0 <= g < next_pool.orders.len() && (#[trigger] next_pool.orders[g]).id == x implies next_pool.orders[g].qty == 0 by {
                    if g != h {
                        assert(next_pool.orders[g] == pool.orders[g]);
                    }
                }
            }
            lemma_scan_dead(next_pool, q, i + 1, (demand - t) as u64, if t == rec.qty { i } else { mark }, aggressor, x);
            let r = scan(next_pool, q, i + 1, (demand - t) as u64, if t == rec.qty { i } else { mark }, aggressor);
            let all = seq![Trade { aggressor, resting: rec.id, price: rec.price, qty: t }] + r.1;
            assert forall|k: int| 0 <= k < all.len() implies (#[trigger] all[k]).resting != x && all[k].aggressor != x by {
                if k > 0 {
                    assert(all[k] == r.1[k - 1]);
                }
            }
        }
    }
}

proof fn lemma_sweep_dead(pool: PoolModel, levels: Seq<LevelModel>, demand: u64, aggressor: u64, side: Side, limit: Option<u64>, x: u64)
    requires
        side_handles_valid(levels, pool),
        id_dead(pool, x),
        aggressor != x,
    ensures
        id_dead(sweep(pool, levels, demand, aggressor, side, limit).0, x),
        trades_avoid(sweep(pool, levels, demand, aggressor, side, limit).2, x),
    decreases levels.len(),
{
    if demand == 0 || levels.len() == 0 || !crate::order_book::crosses(side, limit, levels[0].0) {
    } else {
        let q = levels[0].1;
        assert(handles_valid(q, pool));
        let s = scan(pool, q, 0, demand, -1, aggressor);
        lemma_scan_exhausts(pool, q, 0, demand, -1, aggressor);
        lemma_scan_dead(pool, q, 0, demand, -1, aggressor, x);
        let rest = q.subrange(s.3 + 1, q.len() as int);
        if rest.len() == 0 {
            let tail = levels.drop_first();
            assert forall|j: int| 0 <= j < tail.len() implies handles_valid(#[trigger] tail[j].1, s.0) by {
                assert(handles_valid(levels[j + 1].1, pool));
            }
            lemma_sweep_dead(s.0, tail, s.2, aggressor, side, limit, x);
            let r = sweep(s.0, tail, s.2, aggressor, side, limit);
            let all = s.1 + r.2;
            assert forall|k: int| 0 <= k < all.len() implies (#[trigger] all[k]).resting != x && all[k].aggressor != x by {
                if k >= s.1.len() {
                    assert(all[k] == r.2[k - s.1.len()]);
                } else {
                    assert(all[k] == s.1[k]);
                }
            }
        }
    }
}

/// Once `x` is cancelled, no record with id `x` has quantity left, provided the record that
/// `x` maps to was its only live one (order ids are unique).
pub proof fn law_cancel_kills_id(m: BookModel, x: u64)
    requires
        m.wf(),
        forall|h: int| 0 <= h < m.pool.orders.len() && (#[trigger] m.pool.orders[h]).id == x && m.pool.orders[h].qty > 0
            ==> m.pool.index.contains_key(x) && m.pool.index[x] == h,
    ensures
        id_dead(m.after_cancel(x).pool, x),
{
    let p = m.after_cancel(x).pool;
    assert forall|h: int| 0 <= h < p.orders.len() && (#[trigger] p.orders[h]).id == x implies p.orders[h].qty == 0 by {
        if m.pool.index.contains_key(x) {
            if h != m.pool.index[x] {
                assert(p.orders[h] == m.pool.orders[h]);
            }
        }
    }
}

/// An id with no live record never appears in a fill of an event with another id, and
/// stays without a live record afterwards: a cancelled order is never traded again.
pub proof fn law_dead_id_stays_dead(m: BookModel, x: u64, e: OrderEvent)
    requires
        m.wf(),
        id_dead(m.pool, x),
        event_id(e) != x,
    ensures
        id_dead(m.after_event(e).0.pool, x),
        trades_avoid(m.after_event(e).1, x),
{
    match e {
        OrderEvent::Market { id, side, qty } => {
            let opp = opposite(side);
            lemma_sweep_dead(m.pool, m.levels(opp), qty, id, side, None, x);
        },
        OrderEvent::Limit { id, side, price, qty } => {
            let opp = opposite(side);
            lemma_sweep_dead(m.pool, m.levels(opp), qty, id, side, Some(price), x);
            lemma_sweep_shape(m.pool, m.levels(opp), qty, id, side, Some(price));
            let s = sweep(m.pool, m.levels(opp), qty, id, side, Some(price));
            if s.3 > 0 {
                let p = s.0.inserted(id, price, s.3).0;
                assert forall|h: int| 0 <= h < p.orders.len() && (#[trigger] p.orders[h]).id == x implies p.orders[h].qty == 0 by {
                    if h < s.0.orders.len() {
                        if s.0.free.len() == 0 || h != s.0.free.last() {
                            assert(p.orders[h] == s.0.orders[h]);
                        }
                    }
                }
            }
        },
        OrderEvent::Cancel { id } => {
            let p = m.after_cancel(id).pool;
            assert forall|h: int| 0 <= h < p.orders.len() && (#[trigger] p.orders[h]).id == x implies p.orders[h].qty == 0 by {
                if m.pool.index.contains_key(id) {
                    if h != m.pool.index[id] {
                        assert(p.orders[h] == m.pool.orders[h]);
                    }
                }
            }
        },
        OrderEvent::Replace { .. } => {},
    }
}


/// Total quantity that the trades of `ts` took from the resting order `x`.
pub open spec fn traded_against(ts: Seq<Trade>, x: u64) -> nat
    decreases ts.len(),
{
    if ts.len() == 0 {
        0
    } else {
        ((if ts[0].resting == x { ts[0].qty as nat } else { 0 }) + traded_against(ts.drop_first(), x)) as nat
    }
}

proof fn lemma_traded_against_concat(a: Seq<Trade>, b: Seq<Trade>, x: u64)
    ensures
        traded_against(a + b, x) == traded_against(a, x) + traded_against(b, x),
    decreases a.len(),
{
    if a.len() == 0 {
        assert(a + b =~= b);
    } else {
        assert((a + b).drop_first() =~= a.drop_first() + b);
        lemma_traded_against_concat(a.drop_first(), b, x);
    }
}

/// Slot `h` holds the order `x`, and every other record with id `x` is used up.
pub open spec fn sole_record(pool: PoolModel, x: u64, h: usize) -> bool {
    &&& h < pool.orders.len()
    &&& pool.orders[h as int].id == x
    &&& forall|g: int| 0 <= g < pool.orders.len() && g != h && (#[trigger] pool.orders[g]).id == x ==> pool.orders[g].qty == 0
}

proof fn lemma_scan_conserves(pool: PoolModel, q: Seq<QueueEntry>, i: int, demand: u64, mark: int, aggressor: u64, x: u64, h: usize)
    requires
        0 <= i,
        -1 <= mark < i,
        handles_valid(q, pool),
        sole_record(pool, x, h),
    ensures
        sole_record(scan(pool, q, i, demand, mark, aggressor).0, x, h),
        traded_against(scan(pool, q, i, demand, mark, aggressor).1, x) + scan(pool, q, i, demand, mark, aggressor).0.orders[h as int].qty
            == pool.orders[h as int].qty,
    decreases q.len() - i,
{
    if i >= q.len() || demand == 0 {
    } else {
        let g = q[i].0;
        let rec = pool.orders[g as int];
        assert(g < pool.orders.len());
        if !live(pool, q[i]) {
            lemma_scan_exhausts(pool, q, i + 1, demand, i, aggressor);
            lemma_scan_conserves(pool, q, i + 1, demand, i, aggressor, x, h);
        } else {
            let t = if demand < rec.qty { demand } else { rec.qty };
            let next_pool = pool.filled(g, t);
            assert(sole_record(next_pool, x, h)) by {
                assert forall|k: int| 0 <= k < next_pool.orders.len() && k != h && (#[trigger] next_pool.orders[k]).id == x implies next_pool.orders[k].qty == 0 by {
                    if k != g {
                        assert(next_pool.orders[k] == pool.orders[k]);
                    }
                }
            }
            lemma_scan_conserves(next_pool, q, i + 1, (demand - t) as u64, if t == rec.qty { i } else { mark }, aggressor, x, h);
            let r = scan(next_pool, q, i + 1, (demand - t) as u64, if t == rec.qty { i } else { mark }, aggressor);
            let all = seq![Trade { aggressor, resting: rec.id, price: rec.price, qty: t }] + r.1;
            assert(all.drop_first() =~= r.1);
        }
    }
}

proof fn lemma_sweep_conserves(pool: PoolModel, levels: Seq<LevelModel>, demand: u64, aggressor: u64, side: Side, limit: Option<u64>, x: u64, h: usize)
    requires
        side_handles_valid(levels, pool),
        sole_record(pool, x, h),
    ensures
        sole_record(sweep(pool, levels, demand, aggressor, side, limit).0, x, h),
        traded_against(sweep(pool, levels, demand, aggressor, side, limit).2, x)
            + sweep(pool, levels, demand, aggressor, side, limit).0.orders[h as int].qty == pool.orders[h as int].qty,
    decreases levels.len(),
{
    if demand == 0 || levels.len() == 0 || !crate::order_book::crosses(side, limit, levels[0].0) {
    } else {
        let q = levels[0].1;
        assert(handles_valid(q, pool));
        let s = scan(pool, q, 0, demand, -1, aggressor);
        lemma_scan_exhausts(pool, q, 0, demand, -1, aggressor);
        lemma_scan_conserves(pool, q, 0, demand, -1, aggressor, x, h);
        let rest = q.subrange(s.3 + 1, q.len() as int);
        if rest.len() == 0 {
            let tail = levels.drop_first();
            assert forall|j: int| 0 <= j < tail.len() implies handles_valid(#[trigger] tail[j].1, s.0) by {
                assert(handles_valid(levels[j + 1].1, pool));
            }
            lemma_sweep_conserves(s.0, tail, s.2, aggressor, side, limit, x, h);
            let r = sweep(s.0, tail, s.2, aggressor, side, limit);
            lemma_traded_against_concat(s.1, r.2, x);
        }
    }
}

/// Quantity is conserved by every event: the aggressor trades at most its own quantity, and
/// the fills against a resting order `x` (held in slot `h`, its only live record) add up
/// exactly to the drop in its remaining quantity. Summed over any run of events, an order
/// never trades more than it was entered with.
pub proof fn law_quantity_conserved(m: BookModel, e: OrderEvent, x: u64, h: usize)
    requires
        m.wf(),
        sole_record(m.pool, x, h),
        !m.pool.free.contains(h),
        event_id(e) != x,
    ensures
        (e is Market || e is Limit) ==> traded(m.after_event(e).1) <= (match e {
            OrderEvent::Market { qty, .. } => qty,
            OrderEvent::Limit { qty, .. } => qty,
            _ => 0,
        }),
        (e is Market || e is Limit) ==> traded_against(m.after_event(e).1, x) + m.after_event(e).0.pool.orders[h as int].qty
            == m.pool.orders[h as int].qty,
        !(e is Market || e is Limit) ==> m.after_event(e).1.len() == 0,
{
    match e {
        OrderEvent::Market { id, side, qty } => {
            let opp = opposite(side);
            lemma_sweep_shape(m.pool, m.levels(opp), qty, id, side, None);
            lemma_sweep_conserves(m.pool, m.levels(opp), qty, id, side, None, x, h);
        },
        OrderEvent::Limit { id, side, price, qty } => {
            let opp = opposite(side);
            lemma_sweep_shape(m.pool, m.levels(opp), qty, id, side, Some(price));
            lemma_sweep_conserves(m.pool, m.levels(opp), qty, id, side, Some(price), x, h);
            let s = sweep(m.pool, m.levels(opp), qty, id, side, Some(price));
            if s.3 > 0 && s.0.free.len() > 0 {
                assert(s.0.free.last() != h) by {
                    assert(s.0.free == m.pool.free);
                    assert(m.pool.free[m.pool.free.len() - 1] == s.0.free.last());
                }
            }
        },
        OrderEvent::Cancel { .. } => {},
        OrderEvent::Replace { .. } => {},
    }
}


proof fn lemma_scan_priority(orig: PoolModel, pool: PoolModel, q: Seq<QueueEntry>, i: int, demand: u64, mark: int, aggressor: u64)
    requires
        0 <= i,
        -1 <= mark < i,
        i <= mark + 1 || (i == mark + 2 && demand == 0),
        handles_valid(q, pool),
        q.no_duplicates(),
        pool.stamps == orig.stamps,
        pool.orders.len() == orig.orders.len(),
        forall|j: int| 0 <= j <= mark ==> !live(pool, #[trigger] q[j]),
        forall|j: int| i <= j < q.len() && live(orig, #[trigger] q[j]) ==> pool.orders[q[j].0 as int] == orig.orders[q[j].0 as int],
    ensures
        forall|j: int| 0 <= j <= scan(pool, q, i, demand, mark, aggressor).3
            ==> !live(scan(pool, q, i, demand, mark, aggressor).0, #[trigger] q[j]),
        forall|j: int| scan(pool, q, i, demand, mark, aggressor).3 + 1 < j < q.len() && live(orig, #[trigger] q[j])
            ==> scan(pool, q, i, demand, mark, aggressor).0.orders[q[j].0 as int] == orig.orders[q[j].0 as int],
    decreases q.len() - i,
{
    if i >= q.len() || demand == 0 {
    } else {
        let g = q[i].0;
        let rec = pool.orders[g as int];
        assert(g < pool.orders.len());
        if !live(pool, q[i]) {
            lemma_scan_priority(orig, pool, q, i + 1, demand, i, aggressor);
            assert(scan(pool, q, i, demand, mark, aggressor) == scan(pool, q, i + 1, demand, i, aggressor));
        } else {
            let t = if demand < rec.qty { demand } else { rec.qty };
            let next_pool = pool.filled(g, t);
            let mark2 = if t == rec.qty { i } else { mark };
            assert forall|j: int| 0 <= j <= mark2 implies !live(next_pool, #[trigger] q[j]) by {
                if j != i {
                    assert(q[j] != q[i]);
                    if q[j].0 != g {
                        assert(next_pool.orders[q[j].0 as int] == pool.orders[q[j].0 as int]);
                    }
                }
            }
            assert forall|j: int| i + 1 <= j < q.len() && live(orig, #[trigger] q[j]) implies next_pool.orders[q[j].0 as int]
                == orig.orders[q[j].0 as int] by {
                assert(q[j] != q[i]);
                if q[j].0 == g {
                    assert(q[j].1 == q[i].1);
                }
                assert(next_pool.orders[q[j].0 as int] == pool.orders[q[j].0 as int]);
            }
            lemma_scan_priority(orig, next_pool, q, i + 1, (demand - t) as u64, mark2, aggressor);
            let r = scan(next_pool, q, i + 1, (demand - t) as u64, mark2, aggressor);
            assert(t == crate::order_book::min_u64(demand, rec.qty));
            assert(scan(pool, q, i, demand, mark, aggressor).0 == r.0);
            assert(scan(pool, q, i, demand, mark, aggressor).3 == r.3);
        }
    }
}

/// Time priority within a price level (its entries distinct): after the level-matching step,
/// no entry drained from the front is live any more, and every live entry behind the new head
/// is untouched, so a later arrival trades only once all earlier live ones are exhausted.
pub proof fn law_time_priority(pool: PoolModel, q: Seq<QueueEntry>, demand: u64, aggressor: u64)
    requires
        handles_valid(q, pool),
        q.no_duplicates(),
    ensures
        ({
            let r = scan(pool, q, 0, demand, -1, aggressor);
            &&& forall|j: int| 0 <= j <= r.3 ==> !live(r.0, #[trigger] q[j])
            &&& forall|j: int| r.3 + 1 < j < q.len() && live(pool, #[trigger] q[j]) ==> r.0.orders[q[j].0 as int] == pool.orders[q[j].0 as int]
        }),
{
    lemma_scan_priority(pool, pool, q, 0, demand, -1, aggressor);
}


/// A limit order never trades beyond its limit: a bid pays at most its price, an ask receives
/// at least its price; a cancelled or exhausted entry, even one whose slot was reused, adds nothing.
pub proof fn law_fills_within_limit(m: BookModel, id: u64, side: Side, price: u64, qty: u64)
    requires
        m.wf(),
    ensures
        forall|k: int| 0 <= k < m.after_limit(id, side, price, qty).1.len() ==> match side {
            Side::Bid => (#[trigger] m.after_limit(id, side, price, qty).1[k]).price <= price,
            Side::Ask => m.after_limit(id, side, price, qty).1[k].price >= price,
        },
{
    let opp = opposite(side);
    lemma_sweep_shape(m.pool, m.levels(opp), qty, id, side, Some(price));
}


/// `cur` differs from `orig` only in quantities, which have not grown.
pub open spec fn only_drawn_down(orig: PoolModel, cur: PoolModel) -> bool {
    &&& cur.stamps == orig.stamps
    &&& cur.orders.len() == orig.orders.len()
    &&& forall|h: int| 0 <= h < orig.orders.len() ==> (#[trigger] cur.orders[h]).id == orig.orders[h].id
        && cur.orders[h].qty <= orig.orders[h].qty
}

/// The trade `t` was made with a live entry of `levels` in `pool`: the entry's record carries
/// the resting id.
pub open spec fn made_with_side(pool: PoolModel, levels: Seq<LevelModel>, t: Trade) -> bool {
    exists|j: int, k: int|
        0 <= j < levels.len() && 0 <= k < levels[j].1.len() && live(pool, #[trigger] levels[j].1[k])
            && pool.orders[levels[j].1[k].0 as int].id == t.resting
}

/// The trade `t` was made with a live entry of queue `q` in `pool`.
pub open spec fn made_with_queue(pool: PoolModel, q: Seq<QueueEntry>, t: Trade) -> bool {
    exists|k: int| 0 <= k < q.len() && live(pool, #[trigger] q[k]) && pool.orders[q[k].0 as int].id == t.resting
}

proof fn lemma_scan_sources(orig: PoolModel, pool: PoolModel, q: Seq<QueueEntry>, i: int, demand: u64, mark: int, aggressor: u64)
    requires
        0 <= i,
        handles_valid(q, pool),
        only_drawn_down(orig, pool),
    ensures
        only_drawn_down(orig, scan(pool, q, i, demand, mark, aggressor).0),
        forall|n: int| 0 <= n < scan(pool, q, i, demand, mark, aggressor).1.len()
            ==> made_with_queue(orig, q, #[trigger] scan(pool, q, i, demand, mark, aggressor).1[n]),
    decreases q.len() - i,
{
    if i >= q.len() || demand == 0 {
    } else {
        let h = q[i].0;
        let rec = pool.orders[h as int];
        assert(h < pool.orders.len());
        if !live(pool, q[i]) {
            lemma_scan_sources(orig, pool, q, i + 1, demand, i, aggressor);
            assert(scan(pool, q, i, demand, mark, aggressor) == scan(pool, q, i + 1, demand, i, aggressor));
        } else {
            let t = if demand < rec.qty { demand } else { rec.qty };
            let next_pool = pool.filled(h, t);
            assert(only_drawn_down(orig, next_pool)) by {
                assert forall|g: int| 0 <= g < orig.orders.len() implies (#[trigger] next_pool.orders[g]).id == orig.orders[g].id
                    && next_pool.orders[g].qty <= orig.orders[g].qty by {
                    assert(pool.orders[g].id == orig.orders[g].id);
                }
            }
            lemma_scan_sources(orig, next_pool, q, i + 1, (demand - t) as u64, if t == rec.qty { i } else { mark }, aggressor);
            let r = scan(next_pool, q, i + 1, (demand - t) as u64, if t == rec.qty { i } else { mark }, aggressor);
            let all = seq![Trade { aggressor, resting: rec.id, price: rec.price, qty: t }] + r.1;
            assert(t == crate::order_book::min_u64(demand, rec.qty));
            assert(scan(pool, q, i, demand, mark, aggressor).1 == all);
            assert(live(orig, q[i]));
            assert forall|n: int| 0 <= n < all.len() implies made_with_queue(orig, q, #[trigger] all[n]) by {
                if n > 0 {
                    assert(all[n] == r.1[n - 1]);
                } else {
                    assert(live(orig, q[i]) && orig.orders[q[i].0 as int].id == all[0].resting);
                }
            }
        }
    }
}

proof fn lemma_sweep_sources(orig: PoolModel, pool: PoolModel, levels: Seq<LevelModel>, demand: u64, aggressor: u64, side: Side, limit: Option<u64>)
    requires
        side_handles_valid(levels, pool),
        only_drawn_down(orig, pool),
    ensures
        forall|n: int| 0 <= n < sweep(pool, levels, demand, aggressor, side, limit).2.len()
            ==> made_with_side(orig, levels, #[trigger] sweep(pool, levels, demand, aggressor, side, limit).2[n]),
    decreases levels.len(),
{
    if demand == 0 || levels.len() == 0 || !crate::order_book::crosses(side, limit, levels[0].0) {
    } else {
        let q = levels[0].1;
        assert(handles_valid(q, pool));
        let s = scan(pool, q, 0, demand, -1, aggressor);
        lemma_scan_exhausts(pool, q, 0, demand, -1, aggressor);
        lemma_scan_sources(orig, pool, q, 0, demand, -1, aggressor);
        let rest = q.subrange(s.3 + 1, q.len() as int);
        assert forall|n: int| 0 <= n < s.1.len() implies made_with_side(orig, levels, #[trigger] s.1[n]) by {
            assert(made_with_queue(orig, q, s.1[n]));
            let k = choose|k: int| 0 <= k < q.len() && live(orig, #[trigger] q[k]) && orig.orders[q[k].0 as int].id == s.1[n].resting;
            assert(levels[0].1[k] == q[k]);
        }
        if rest.len() == 0 {
            let tail = levels.drop_first();
            assert forall|j: int| 0 <= j < tail.len() implies handles_valid(#[trigger] tail[j].1, s.0) by {
                assert(handles_valid(levels[j + 1].1, pool));
            }
            lemma_sweep_sources(orig, s.0, tail, s.2, aggressor, side, limit);
            let r = sweep(s.0, tail, s.2, aggressor, side, limit);
            let all = s.1 + r.2;
            assert forall|n: int| 0 <= n < all.len() implies made_with_side(orig, levels, #[trigger] all[n]) by {
                if n < s.1.len() {
                    assert(all[n] == s.1[n]);
                } else {
                    assert(all[n] == r.2[n - s.1.len()]);
                    assert(made_with_side(orig, tail, r.2[n - s.1.len()]));
                    let (j, k) = choose|j: int, k: int|
                        0 <= j < tail.len() && 0 <= k < tail[j].1.len() && live(orig, #[trigger] tail[j].1[k])
                            && orig.orders[tail[j].1[k].0 as int].id == r.2[n - s.1.len()].resting;
                    assert(levels[j + 1].1[k] == tail[j].1[k]);
                }
            }
        }
    }
}

/// Every fill of a market or limit order is made with a live order resting on the opposite
/// side before the event: never with a cancelled or exhausted entry, nor with an order of the
/// aggressor's own side.
pub proof fn law_fills_from_opposite_side(m: BookModel, e: OrderEvent)
    requires
        m.wf(),
    ensures
        forall|n: int| 0 <= n < m.after_event(e).1.len() ==> match e {
            OrderEvent::Market { side, .. } => made_with_side(m.pool, m.levels(opposite(side)), #[trigger] m.after_event(e).1[n]),
            OrderEvent::Limit { side, .. } => made_with_side(m.pool, m.levels(opposite(side)), m.after_event(e).1[n]),
            _ => false,
        },
{
    match e {
        OrderEvent::Market { id, side, qty } => {
            lemma_sweep_sources(m.pool, m.pool, m.levels(opposite(side)), qty, id, side, None);
        },
        OrderEvent::Limit { id, side, price, qty } => {
            lemma_sweep_sources(m.pool, m.pool, m.levels(opposite(side)), qty, id, side, Some(price));
        },
        _ => {},
    }
}

} // verus!
