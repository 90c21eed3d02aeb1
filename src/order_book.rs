use vstd::prelude::*;

use crate::model::{id_modulus, IdGen, Instrument, OrderEvent, OrderFill, Side, Trade};
use crate::order_list::{OrderList, PoolModel};

verus! {

/// A queued order: its pool handle and the stamp its record got when it was stored. The entry
/// is dead once the slot holds a record with another stamp.
pub type QueueEntry = (usize, u64);

/// A price level as the contracts see it: its price and its queue of entries, oldest first.
pub type LevelModel = (u64, Seq<QueueEntry>);

/// The entry `e` still refers to the record it was queued for, and that record has quantity left.
pub open spec fn live(pool: PoolModel, e: QueueEntry) -> bool {
    pool.stamps[e.0 as int] == e.1 && pool.orders[e.0 as int].qty > 0
}

/// Result of scanning one queue: the pool afterwards, the trades made, the demand left, and
/// the drain boundary (the last position to drop from the front; -1 when none).
pub type ScanResult = (PoolModel, Seq<Trade>, u64, int);

/// Result of sweeping one side: the pool and the side afterwards, the trades made, the demand left.
pub type SweepResult = (PoolModel, Seq<LevelModel>, Seq<Trade>, u64);

pub open spec fn min_u64(a: u64, b: u64) -> u64 {
    if a < b { a } else { b }
}

/// The level-matching step from position `i` of queue `q`, with `demand` still to trade
/// for `aggressor` and `mark` the drain boundary so far.
pub open spec fn scan(pool: PoolModel, q: Seq<QueueEntry>, i: int, demand: u64, mark: int, aggressor: u64) -> ScanResult
    decreases q.len() - i,
{
    if i < 0 || i >= q.len() || demand == 0 {
        (pool, Seq::empty(), demand, mark)
    } else {
        let h = q[i].0;
        let rec = pool.orders[h as int];
        if !live(pool, q[i]) {
            scan(pool, q, i + 1, demand, i, aggressor)
        } else {
            let t = min_u64(demand, rec.qty);
            let r = scan(pool.filled(h, t), q, i + 1, (demand - t) as u64, if t == rec.qty { i } else { mark }, aggressor);
            (r.0, seq![Trade { aggressor, resting: rec.id, price: rec.price, qty: t }] + r.1, r.2, r.3)
        }
    }
}

/// Prepends trades already made to the outcome of a scan.
pub open spec fn after_trades(done: Seq<Trade>, r: ScanResult) -> ScanResult {
    (r.0, done + r.1, r.2, r.3)
}

/// `fills` carry the trades `trades`, with consecutive ids starting at `start` (wrapping).
pub open spec fn fills_carry(fills: Seq<OrderFill>, trades: Seq<Trade>, start: u64) -> bool {
    &&& fills.len() == trades.len()
    &&& forall|k: int| 0 <= k < fills.len() ==> (#[trigger] fills[k]).trade() == trades[k]
    &&& forall|k: int| 0 <= k < fills.len() ==> (#[trigger] fills[k]).id == (start + k) % id_modulus()
}

/// The id generator's value after handing out `n` ids from `start`.
pub open spec fn advanced(start: u64, n: nat) -> u64 {
    ((start + n) % id_modulus()) as u64
}

pub open spec fn handles_valid(q: Seq<QueueEntry>, pool: PoolModel) -> bool {
    forall|k: int| 0 <= k < q.len() ==> (#[trigger] q[k]).0 < pool.orders.len()
}

/// Runs the level-matching step over `opposite_orders` for the aggressor `id`, then drains
/// the fully consumed and dead entries from its front.
pub fn process_order_list(
    order_list: &mut OrderList,
    fill_ids: &mut IdGen,
    opposite_orders: &mut Vec<QueueEntry>,
    quantity_still_to_trade: u64,
    id: u64,
) -> (r: (Vec<OrderFill>, u64))
    requires
        old(order_list)@.wf(),
        handles_valid(old(opposite_orders)@, old(order_list)@),
    ensures
        ({
            let s = scan(old(order_list)@, old(opposite_orders)@, 0, quantity_still_to_trade, -1, id);
            &&& final(order_list)@ == s.0
            &&& fills_carry(r.0@, s.1, old(fill_ids).seq)
            &&& final(fill_ids).seq == advanced(old(fill_ids).seq, s.1.len())
            &&& r.1 == s.2
            &&& final(opposite_orders)@ == old(opposite_orders)@.subrange(s.3 + 1, old(opposite_orders)@.len() as int)
        }),
{
    let ghost q = opposite_orders@;
    let ghost target = scan(order_list@, q, 0, quantity_still_to_trade, -1, id);
    let ghost start = fill_ids.seq;
    let mut fills: Vec<OrderFill> = Vec::new();
    let mut qty_to_fill = quantity_still_to_trade;
    let mut filled_index: Option<usize> = None;
    let mut index: usize = 0;
    while index < opposite_orders.len()
        invariant
            opposite_orders@ == q,
            0 <= index <= q.len(),
            handles_valid(q, order_list@),
            order_list@.wf(),
            order_list@.orders.len() == old(order_list)@.orders.len(),
            target == after_trades(
                fills@.map_values(|f: OrderFill| f.trade()),
                scan(order_list@, q, index as int, qty_to_fill, match filled_index { Some(k) => k as int, None => -1 }, id),
            ),
            fills_carry(fills@, fills@.map_values(|f: OrderFill| f.trade()), start),
            fill_ids.seq == advanced(start, fills@.len()),
            match filled_index { Some(k) => k < index, None => true },
        ensures
            index >= q.len() || qty_to_fill == 0,
            target == after_trades(
                fills@.map_values(|f: OrderFill| f.trade()),
                scan(order_list@, q, index as int, qty_to_fill, match filled_index { Some(k) => k as int, None => -1 }, id),
            ),
            fills_carry(fills@, fills@.map_values(|f: OrderFill| f.trade()), start),
            fill_ids.seq == advanced(start, fills@.len()),
            order_list@.orders.len() == old(order_list)@.orders.len(),
            opposite_orders@ == q,
            match filled_index { Some(k) => k < q.len(), None => true },
        decreases q.len() - index,
    {
        if qty_to_fill == 0 {
            break;
        }
        let ghost mark: int = match filled_index { Some(k) => k as int, None => -1 };
        let ghost done = fills@.map_values(|f: OrderFill| f.trade());
        let (head_order_idx, head_stamp) = opposite_orders[index];
        let head_order = order_list.get(head_order_idx);
        let traded_price = head_order.price();
        let available_qty = head_order.qty();
        if order_list.stamp(head_order_idx) != head_stamp || available_qty == 0 {
            filled_index = Some(index);
            index = index + 1;
            continue;
        }
        let traded_quantity: u64;
        if qty_to_fill >= available_qty {
            traded_quantity = available_qty;
            qty_to_fill = qty_to_fill - available_qty;
            filled_index = Some(index);
        } else {
            traded_quantity = qty_to_fill;
            qty_to_fill = 0;
        }
        order_list.fill(head_order_idx, traded_quantity);
        let fill = OrderFill::new(fill_ids, id, head_order.id(), traded_price, traded_quantity);
        fills.push(fill);
        proof {
            let t = Trade { aggressor: id, resting: head_order.id, price: traded_price, qty: traded_quantity };
            assert(fills@.map_values(|f: OrderFill| f.trade()) =~= done.push(t));
            assert(done.push(t) + scan(order_list@, q, index + 1, qty_to_fill, match filled_index { Some(k) => k as int, None => -1 }, id).1
                =~= done + (seq![t] + scan(order_list@, q, index + 1, qty_to_fill, match filled_index { Some(k) => k as int, None => -1 }, id).1));
            let n = fills@.len() - 1;
            assert(fills@[n].id == (start + n) % id_modulus()) by {
                vstd::arithmetic::div_mod::lemma_add_mod_noop(start + n, 1, id_modulus());
            }
        }
        index = index + 1;
    }
    proof {
        let mark: int = match filled_index { Some(k) => k as int, None => -1 };
        assert(target.3 == mark);
        assert(fills@.map_values(|f: OrderFill| f.trade()) + Seq::<Trade>::empty() =~= fills@.map_values(|f: OrderFill| f.trade()));
    }
    match filled_index {
        Some(k) => {
            let rest = opposite_orders.split_off(k + 1);
            *opposite_orders = rest;
        },
        None => {
            assert(q.subrange(0, q.len() as int) =~= q);
        },
    }
    (fills, qty_to_fill)
}


proof fn lemma_mod_shift(x: int, y: int)
    ensures
        ((x % id_modulus()) + y) % id_modulus() == (x + y) % id_modulus(),
{
    vstd::arithmetic::div_mod::lemma_add_mod_noop_right(y, x, id_modulus());
    assert(y + x == x + y);
    assert(y + (x % id_modulus()) == (x % id_modulus()) + y);
}

/// Total quantity of a sequence of trades.
pub open spec fn traded(ts: Seq<Trade>) -> nat
    decreases ts.len(),
{
    if ts.len() == 0 {
        0
    } else {
        (ts[0].qty + traded(ts.drop_first())) as nat
    }
}

pub(crate) proof fn lemma_traded_concat(a: Seq<Trade>, b: Seq<Trade>)
    ensures
        traded(a + b) == traded(a) + traded(b),
    decreases a.len(),
{
    if a.len() == 0 {
        assert(a + b =~= b);
    } else {
        assert((a + b).drop_first() =~= a.drop_first() + b);
        lemma_traded_concat(a.drop_first(), b);
    }
}

/// A scan that ends with demand left has passed every position from `i` on, and marked each.
pub(crate) proof fn lemma_scan_exhausts(pool: PoolModel, q: Seq<QueueEntry>, i: int, demand: u64, mark: int, aggressor: u64)
    requires
        0 <= i,
        -1 <= mark < i,
        handles_valid(q, pool),
    ensures
        -1 <= scan(pool, q, i, demand, mark, aggressor).3 < (if i < q.len() { q.len() as int } else { i }),
        scan(pool, q, i, demand, mark, aggressor).3 >= mark,
        scan(pool, q, i, demand, mark, aggressor).2 > 0 ==> scan(pool, q, i, demand, mark, aggressor).3 == if i < q.len() { q.len() - 1 } else { mark },
        scan(pool, q, i, demand, mark, aggressor).2 <= demand,
        scan(pool, q, i, demand, mark, aggressor).0.orders.len() == pool.orders.len(),
        scan(pool, q, i, demand, mark, aggressor).0.free == pool.free,
        scan(pool, q, i, demand, mark, aggressor).0.index == pool.index,
        scan(pool, q, i, demand, mark, aggressor).0.stamps == pool.stamps,
        scan(pool, q, i, demand, mark, aggressor).0.next_stamp == pool.next_stamp,
        forall|h: int| 0 <= h < pool.orders.len() ==> (#[trigger] scan(pool, q, i, demand, mark, aggressor).0.orders[h]).price
            == pool.orders[h].price && scan(pool, q, i, demand, mark, aggressor).0.orders[h].id == pool.orders[h].id,
        traded(scan(pool, q, i, demand, mark, aggressor).1) + scan(pool, q, i, demand, mark, aggressor).2 == demand,
        handles_valid(q, scan(pool, q, i, demand, mark, aggressor).0),
    decreases q.len() - i,
{
    if i >= q.len() || demand == 0 {
    } else {
        let h = q[i].0;
        let rec = pool.orders[h as int];
        if !live(pool, q[i]) {
            lemma_scan_exhausts(pool, q, i + 1, demand, i, aggressor);
        } else {
            let t = min_u64(demand, rec.qty);
            lemma_scan_exhausts(pool.filled(h, t), q, i + 1, (demand - t) as u64, if t == rec.qty { i } else { mark }, aggressor);
            let r = scan(pool.filled(h, t), q, i + 1, (demand - t) as u64, if t == rec.qty { i } else { mark }, aggressor);
            assert((seq![Trade { aggressor, resting: rec.id, price: rec.price, qty: t }] + r.1).drop_first() =~= r.1);
        }
    }
}

/// Appending fills that continue the id sequence keeps the trades in step.
proof fn lemma_fills_concat(a: Seq<OrderFill>, ta: Seq<Trade>, b: Seq<OrderFill>, tb: Seq<Trade>, start: u64)
    requires
        fills_carry(a, ta, start),
        fills_carry(b, tb, advanced(start, a.len())),
    ensures
        fills_carry(a + b, ta + tb, start),
        advanced(advanced(start, a.len()), b.len()) == advanced(start, (a + b).len()),
{
    let mid = advanced(start, a.len());
    assert(mid == (start + a.len()) % id_modulus());
    assert forall|k: int| 0 <= k < (a + b).len() implies (#[trigger] (a + b)[k]).id == (start + k) % id_modulus() by {
        if k >= a.len() {
            assert(b[k - a.len()].id == (mid + (k - a.len())) % id_modulus());
            lemma_mod_shift(start + a.len(), k - a.len());
        }
    }
    assert forall|k: int| 0 <= k < (a + b).len() implies (#[trigger] (a + b)[k]).trade() == (ta + tb)[k] by {
        if k >= a.len() {
            assert(b[k - a.len()].trade() == tb[k - a.len()]);
        }
    }
    lemma_mod_shift(start + a.len(), b.len() as int);
}

/// A price level: its price and the pool handles resting there, oldest first.
#[derive(Debug)]
pub struct PriceLevel {
    pub price: u64,
    pub handles: Vec<QueueEntry>,
}

impl View for PriceLevel {
    type V = LevelModel;

    open spec fn view(&self) -> LevelModel {
        (self.price, self.handles@)
    }
}

pub open spec fn side_view(levels: Seq<PriceLevel>) -> Seq<LevelModel> {
    levels.map_values(|l: PriceLevel| l@)
}

/// Every handle queued on a side addresses a slot of the pool.
pub open spec fn side_handles_valid(levels: Seq<LevelModel>, pool: PoolModel) -> bool {
    forall|j: int| 0 <= j < levels.len() ==> handles_valid(#[trigger] levels[j].1, pool)
}

/// Every entry of level `l` carries a stamp the pool has handed out, and while the entry still
/// refers to its record, that record is priced at the level's price.
pub open spec fn entries_priced(l: LevelModel, pool: PoolModel) -> bool {
    forall|k: int| 0 <= k < l.1.len() ==> (#[trigger] l.1[k]).1 < pool.next_stamp
        && (pool.stamps[l.1[k].0 as int] == l.1[k].1 ==> pool.orders[l.1[k].0 as int].price == l.0)
}

pub open spec fn side_priced(levels: Seq<LevelModel>, pool: PoolModel) -> bool {
    forall|j: int| 0 <= j < levels.len() ==> entries_priced(#[trigger] levels[j], pool)
}

/// `after` keeps every slot of `pool` as it was (stamp and price), except slots restamped
/// with a stamp that `pool` had not handed out yet.
pub open spec fn keeps_entries(pool: PoolModel, after: PoolModel) -> bool {
    &&& after.next_stamp >= pool.next_stamp
    &&& forall|h: int| 0 <= h < pool.orders.len() ==> (#[trigger] after.stamps[h]) >= pool.next_stamp
        || (after.stamps[h] == pool.stamps[h] && after.orders[h].price == pool.orders[h].price)
}

/// Whether an aggressor on `side`, bounded by `limit` (none for a market order), trades at `price`.
pub open spec fn crosses(side: Side, limit: Option<u64>, price: u64) -> bool {
    match limit {
        None => true,
        Some(p) => match side {
            Side::Bid => price <= p,
            Side::Ask => price >= p,
        },
    }
}

fn crosses_at(side: Side, limit: Option<u64>, price: u64) -> (r: bool)
    ensures
        r == crosses(side, limit, price),
{
    match limit {
        None => true,
        Some(p) => match side {
            Side::Bid => price <= p,
            Side::Ask => price >= p,
        },
    }
}

/// The sweep of an aggressor for `demand` over the opposing side `levels`, best level first:
/// each crossing level is scanned, emptied levels are removed, and the sweep stops at the
/// first level that keeps entries, at a level that does not cross, or when nothing is left.
pub open spec fn sweep(pool: PoolModel, levels: Seq<LevelModel>, demand: u64, aggressor: u64, side: Side, limit: Option<u64>) -> SweepResult
    decreases levels.len(),
{
    if demand == 0 || levels.len() == 0 || !crosses(side, limit, levels[0].0) {
        (pool, levels, Seq::empty(), demand)
    } else {
        let q = levels[0].1;
        let s = scan(pool, q, 0, demand, -1, aggressor);
        let rest = q.subrange(s.3 + 1, q.len() as int);
        if rest.len() == 0 {
            let r = sweep(s.0, levels.drop_first(), s.2, aggressor, side, limit);
            (r.0, r.1, s.1 + r.2, r.3)
        } else {
            (s.0, levels.update(0, (levels[0].0, rest)), s.1, s.2)
        }
    }
}

/// Sweeps the opposing side `levels` for the aggressor `id` and returns its fills and the
/// quantity left unmatched.
fn match_side(
    order_list: &mut OrderList,
    fill_ids: &mut IdGen,
    levels: &mut Vec<PriceLevel>,
    qty: u64,
    id: u64,
    side: Side,
    limit: Option<u64>,
) -> (r: (Vec<OrderFill>, u64))
    requires
        old(order_list)@.wf(),
        side_handles_valid(side_view(old(levels)@), old(order_list)@),
    ensures
        ({
            let s = sweep(old(order_list)@, side_view(old(levels)@), qty, id, side, limit);
            &&& final(order_list)@ == s.0
            &&& side_view(final(levels)@) == s.1
            &&& fills_carry(r.0@, s.2, old(fill_ids).seq)
            &&& final(fill_ids).seq == advanced(old(fill_ids).seq, s.2.len())
            &&& r.1 == s.3
        }),
{
    let ghost target = sweep(order_list@, side_view(levels@), qty, id, side, limit);
    let ghost start = fill_ids.seq;
    let ghost mut done: Seq<Trade> = Seq::empty();
    let mut fills: Vec<OrderFill> = Vec::new();
    let mut remaining = qty;
    while remaining > 0 && levels.len() > 0 && crosses_at(side, limit, levels[0].price)
        invariant
            order_list@.wf(),
            side_handles_valid(side_view(levels@), order_list@),
            target == ({
                let r = sweep(order_list@, side_view(levels@), remaining, id, side, limit);
                (r.0, r.1, done + r.2, r.3)
            }),
            fills_carry(fills@, done, start),
            fill_ids.seq == advanced(start, fills@.len()),
        ensures
            remaining == 0 || levels.len() == 0 || !crosses(side, limit, levels@[0].price),
            order_list@.wf(),
            side_handles_valid(side_view(levels@), order_list@),
            target == ({
                let r = sweep(order_list@, side_view(levels@), remaining, id, side, limit);
                (r.0, r.1, done + r.2, r.3)
            }),
            fills_carry(fills@, done, start),
            fill_ids.seq == advanced(start, fills@.len()),
        decreases levels.len(),
    {
        let ghost lv = side_view(levels@);
        let ghost pool0 = order_list@;
        assert(handles_valid(lv[0].1, pool0));
        let ghost s = scan(pool0, lv[0].1, 0, remaining, -1, id);
        proof {
            lemma_scan_exhausts(pool0, lv[0].1, 0, remaining, -1, id);
        }
        let (mut new_fills, rem) = process_order_list(order_list, fill_ids, &mut levels[0].handles, remaining, id);
        proof {
            lemma_fills_concat(fills@, done, new_fills@, s.1, start);
        }
        fills.append(&mut new_fills);
        remaining = rem;
        let ghost done_before = done;
        proof {
            done = done + s.1;
            assert(done.take(done_before.len() as int) =~= done_before);
        }
        if levels[0].handles.len() == 0 {
            levels.remove(0);
            proof {
                assert(side_view(levels@) =~= lv.drop_first());
                assert forall|j: int| 0 <= j < side_view(levels@).len() implies handles_valid(#[trigger] side_view(levels@)[j].1, order_list@) by {
                    assert(handles_valid(lv[j + 1].1, pool0));
                }
                let r = sweep(order_list@, side_view(levels@), remaining, id, side, limit);
                assert((done.take(done.len() - s.1.len() as int) + (s.1 + r.2)) =~= done + r.2);
            }
        } else {
            proof {
                let rest = lv[0].1.subrange(s.3 + 1, lv[0].1.len() as int);
                assert(side_view(levels@) =~= lv.update(0, (lv[0].0, rest)));
                assert forall|j: int| 0 <= j < side_view(levels@).len() implies handles_valid(#[trigger] side_view(levels@)[j].1, order_list@) by {
                    if j == 0 {
                        assert forall|k: int| 0 <= k < rest.len() implies (#[trigger] rest[k]).0 < order_list@.orders.len() by {
                            assert(rest[k] == lv[0].1[k + s.3 + 1]);
                        }
                    } else {
                        assert(handles_valid(lv[j].1, pool0));
                    }
                }
                assert(done + Seq::<Trade>::empty() =~= done);
            }
            break;
        }
    }
    (fills, remaining)
}


/// Whether `a` is a better price than `b` for an order resting on `side`.
pub open spec fn better(side: Side, a: u64, b: u64) -> bool {
    match side {
        Side::Bid => a > b,
        Side::Ask => a < b,
    }
}

fn better_at(side: Side, a: u64, b: u64) -> (r: bool)
    ensures
        r == better(side, a, b),
{
    match side {
        Side::Bid => a > b,
        Side::Ask => a < b,
    }
}

/// The side `levels` after queueing handle `h` at the tail of the level for `price`,
/// creating that level at its place in price order when it is absent.
pub open spec fn rest_at(levels: Seq<LevelModel>, side: Side, price: u64, h: QueueEntry) -> Seq<LevelModel>
    decreases levels.len(),
{
    if levels.len() == 0 {
        seq![(price, seq![h])]
    } else if levels[0].0 == price {
        levels.update(0, (price, levels[0].1.push(h)))
    } else if better(side, price, levels[0].0) {
        seq![(price, seq![h])] + levels
    } else {
        seq![levels[0]] + rest_at(levels.drop_first(), side, price, h)
    }
}

/// Queues handle `h` at the tail of the level for `price` on a side.
fn rest_order(levels: &mut Vec<PriceLevel>, side: Side, price: u64, h: QueueEntry)
    ensures
        side_view(final(levels)@) == rest_at(side_view(old(levels)@), side, price, h),
{
    let ghost l0 = side_view(levels@);
    let mut i: usize = 0;
    assert(l0.take(0) + rest_at(l0.skip(0), side, price, h) =~= rest_at(l0, side, price, h)) by {
        assert(l0.skip(0) =~= l0);
    }
    while i < levels.len() && better_at(side, levels[i].price, price)
        invariant
            side_view(levels@) == l0,
            i <= levels.len(),
            rest_at(l0, side, price, h) == l0.take(i as int) + rest_at(l0.skip(i as int), side, price, h),
        ensures
            side_view(levels@) == l0,
            i <= levels.len(),
            rest_at(l0, side, price, h) == l0.take(i as int) + rest_at(l0.skip(i as int), side, price, h),
            i == levels.len() || !better(side, levels@[i as int].price, price),
        decreases levels.len() - i,
    {
        proof {
            assert(l0.skip(i as int).drop_first() =~= l0.skip(i as int + 1));
            assert(l0.take(i as int) + (seq![l0[i as int]] + rest_at(l0.skip(i as int + 1), side, price, h))
                =~= l0.take(i as int + 1) + rest_at(l0.skip(i as int + 1), side, price, h));
        }
        i = i + 1;
    }
    if i < levels.len() && levels[i].price == price {
        levels[i].handles.push(h);
        proof {
            assert(side_view(levels@) =~= l0.take(i as int) + l0.skip(i as int).update(0, (price, l0[i as int].1.push(h))));
        }
    } else {
        let level = PriceLevel { price, handles: vec![h] };
        assert(level@ == (price, seq![h]));
        let ghost before = levels@;
        levels.insert(i, level);
        proof {
            assert(side_view(levels@) =~= side_view(before).insert(i as int, level@));
            if i == l0.len() {
                assert(l0.skip(i as int) =~= Seq::<LevelModel>::empty());
            }
            assert(side_view(levels@) =~= l0.take(i as int) + (seq![(price, seq![h])] + l0.skip(i as int)));
        }
    }
}

/// Why an event was rejected.
#[derive(Debug, Clone, Copy, PartialEq, Eq, Structural)]
pub enum BookError {
    /// The event kind is declared but not supported (`Replace`).
    UnsupportedOperation,
    /// A cancel named an id that is not resting in the book.
    NotFound,
    /// The pool has handed out every stamp and cannot store another resting order.
    CapacityExceeded,
    /// A limit order reused the id of an order the book still holds.
    DuplicateId,
}

/// The book as the contracts see it.
pub ghost struct BookModel {
    pub pool: PoolModel,
    /// Bid levels, highest price first.
    pub bids: Seq<LevelModel>,
    /// Ask levels, lowest price first.
    pub asks: Seq<LevelModel>,
    /// The id the next fill gets.
    pub next_fill: u64,
}

pub open spec fn opposite(side: Side) -> Side {
    match side {
        Side::Bid => Side::Ask,
        Side::Ask => Side::Bid,
    }
}

/// Levels in strictly best-first price order, none of them empty.
pub open spec fn levels_ordered(levels: Seq<LevelModel>, side: Side) -> bool {
    &&& forall|i: int, j: int| 0 <= i < j < levels.len() ==> better(side, #[trigger] levels[i].0, #[trigger] levels[j].0)
    &&& forall|i: int| 0 <= i < levels.len() ==> (#[trigger] levels[i]).1.len() > 0
}

impl BookModel {
    pub open spec fn levels(self, side: Side) -> Seq<LevelModel> {
        match side {
            Side::Bid => self.bids,
            Side::Ask => self.asks,
        }
    }

    pub open spec fn with_levels(self, side: Side, levels: Seq<LevelModel>) -> BookModel {
        match side {
            Side::Bid => BookModel { bids: levels, ..self },
            Side::Ask => BookModel { asks: levels, ..self },
        }
    }

    /// The book is not crossed: the best bid is below the best ask when both sides hold levels.
    pub open spec fn uncrossed(self) -> bool {
        self.bids.len() > 0 && self.asks.len() > 0 ==> self.bids[0].0 < self.asks[0].0
    }

    pub open spec fn wf(self) -> bool {
        &&& self.pool.wf()
        &&& levels_ordered(self.bids, Side::Bid)
        &&& levels_ordered(self.asks, Side::Ask)
        &&& side_handles_valid(self.bids, self.pool)
        &&& side_handles_valid(self.asks, self.pool)
        &&& side_priced(self.bids, self.pool)
        &&& side_priced(self.asks, self.pool)
        &&& self.uncrossed()
    }

    /// A market order: sweep the opposing side without a price bound; the rest is dropped.
    pub open spec fn after_market(self, id: u64, side: Side, qty: u64) -> (BookModel, Seq<Trade>) {
        let opp = opposite(side);
        let s = sweep(self.pool, self.levels(opp), qty, id, side, None);
        (BookModel { pool: s.0, next_fill: advanced(self.next_fill, s.2.len()), ..self }.with_levels(opp, s.1), s.2)
    }

    /// A limit order: sweep the opposing side while it crosses `price`; the rest rests at `price`.
    pub open spec fn after_limit(self, id: u64, side: Side, price: u64, qty: u64) -> (BookModel, Seq<Trade>) {
        let opp = opposite(side);
        let s = sweep(self.pool, self.levels(opp), qty, id, side, Some(price));
        let swept = BookModel { pool: s.0, next_fill: advanced(self.next_fill, s.2.len()), ..self }.with_levels(opp, s.1);
        if s.3 > 0 {
            let ins = s.0.inserted(id, price, s.3);
            (BookModel { pool: ins.0, ..swept }.with_levels(side, rest_at(self.levels(side), side, price, (ins.1, s.0.next_stamp))), s.2)
        } else {
            (swept, s.2)
        }
    }

    /// Why the book refuses an event, if it does: `Replace` is unsupported; a limit order may
    /// not reuse an id the pool still maps, nor be stored once every stamp is spent.
    pub open spec fn rejection(self, e: OrderEvent) -> Option<BookError> {
        match e {
            OrderEvent::Replace { .. } => Some(BookError::UnsupportedOperation),
            OrderEvent::Limit { id, .. } => if self.pool.index.contains_key(id) {
                Some(BookError::DuplicateId)
            } else if self.pool.next_stamp == u64::MAX {
                Some(BookError::CapacityExceeded)
            } else {
                None
            },
            _ => None,
        }
    }

    pub open spec fn after_cancel(self, id: u64) -> BookModel {
        BookModel { pool: self.pool.cancelled(id), ..self }
    }

    /// The book and the trades after one supported event.
    pub open spec fn after_event(self, e: OrderEvent) -> (BookModel, Seq<Trade>) {
        match e {
            OrderEvent::Market { id, side, qty } => self.after_market(id, side, qty),
            OrderEvent::Limit { id, side, price, qty } => self.after_limit(id, side, price, qty),
            OrderEvent::Cancel { id } => (self.after_cancel(id), Seq::empty()),
            OrderEvent::Replace { .. } => (self, Seq::empty()),
        }
    }
}


/// Every trade of a scan over a level whose entries are priced is made at the level's price.
pub(crate) proof fn lemma_scan_prices(pool: PoolModel, q: Seq<QueueEntry>, i: int, demand: u64, mark: int, aggressor: u64, price: u64)
    requires
        0 <= i,
        -1 <= mark < i,
        pool.wf(),
        handles_valid(q, pool),
        entries_priced((price, q), pool),
    ensures
        forall|k: int| 0 <= k < scan(pool, q, i, demand, mark, aggressor).1.len()
            ==> (#[trigger] scan(pool, q, i, demand, mark, aggressor).1[k]).price == price,
    decreases q.len() - i,
{
    if i >= q.len() || demand == 0 {
    } else {
        let h = q[i].0;
        let rec = pool.orders[h as int];
        if !live(pool, q[i]) {
            lemma_scan_prices(pool, q, i + 1, demand, i, aggressor, price);
            assert(scan(pool, q, i, demand, mark, aggressor) == scan(pool, q, i + 1, demand, i, aggressor));
        } else {
            let t = min_u64(demand, rec.qty);
            let next_pool = pool.filled(h, t);
            let l = (price, q);
            assert(l.1[i] == q[i]);
            assert(rec.price == price);
            assert(entries_priced(l, next_pool)) by {
                assert forall|k: int| 0 <= k < l.1.len() implies (#[trigger] l.1[k]).1 < next_pool.next_stamp
                    && (next_pool.stamps[l.1[k].0 as int] == l.1[k].1 ==> next_pool.orders[l.1[k].0 as int].price == l.0) by {
                    assert(q[k].0 < pool.orders.len());
                }
            }
            lemma_scan_prices(next_pool, q, i + 1, (demand - t) as u64, if t == rec.qty { i } else { mark }, aggressor, price);
            let r = scan(next_pool, q, i + 1, (demand - t) as u64, if t == rec.qty { i } else { mark }, aggressor);
            let all = seq![Trade { aggressor, resting: rec.id, price: rec.price, qty: t }] + r.1;
            assert forall|k: int| 0 <= k < all.len() implies (#[trigger] all[k]).price == price by {
                if k > 0 {
                    assert(all[k] == r.1[k - 1]);
                }
            }
            assert(scan(pool, q, i, demand, mark, aggressor).1 == all);
        }
    }
}

/// What a sweep leaves of a side: a suffix of its levels in the same order, the first one
/// possibly with fewer entries; trade quantity and leftover demand add up to the demand; and
/// demand is left only when no level that crosses remains.
pub(crate) proof fn lemma_sweep_shape(pool: PoolModel, levels: Seq<LevelModel>, demand: u64, aggressor: u64, side: Side, limit: Option<u64>)
    requires
        pool.wf(),
        levels_ordered(levels, opposite(side)),
        side_handles_valid(levels, pool),
        side_priced(levels, pool),
    ensures
        ({
            let r = sweep(pool, levels, demand, aggressor, side, limit);
            &&& r.0.wf()
            &&& keeps_entries(pool, r.0)
            &&& side_priced(r.1, r.0)
            &&& forall|k: int| 0 <= k < r.2.len() ==> crosses(side, limit, (#[trigger] r.2[k]).price)
            &&& r.0.orders.len() == pool.orders.len()
            &&& r.0.free == pool.free
            &&& r.0.index == pool.index
            &&& r.0.stamps == pool.stamps
            &&& r.0.next_stamp == pool.next_stamp
            &&& forall|h: int| 0 <= h < pool.orders.len() ==> (#[trigger] r.0.orders[h]).price == pool.orders[h].price
                && r.0.orders[h].id == pool.orders[h].id
            &&& r.1.len() <= levels.len()
            &&& forall|j: int| 0 <= j < r.1.len() ==> (#[trigger] r.1[j]).0 == levels[j + levels.len() - r.1.len()].0
            &&& levels_ordered(r.1, opposite(side))
            &&& side_handles_valid(r.1, r.0)
            &&& (r.3 > 0 ==> r.1.len() == 0 || !crosses(side, limit, r.1[0].0))
            &&& traded(r.2) + r.3 == demand
        }),
    decreases levels.len(),
{
    let r = sweep(pool, levels, demand, aggressor, side, limit);
    if demand == 0 || levels.len() == 0 || !crosses(side, limit, levels[0].0) {
    } else {
        let q = levels[0].1;
        assert(handles_valid(q, pool));
        let s = scan(pool, q, 0, demand, -1, aggressor);
        lemma_scan_exhausts(pool, q, 0, demand, -1, aggressor);
        let rest = q.subrange(s.3 + 1, q.len() as int);
        assert(s.0.wf());
        assert(entries_priced(levels[0], pool));
        lemma_scan_prices(pool, q, 0, demand, -1, aggressor, levels[0].0);
        assert(keeps_entries(pool, s.0));
        lemma_handles_grow(levels, pool, s.0);
        assert(entries_priced(levels[0], s.0));
        if rest.len() == 0 {
            let tail = levels.drop_first();
            assert(side_handles_valid(tail, s.0)) by {
                assert forall|j: int| 0 <= j < tail.len() implies handles_valid(#[trigger] tail[j].1, s.0) by {
                    assert(handles_valid(levels[j + 1].1, pool));
                }
            }
            assert(levels_ordered(tail, opposite(side))) by {
                assert forall|i: int, j: int| 0 <= i < j < tail.len() implies better(opposite(side), #[trigger] tail[i].0, #[trigger] tail[j].0) by {
                    assert(better(opposite(side), levels[i + 1].0, levels[j + 1].0));
                }
                assert forall|i: int| 0 <= i < tail.len() implies (#[trigger] tail[i]).1.len() > 0 by {
                    assert(levels[i + 1].1.len() > 0);
                }
            }
            assert forall|j: int| 0 <= j < tail.len() implies entries_priced(#[trigger] tail[j], s.0) by {
                assert(entries_priced(levels[j + 1], s.0));
            }
            lemma_sweep_shape(s.0, tail, s.2, aggressor, side, limit);
            let t = sweep(s.0, tail, s.2, aggressor, side, limit);
            lemma_traded_concat(s.1, t.2);
            assert forall|k: int| 0 <= k < r.2.len() implies crosses(side, limit, (#[trigger] r.2[k]).price) by {
                if k < s.1.len() {
                    assert(r.2[k] == s.1[k]);
                } else {
                    assert(r.2[k] == t.2[k - s.1.len()]);
                }
            }
            assert(keeps_entries(pool, r.0));
            assert forall|j: int| 0 <= j < r.1.len() implies (#[trigger] r.1[j]).0 == levels[j + levels.len() - r.1.len()].0 by {
                assert(t.1[j].0 == tail[j + tail.len() - t.1.len()].0);
            }
        } else {
            assert(s.2 == 0);
            assert forall|k: int| 0 <= k < rest.len() implies (#[trigger] rest[k]).0 < s.0.orders.len() by {
                assert(rest[k] == q[k + s.3 + 1]);
            }
            assert forall|j: int| 0 <= j < r.1.len() implies entries_priced(#[trigger] r.1[j], r.0) by {
                if j > 0 {
                    assert(entries_priced(levels[j], s.0));
                } else {
                    assert forall|k: int| 0 <= k < rest.len() implies (#[trigger] rest[k]).1 < s.0.next_stamp
                        && (s.0.stamps[rest[k].0 as int] == rest[k].1 ==> s.0.orders[rest[k].0 as int].price == levels[0].0) by {
                        assert(rest[k] == q[k + s.3 + 1]);
                    }
                }
            }
            assert(side_handles_valid(r.1, r.0)) by {
                assert forall|j: int| 0 <= j < r.1.len() implies handles_valid(#[trigger] r.1[j].1, r.0) by {
                    if j > 0 {
                        assert(handles_valid(levels[j].1, pool));
                    }
                }
            }
            assert(levels_ordered(r.1, opposite(side))) by {
                assert forall|i: int, j: int| 0 <= i < j < r.1.len() implies better(opposite(side), #[trigger] r.1[i].0, #[trigger] r.1[j].0) by {
                    assert(better(opposite(side), levels[i].0, levels[j].0));
                }
                assert forall|i: int| 0 <= i < r.1.len() implies (#[trigger] r.1[i]).1.len() > 0 by {
                    assert(levels[i].1.len() > 0);
                }
            }
        }
    }
}


/// Queueing a handle keeps a side in order; its best price becomes `price` when that is better.
proof fn lemma_rest_at_shape(levels: Seq<LevelModel>, side: Side, price: u64, h: QueueEntry, pool: PoolModel)
    requires
        levels_ordered(levels, side),
        side_handles_valid(levels, pool),
        h.0 < pool.orders.len(),
    ensures
        ({
            let r = rest_at(levels, side, price, h);
            &&& levels_ordered(r, side)
            &&& side_handles_valid(r, pool)
            &&& r.len() > 0
            &&& r[0].0 == if levels.len() == 0 || better(side, price, levels[0].0) { price } else { levels[0].0 }
            &&& forall|j: int| 0 <= j < r.len() ==> (#[trigger] r[j]).0 == price || exists|k: int| 0 <= k < levels.len() && r[j].0 == #[trigger] levels[k].0
        }),
    decreases levels.len(),
{
    let r = rest_at(levels, side, price, h);
    if levels.len() == 0 {
    } else if levels[0].0 == price {
        assert(handles_valid(levels[0].1, pool));
        assert(handles_valid(r[0].1, pool)) by {
            assert forall|k: int| 0 <= k < r[0].1.len() implies (#[trigger] r[0].1[k]).0 < pool.orders.len() by {
                if k < levels[0].1.len() {
                    assert(r[0].1[k] == levels[0].1[k]);
                }
            }
        }
        assert forall|j: int| 0 <= j < r.len() implies handles_valid(#[trigger] r[j].1, pool) by {
            if j > 0 {
                assert(handles_valid(levels[j].1, pool));
            }
        }
        assert forall|i: int, j: int| 0 <= i < j < r.len() implies better(side, #[trigger] r[i].0, #[trigger] r[j].0) by {
            assert(better(side, levels[i].0, levels[j].0));
        }
        assert forall|i: int| 0 <= i < r.len() implies (#[trigger] r[i]).1.len() > 0 by {
            assert(levels[i].1.len() > 0);
        }
        assert forall|j: int| 0 <= j < r.len() implies (#[trigger] r[j]).0 == price || exists|k: int| 0 <= k < levels.len() && r[j].0 == #[trigger] levels[k].0 by {
            assert(r[j].0 == levels[j].0);
        }
    } else if better(side, price, levels[0].0) {
        assert forall|j: int| 0 <= j < r.len() implies handles_valid(#[trigger] r[j].1, pool) by {
            if j > 0 {
                assert(handles_valid(levels[j - 1].1, pool));
            }
        }
        assert forall|i: int, j: int| 0 <= i < j < r.len() implies better(side, #[trigger] r[i].0, #[trigger] r[j].0) by {
            if i > 0 {
                assert(better(side, levels[i - 1].0, levels[j - 1].0));
            } else if j > 1 {
                assert(better(side, levels[0].0, levels[j - 1].0));
            }
        }
        assert forall|i: int| 0 <= i < r.len() implies (#[trigger] r[i]).1.len() > 0 by {
            if i > 0 {
                assert(levels[i - 1].1.len() > 0);
            }
        }
        assert forall|j: int| 0 <= j < r.len() implies (#[trigger] r[j]).0 == price || exists|k: int| 0 <= k < levels.len() && r[j].0 == #[trigger] levels[k].0 by {
            if j > 0 {
                assert(r[j].0 == levels[j - 1].0);
            }
        }
    } else {
        let tail = levels.drop_first();
        assert(side_handles_valid(tail, pool)) by {
            assert forall|j: int| 0 <= j < tail.len() implies handles_valid(#[trigger] tail[j].1, pool) by {
                assert(handles_valid(levels[j + 1].1, pool));
            }
        }
        assert(levels_ordered(tail, side)) by {
            assert forall|i: int, j: int| 0 <= i < j < tail.len() implies better(side, #[trigger] tail[i].0, #[trigger] tail[j].0) by {
                assert(better(side, levels[i + 1].0, levels[j + 1].0));
            }
            assert forall|i: int| 0 <= i < tail.len() implies (#[trigger] tail[i]).1.len() > 0 by {
                assert(levels[i + 1].1.len() > 0);
            }
        }
        lemma_rest_at_shape(tail, side, price, h, pool);
        let t = rest_at(tail, side, price, h);
        assert(r == seq![levels[0]] + t);
        assert forall|j: int| 0 <= j < r.len() implies handles_valid(#[trigger] r[j].1, pool) by {
            if j > 0 {
                assert(r[j] == t[j - 1]);
            } else {
                assert(handles_valid(levels[0].1, pool));
            }
        }
        assert forall|j: int| 1 <= j < r.len() implies better(side, levels[0].0, (#[trigger] r[j]).0) by {
            assert(r[j] == t[j - 1]);
            if t[j - 1].0 != price {
                let k = choose|k: int| 0 <= k < tail.len() && t[j - 1].0 == #[trigger] tail[k].0;
                assert(better(side, levels[0].0, levels[k + 1].0));
            }
        }
        assert forall|i: int, j: int| 0 <= i < j < r.len() implies better(side, #[trigger] r[i].0, #[trigger] r[j].0) by {
            if i > 0 {
                assert(r[i] == t[i - 1]);
                assert(r[j] == t[j - 1]);
            } else {
                assert(better(side, levels[0].0, r[j].0));
            }
        }
        assert forall|i: int| 0 <= i < r.len() implies (#[trigger] r[i]).1.len() > 0 by {
            if i > 0 {
                assert(r[i] == t[i - 1]);
            } else {
                assert(levels[0].1.len() > 0);
            }
        }
        assert forall|j: int| 0 <= j < r.len() implies (#[trigger] r[j]).0 == price || exists|k: int| 0 <= k < levels.len() && r[j].0 == #[trigger] levels[k].0 by {
            if j > 0 {
                assert(r[j] == t[j - 1]);
                if t[j - 1].0 != price {
                    let k = choose|k: int| 0 <= k < tail.len() && t[j - 1].0 == #[trigger] tail[k].0;
                    assert(r[j].0 == levels[k + 1].0);
                }
            } else {
                assert(r[0].0 == levels[0].0);
            }
        }
    }
}


proof fn lemma_handles_grow(levels: Seq<LevelModel>, pool: PoolModel, bigger: PoolModel)
    requires
        side_handles_valid(levels, pool),
        pool.orders.len() <= bigger.orders.len(),
    ensures
        side_handles_valid(levels, bigger),
        side_priced(levels, pool) && keeps_entries(pool, bigger) ==> side_priced(levels, bigger),
{
    if side_priced(levels, pool) && keeps_entries(pool, bigger) {
        assert forall|j: int| 0 <= j < levels.len() implies entries_priced(#[trigger] levels[j], bigger) by {
            assert(entries_priced(levels[j], pool));
            assert(handles_valid(levels[j].1, pool));
            assert forall|k: int| 0 <= k < levels[j].1.len() implies (#[trigger] levels[j].1[k]).1 < bigger.next_stamp
                && (bigger.stamps[levels[j].1[k].0 as int] == levels[j].1[k].1 ==> bigger.orders[levels[j].1[k].0 as int].price
                == levels[j].0) by {
                let e = levels[j].1[k];
                assert(e.0 < pool.orders.len());
                assert(e.1 < pool.next_stamp);
                assert(bigger.stamps[e.0 as int] >= pool.next_stamp || (bigger.stamps[e.0 as int] == pool.stamps[e.0 as int]
                    && bigger.orders[e.0 as int].price == pool.orders[e.0 as int].price));
            }
        }
    }
    assert forall|j: int| 0 <= j < levels.len() implies handles_valid(#[trigger] levels[j].1, bigger) by {
        assert(handles_valid(levels[j].1, pool));
    }
}

proof fn lemma_inserted_keeps(pool: PoolModel, id: u64, price: u64, qty: u64)
    requires
        pool.wf(),
        pool.next_stamp < u64::MAX,
    ensures
        keeps_entries(pool, pool.inserted(id, price, qty).0),
{
    let after = pool.inserted(id, price, qty).0;
    let h = pool.inserted(id, price, qty).1;
    if pool.free.len() > 0 {
        assert(pool.free[pool.free.len() - 1] < pool.orders.len());
    }
    assert forall|g: int| 0 <= g < pool.orders.len() implies (#[trigger] after.stamps[g]) >= pool.next_stamp
        || (after.stamps[g] == pool.stamps[g] && after.orders[g].price == pool.orders[g].price) by {
        if g != h {
            assert(after.stamps[g] == pool.stamps[g]);
        }
    }
}

proof fn lemma_cancelled_keeps(pool: PoolModel, id: u64)
    requires
        pool.wf(),
    ensures
        keeps_entries(pool, pool.cancelled(id)),
        pool.cancelled(id).orders.len() == pool.orders.len(),
{
    let after = pool.cancelled(id);
    if pool.index.contains_key(id) {
        assert forall|g: int| 0 <= g < pool.orders.len() implies (#[trigger] after.stamps[g]) >= pool.next_stamp
            || (after.stamps[g] == pool.stamps[g] && after.orders[g].price == pool.orders[g].price) by {
        }
    }
}

/// Queueing an entry priced at its level keeps every level's entries priced.
proof fn lemma_rest_at_priced(levels: Seq<LevelModel>, side: Side, price: u64, h: QueueEntry, pool: PoolModel)
    requires
        side_priced(levels, pool),
        entries_priced((price, seq![h]), pool),
    ensures
        side_priced(rest_at(levels, side, price, h), pool),
    decreases levels.len(),
{
    let r = rest_at(levels, side, price, h);
    let single = (price, seq![h]);
    assert(single.1[0] == h);
    assert(h.1 < pool.next_stamp && (pool.stamps[h.0 as int] == h.1 ==> pool.orders[h.0 as int].price == price));
    if levels.len() == 0 {
        assert(r[0] == (price, seq![h]));
    } else if levels[0].0 == price {
        assert(entries_priced(levels[0], pool));
        assert forall|j: int| 0 <= j < r.len() implies entries_priced(#[trigger] r[j], pool) by {
            if j > 0 {
                assert(entries_priced(levels[j], pool));
            } else {
                assert forall|k: int| 0 <= k < r[0].1.len() implies (#[trigger] r[0].1[k]).1 < pool.next_stamp
                    && (pool.stamps[r[0].1[k].0 as int] == r[0].1[k].1 ==> pool.orders[r[0].1[k].0 as int].price == r[0].0) by {
                    assert(r[0].0 == levels[0].0);
                    if k < levels[0].1.len() {
                        assert(r[0].1[k] == levels[0].1[k]);
                    } else {
                        assert(r[0].1[k] == h);
                    }
                }
            }
        }
    } else if better(side, price, levels[0].0) {
        assert forall|j: int| 0 <= j < r.len() implies entries_priced(#[trigger] r[j], pool) by {
            if j > 0 {
                assert(entries_priced(levels[j - 1], pool));
            } else {
                assert(r[0] == (price, seq![h]));
            }
        }
    } else {
        let tail = levels.drop_first();
        assert forall|j: int| 0 <= j < tail.len() implies entries_priced(#[trigger] tail[j], pool) by {
            assert(entries_priced(levels[j + 1], pool));
        }
        lemma_rest_at_priced(tail, side, price, h, pool);
        let t = rest_at(tail, side, price, h);
        assert forall|j: int| 0 <= j < r.len() implies entries_priced(#[trigger] r[j], pool) by {
            if j > 0 {
                assert(r[j] == t[j - 1]);
            } else {
                assert(entries_priced(levels[0], pool));
            }
        }
    }
}

/// A limit order book for one instrument: the order pool, both sides' price levels
/// (best price first), and the source of fill ids.
#[derive(Debug)]
pub struct OrderBook {
    instrument: Instrument,
    order_list: OrderList,
    bids: Vec<PriceLevel>,
    asks: Vec<PriceLevel>,
    fill_ids: IdGen,
}

impl View for OrderBook {
    type V = BookModel;

    closed spec fn view(&self) -> BookModel {
        BookModel {
            pool: self.order_list@,
            bids: side_view(self.bids@),
            asks: side_view(self.asks@),
            next_fill: self.fill_ids.seq,
        }
    }
}

impl OrderBook {
    /// An empty book; its fill ids start at 1.
    pub fn new(instrument: Instrument) -> (r: Self)
        ensures
            r@.wf(),
            r@.bids.len() == 0,
            r@.asks.len() == 0,
            r@.pool.orders.len() == 0,
            r@.pool.free.len() == 0,
            r@.pool.index == Map::<u64, usize>::empty(),
            r@.next_fill == 1,
            r@.pool.next_stamp == 0,
            r.instrument() == instrument,
    {
        let r = OrderBook {
            instrument,
            order_list: OrderList::new(),
            bids: Vec::new(),
            asks: Vec::new(),
            fill_ids: IdGen::new(),
        };
        assert(side_view(r.bids@) =~= Seq::<LevelModel>::empty());
        assert(side_view(r.asks@) =~= Seq::<LevelModel>::empty());
        r
    }

    pub closed spec fn instrument(&self) -> Instrument {
        self.instrument
    }

    /// Processes one event and returns the fills it produced, in the order they were made.
    /// A rejected event (see `BookModel::rejection`) leaves the book as it was.
    pub fn event(&mut self, event: OrderEvent) -> (r: Result<Vec<OrderFill>, BookError>)
        requires
            old(self)@.wf(),
        ensures
            final(self)@.wf(),
            final(self)@.uncrossed(),
            final(self).instrument() == old(self).instrument(),
            match old(self)@.rejection(event) {
                Some(err) => r == Err::<Vec<OrderFill>, BookError>(err) && final(self)@ == old(self)@,
                None => match r {
                    Ok(fills) => {
                        &&& final(self)@ == old(self)@.after_event(event).0
                        &&& fills_carry(fills@, old(self)@.after_event(event).1, old(self)@.next_fill)
                    },
                    Err(_) => false,
                },
            },
    {
        match event {
            OrderEvent::Market { id, side, qty } => Ok(self.market(id, side, qty)),
            OrderEvent::Limit { id, side, price, qty } => {
                if self.order_list.lookup(id).is_some() {
                    Err(BookError::DuplicateId)
                } else if self.order_list.has_room() {
                    Ok(self.limit(id, side, qty, price))
                } else {
                    Err(BookError::CapacityExceeded)
                }
            },
            OrderEvent::Cancel { id } => {
                let _ = self.cancel(id);
                Ok(Vec::new())
            },
            OrderEvent::Replace { .. } => Err(BookError::UnsupportedOperation),
        }
    }

    /// Cancels a resting order; an unknown id is not reported.
    pub fn cancel(&mut self, order_id: u64) -> (r: Result<(), BookError>)
        requires
            old(self)@.wf(),
        ensures
            r is Ok,
            final(self)@ == old(self)@.after_cancel(order_id),
            final(self)@.wf(),
            final(self).instrument() == old(self).instrument(),
    {
        let _ = self.order_list.delete(&order_id);
        proof {
            lemma_cancelled_keeps(old(self)@.pool, order_id);
            lemma_handles_grow(side_view(self.bids@), old(self)@.pool, self@.pool);
            lemma_handles_grow(side_view(self.asks@), old(self)@.pool, self@.pool);
        }
        Ok(())
    }

    /// Cancels a resting order, reporting an unknown id as `NotFound`.
    pub fn cancel_checked(&mut self, order_id: u64) -> (r: Result<(), BookError>)
        requires
            old(self)@.wf(),
        ensures
            r is Ok <==> old(self)@.pool.index.contains_key(order_id),
            r is Err ==> r == Err::<(), BookError>(BookError::NotFound),
            final(self)@ == old(self)@.after_cancel(order_id),
            final(self)@.wf(),
            final(self).instrument() == old(self).instrument(),
    {
        let found = self.order_list.delete(&order_id);
        proof {
            lemma_cancelled_keeps(old(self)@.pool, order_id);
            lemma_handles_grow(side_view(self.bids@), old(self)@.pool, self@.pool);
            lemma_handles_grow(side_view(self.asks@), old(self)@.pool, self@.pool);
        }
        if found {
            Ok(())
        } else {
            Err(BookError::NotFound)
        }
    }

    /// The remaining quantity of the order `id`, if it is known to the pool.
    pub fn resting_qty(&self, id: u64) -> (r: Option<u64>)
        requires
            self@.wf(),
        ensures
            r == (if self@.pool.index.contains_key(id) {
                Some(self@.pool.orders[self@.pool.index[id] as int].qty)
            } else {
                None::<u64>
            }),
    {
        match self.order_list.lookup(id) {
            Some(h) => Some(self.order_list.get(h).qty()),
            None => None,
        }
    }

    /// The number of price levels on `side`.
    pub fn level_count(&self, side: Side) -> (r: usize)
        ensures
            r == self@.levels(side).len(),
    {
        match side {
            Side::Bid => self.bids.len(),
            Side::Ask => self.asks.len(),
        }
    }

    /// The highest bid price, if any bid rests.
    pub fn max_bid(&self) -> (r: Option<u64>)
        requires
            self@.wf(),
        ensures
            r == (if self@.bids.len() == 0 { None } else { Some(self@.bids[0].0) }),
            r matches Some(p) ==> forall|j: int| 0 <= j < self@.bids.len() ==> #[trigger] self@.bids[j].0 <= p,
    {
        if self.bids.len() == 0 {
            None
        } else {
            proof {
                assert forall|j: int| 0 <= j < self@.bids.len() implies #[trigger] self@.bids[j].0 <= self@.bids[0].0 by {
                    if j > 0 {
                        assert(better(Side::Bid, self@.bids[0].0, self@.bids[j].0));
                    }
                }
            }
            Some(self.bids[0].price)
        }
    }

    /// The lowest ask price, if any ask rests.
    pub fn min_ask(&self) -> (r: Option<u64>)
        requires
            self@.wf(),
        ensures
            r == (if self@.asks.len() == 0 { None } else { Some(self@.asks[0].0) }),
            r matches Some(p) ==> forall|j: int| 0 <= j < self@.asks.len() ==> p <= #[trigger] self@.asks[j].0,
    {
        if self.asks.len() == 0 {
            None
        } else {
            proof {
                assert forall|j: int| 0 <= j < self@.asks.len() implies self@.asks[0].0 <= #[trigger] self@.asks[j].0 by {
                    if j > 0 {
                        assert(better(Side::Ask, self@.asks[0].0, self@.asks[j].0));
                    }
                }
            }
            Some(self.asks[0].price)
        }
    }

    /// A market order: trades against the opposing side, best price first, until `qty` is
    /// exhausted or that side is empty; nothing rests.
    fn market(&mut self, id: u64, side: Side, qty: u64) -> (fills: Vec<OrderFill>)
        requires
            old(self)@.wf(),
        ensures
            final(self)@ == old(self)@.after_market(id, side, qty).0,
            fills_carry(fills@, old(self)@.after_market(id, side, qty).1, old(self)@.next_fill),
            final(self)@.wf(),
            final(self).instrument() == old(self).instrument(),
    {
        let ghost m = self@;
        let ghost opp = opposite(side);
        proof {
            lemma_sweep_shape(m.pool, m.levels(opp), qty, id, side, None);
        }
        let (fills, _remaining) = match side {
            Side::Bid => match_side(&mut self.order_list, &mut self.fill_ids, &mut self.asks, qty, id, side, None),
            Side::Ask => match_side(&mut self.order_list, &mut self.fill_ids, &mut self.bids, qty, id, side, None),
        };
        proof {
            lemma_handles_grow(m.levels(side), m.pool, self@.pool);
            let r = sweep(m.pool, m.levels(opp), qty, id, side, None);
            if r.1.len() > 0 && m.levels(opp).len() > 0 {
                let k = m.levels(opp).len() - r.1.len();
                assert(r.1[0].0 == m.levels(opp)[k].0);
                if k > 0 {
                    assert(better(opp, m.levels(opp)[0].0, m.levels(opp)[k].0));
                }
            }
        }
        fills
    }

    /// A limit order: trades against the opposing side while its best price crosses `price`;
    /// any remainder rests at `price`, behind the orders already there.
    fn limit(&mut self, id: u64, side: Side, qty: u64, price: u64) -> (fills: Vec<OrderFill>)
        requires
            old(self)@.wf(),
            old(self)@.pool.next_stamp < u64::MAX,
        ensures
            final(self)@ == old(self)@.after_limit(id, side, price, qty).0,
            fills_carry(fills@, old(self)@.after_limit(id, side, price, qty).1, old(self)@.next_fill),
            final(self)@.wf(),
            final(self).instrument() == old(self).instrument(),
    {
        let ghost m = self@;
        let ghost opp = opposite(side);
        proof {
            lemma_sweep_shape(m.pool, m.levels(opp), qty, id, side, Some(price));
        }
        let (fills, remaining) = match side {
            Side::Bid => match_side(&mut self.order_list, &mut self.fill_ids, &mut self.asks, qty, id, side, Some(price)),
            Side::Ask => match_side(&mut self.order_list, &mut self.fill_ids, &mut self.bids, qty, id, side, Some(price)),
        };
        let ghost swept = self@;
        proof {
            lemma_handles_grow(m.levels(side), m.pool, self@.pool);
            let r = sweep(m.pool, m.levels(opp), qty, id, side, Some(price));
            if r.1.len() > 0 && m.levels(opp).len() > 0 {
                let k = m.levels(opp).len() - r.1.len();
                assert(r.1[0].0 == m.levels(opp)[k].0);
                if k > 0 {
                    assert(better(opp, m.levels(opp)[0].0, m.levels(opp)[k].0));
                }
            }
        }
        if remaining > 0 {
            let index = self.order_list.insert(id, price, remaining);
            let entry = (index, self.order_list.stamp(index));
            match side {
                Side::Bid => rest_order(&mut self.bids, side, price, entry),
                Side::Ask => rest_order(&mut self.asks, side, price, entry),
            }
            proof {
                lemma_inserted_keeps(swept.pool, id, price, remaining);
                lemma_handles_grow(swept.levels(side), swept.pool, self@.pool);
                lemma_handles_grow(swept.levels(opp), swept.pool, self@.pool);
                lemma_rest_at_shape(swept.levels(side), side, price, entry, self@.pool);
                assert(entries_priced((price, seq![entry]), self@.pool)) by {
                    assert(seq![entry][0] == entry);
                }
                lemma_rest_at_priced(swept.levels(side), side, price, entry, self@.pool);
            }
        }
        fills
    }
}

} // verus!
