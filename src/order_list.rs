use std::collections::HashMap;
use vstd::prelude::*;

use crate::model::OrderInfo;

verus! {

broadcast use vstd::std_specs::hash::group_hash_axioms;

/// The pool's contents: record slots, the stamp each slot got when it was last filled, the
/// stack of free slots, the id-to-slot mapping, and the stamp the next record gets.
pub ghost struct PoolModel {
    pub orders: Seq<OrderInfo>,
    pub stamps: Seq<u64>,
    pub free: Seq<usize>,
    pub index: Map<u64, usize>,
    pub next_stamp: u64,
}

impl PoolModel {
    /// Every handle held by the pool addresses an existing slot; every stamp handed out is
    /// below `next_stamp`; free slots are distinct and unmapped; no two ids share a slot.
    pub open spec fn wf(self) -> bool {
        &&& self.orders.len() <= usize::MAX
        &&& self.stamps.len() == self.orders.len()
        &&& forall|h: int| 0 <= h < self.stamps.len() ==> (#[trigger] self.stamps[h]) < self.next_stamp
        &&& forall|i: int| 0 <= i < self.free.len() ==> (#[trigger] self.free[i]) < self.orders.len()
        &&& self.free.no_duplicates()
        &&& forall|id: u64| #[trigger]
            self.index.contains_key(id) ==> self.index[id] < self.orders.len() && !self.free.contains(self.index[id])
        &&& forall|a: u64, b: u64|
            #![trigger self.index[a], self.index[b]]
            self.index.contains_key(a) && self.index.contains_key(b) && a != b ==> self.index[a] != self.index[b]
    }

    /// The pool after storing a new record, and the handle it got: the most recently freed
    /// slot is reused first, else a new slot is appended. The slot is stamped with `next_stamp`.
    pub open spec fn inserted(self, id: u64, price: u64, qty: u64) -> (PoolModel, usize) {
        let rec = OrderInfo { id, price, qty };
        let stamp = (self.next_stamp + 1) as u64;
        if self.free.len() == 0 {
            let h = self.orders.len() as usize;
            (
                PoolModel {
                    orders: self.orders.push(rec),
                    stamps: self.stamps.push(self.next_stamp),
                    free: self.free,
                    index: self.index.insert(id, h),
                    next_stamp: stamp,
                },
                h,
            )
        } else {
            let h = self.free.last();
            (
                PoolModel {
                    orders: self.orders.update(h as int, rec),
                    stamps: self.stamps.update(h as int, self.next_stamp),
                    free: self.free.drop_last(),
                    index: self.index.insert(id, h),
                    next_stamp: stamp,
                },
                h,
            )
        }
    }

    /// The pool after cancelling `id`: its slot is zeroed and freed, the mapping removed.
    /// An unknown id leaves the pool as it is.
    pub open spec fn cancelled(self, id: u64) -> PoolModel {
        if self.index.contains_key(id) {
            let h = self.index[id];
            PoolModel {
                orders: self.orders.update(h as int, OrderInfo { qty: 0, ..self.orders[h as int] }),
                free: self.free.push(h),
                index: self.index.remove(id),
                ..self
            }
        } else {
            self
        }
    }

    /// The pool after trading `qty` against the record in slot `h`.
    pub open spec fn filled(self, h: usize, qty: u64) -> PoolModel {
        let rec = self.orders[h as int];
        PoolModel {
            orders: self.orders.update(h as int, OrderInfo { qty: (rec.qty - qty) as u64, ..rec }),
            ..self
        }
    }
}

/// Handle-addressed storage of resting order records, with a free list and an id index.
/// Each slot carries the stamp of the record stored in it, so that a queue entry made for an
/// earlier occupant of a reused slot can be told apart from the current one.
#[derive(Debug)]
pub struct OrderList {
    orders: Vec<OrderInfo>,
    stamps: Vec<u64>,
    free: Vec<usize>,
    order_map: HashMap<u64, usize>,
    next_stamp: u64,
}

impl View for OrderList {
    type V = PoolModel;

    closed spec fn view(&self) -> PoolModel {
        PoolModel {
            orders: self.orders@,
            stamps: self.stamps@,
            free: self.free@,
            index: self.order_map@,
            next_stamp: self.next_stamp,
        }
    }
}

impl OrderList {
    pub fn new() -> (r: Self)
        ensures
            r@.wf(),
            r@.orders.len() == 0,
            r@.free.len() == 0,
            r@.index == Map::<u64, usize>::empty(),
            r@.next_stamp == 0,
    {
        let r = OrderList { orders: Vec::new(), stamps: Vec::new(), free: Vec::new(), order_map: HashMap::new(), next_stamp: 0 };
        assert(r@.free.no_duplicates());
        r
    }

    /// Whether another record can still be stamped.
    pub fn has_room(&self) -> (r: bool)
        ensures
            r == (self@.next_stamp < u64::MAX),
    {
        self.next_stamp < u64::MAX
    }

    /// Stores a record and returns its handle.
    pub fn insert(&mut self, id: u64, price: u64, qty: u64) -> (r: usize)
        requires
            old(self)@.wf(),
            old(self)@.next_stamp < u64::MAX,
        ensures
            (final(self)@, r) == old(self)@.inserted(id, price, qty),
            final(self)@.wf(),
            old(self)@.index.contains_key(id) ==> r != old(self)@.index[id],
    {
        let ghost before = self@;
        let stamp = self.next_stamp;
        proof {
            if before.free.len() > 0 {
                assert(before.free[before.free.len() - 1] < before.orders.len());
            }
        }
        let index = match self.free.pop() {
            None => {
                self.orders.push(OrderInfo::new(id, price, qty));
                self.stamps.push(stamp);
                self.orders.len() - 1
            },
            Some(index) => {
                assert(index < self.orders.len());
                self.orders[index] = OrderInfo::new(id, price, qty);
                self.stamps[index] = stamp;
                index
            },
        };
        self.order_map.insert(id, index);
        self.next_stamp = stamp + 1;
        proof {
            if before.index.contains_key(id) {
                let old_slot = before.index[id];
                assert(old_slot < before.orders.len() && !before.free.contains(old_slot));
                if before.free.len() > 0 {
                    assert(before.free.contains(index));
                }
            }
            let after = self@;
            assert(after.free =~= before.inserted(id, price, qty).0.free);
            assert(after.stamps =~= before.inserted(id, price, qty).0.stamps);
            assert forall|h: int| 0 <= h < after.stamps.len() implies (#[trigger] after.stamps[h]) < after.next_stamp by {
                if h != index {
                    assert(after.stamps[h] == before.stamps[h]);
                }
            }
            assert forall|i: int| 0 <= i < after.free.len() implies (#[trigger] after.free[i]) < after.orders.len() by {
                assert(after.free[i] == before.free[i]);
            }
            assert(!after.free.contains(index)) by {
                if before.free.len() > 0 {
                    if after.free.contains(index) {
                        let i = choose|i: int| 0 <= i < after.free.len() && after.free[i] == index;
                        assert(before.free[i] == before.free[before.free.len() - 1]);
                    }
                }
            }
            assert forall|k: u64| #[trigger] after.index.contains_key(k) implies after.index[k] < after.orders.len()
                && !after.free.contains(after.index[k]) by {
                if k != id {
                    assert(before.index.contains_key(k));
                    if after.free.contains(after.index[k]) {
                        let i = choose|i: int| 0 <= i < after.free.len() && after.free[i] == after.index[k];
                        assert(before.free[i] == after.free[i]);
                    }
                }
            }
            assert forall|a: u64, b: u64|
                after.index.contains_key(a) && after.index.contains_key(b) && a != b implies #[trigger] after.index[a]
                    != #[trigger] after.index[b] by {
                if a != id && b != id {
                    assert(before.index[a] != before.index[b]);
                } else if a == id {
                    assert(before.index.contains_key(b));
                    if before.free.len() > 0 {
                        assert(before.free.contains(index));
                    }
                } else {
                    assert(before.index.contains_key(a));
                    if before.free.len() > 0 {
                        assert(before.free.contains(index));
                    }
                }
            }
        }
        index
    }

    /// Cancels the order `id`; returns whether it was known.
    pub fn delete(&mut self, id: &u64) -> (r: bool)
        requires
            old(self)@.wf(),
        ensures
            r == old(self)@.index.contains_key(*id),
            final(self)@ == old(self)@.cancelled(*id),
            final(self)@.wf(),
    {
        let ghost before = self@;
        match self.order_map.remove(id) {
            Some(idx) => {
                assert(before.index.contains_key(*id) && before.index[*id] == idx);
                assert(idx < self.orders.len());
                self.free.push(idx);
                self.orders[idx].qty = 0;
                proof {
                    let after = self@;
                    assert(after.orders =~= before.cancelled(*id).orders);
                    assert(after.index =~= before.cancelled(*id).index);
                    assert forall|i: int| 0 <= i < after.free.len() implies (#[trigger] after.free[i]) < after.orders.len() by {
                        if i < before.free.len() {
                            assert(after.free[i] == before.free[i]);
                        }
                    }
                    assert(after.free.no_duplicates()) by {
                        assert forall|i: int, j: int| 0 <= i < j < after.free.len() implies after.free[i] != after.free[j] by {
                            if j == before.free.len() {
                                assert(after.free[i] == before.free[i]);
                                assert(before.free.contains(before.free[i]));
                            } else {
                                assert(after.free[i] == before.free[i]);
                                assert(after.free[j] == before.free[j]);
                            }
                        }
                    }
                    assert forall|k: u64| #[trigger] after.index.contains_key(k) implies after.index[k] < after.orders.len()
                        && !after.free.contains(after.index[k]) by {
                        assert(before.index.contains_key(k));
                        assert(before.index[k] != idx);
                        if after.free.contains(after.index[k]) {
                            let i = choose|i: int| 0 <= i < after.free.len() && after.free[i] == after.index[k];
                            if i < before.free.len() {
                                assert(before.free[i] == after.free[i]);
                            }
                        }
                    }
                    assert forall|a: u64, b: u64|
                        after.index.contains_key(a) && after.index.contains_key(b) && a != b implies #[trigger] after.index[a]
                            != #[trigger] after.index[b] by {
                        assert(before.index[a] != before.index[b]);
                    }
                }
                true
            },
            None => {
                assert(self@.index =~= before.index);
                false
            },
        }
    }

    /// The handle that `id` maps to, if any.
    pub fn lookup(&self, id: u64) -> (r: Option<usize>)
        ensures
            r == (if self@.index.contains_key(id) { Some(self@.index[id]) } else { None::<usize> }),
    {
        match self.order_map.get(&id) {
            Some(h) => Some(*h),
            None => None,
        }
    }

    /// The record in slot `h`.
    pub fn get(&self, h: usize) -> (r: OrderInfo)
        requires
            h < self@.orders.len(),
        ensures
            r == self@.orders[h as int],
    {
        self.orders[h]
    }

    /// The stamp of the record in slot `h`.
    pub fn stamp(&self, h: usize) -> (r: u64)
        requires
            h < self@.stamps.len(),
        ensures
            r == self@.stamps[h as int],
    {
        self.stamps[h]
    }

    /// Trades `qty` against the record in slot `h`.
    pub fn fill(&mut self, h: usize, qty: u64)
        requires
            h < old(self)@.orders.len(),
            qty <= old(self)@.orders[h as int].qty,
        ensures
            final(self)@ == old(self)@.filled(h, qty),
    {
        self.orders[h].fill(qty);
    }
}

} // verus!
