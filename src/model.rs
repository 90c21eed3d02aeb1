use vstd::prelude::*;

verus! {

/// Largest value of a `u64`, plus one: the modulus of the fill-id counter.
pub open spec fn id_modulus() -> int {
    0x1_0000_0000_0000_0000
}

/// A monotonic identifier source, starting at 1.
#[derive(Debug)]
pub struct IdGen {
    pub seq: u64,
}

impl IdGen {
    pub fn new() -> (r: Self)
        ensures
            r.seq == 1,
    {
        IdGen { seq: 1 }
    }

    /// Hands out the current counter value and advances it (wrapping past `u64::MAX`).
    pub fn next(&mut self) -> (r: u64)
        ensures
            r == old(self).seq,
            final(self).seq == (old(self).seq + 1) % id_modulus(),
    {
        let r = self.seq;
        self.seq = self.seq.wrapping_add(1);
        r
    }
}

/// Identity of the traded instrument.
#[derive(Debug, Clone, PartialEq, Eq)]
pub struct Instrument {
    pub symbol: String,
}

impl Instrument {
    pub fn new(sym: &str) -> (r: Self)
        ensures
            r.symbol@ == sym@,
    {
        Instrument { symbol: sym.to_string() }
    }
}

#[derive(Debug, PartialEq, Eq, Copy, Clone, Structural)]
pub enum Side {
    Bid,
    Ask,
}

#[derive(Debug, Copy, Clone)]
pub enum OrderEvent {
    Market { id: u64, side: Side, qty: u64 },
    Limit { id: u64, side: Side, price: u64, qty: u64 },
    Cancel { id: u64 },
    Replace { id: u64, side: Side, price: u64, qty: u64 },
}

impl OrderEvent {
    pub fn market(id: u64, side: Side, qty: u64) -> (r: Self)
        ensures
            r == (OrderEvent::Market { id, side, qty }),
    {
        OrderEvent::Market { id, side, qty }
    }

    pub fn limit(id: u64, side: Side, price: u64, qty: u64) -> (r: Self)
        ensures
            r == (OrderEvent::Limit { id, side, price, qty }),
    {
        OrderEvent::Limit { id, side, price, qty }
    }
}

/// A trade between an aggressor and a resting order, without its fill id.
pub ghost struct Trade {
    pub aggressor: u64,
    pub resting: u64,
    pub price: u64,
    pub qty: u64,
}

/// A fill: `ord_id_1` is the aggressor, `ord_id_2` the resting order.
#[derive(Debug, Copy, Clone)]
pub struct OrderFill {
    pub id: u64,
    pub ord_id_1: u64,
    pub ord_id_2: u64,
    pub price: u64,
    pub qty: u64,
}

impl OrderFill {
    pub open spec fn trade(self) -> Trade {
        Trade { aggressor: self.ord_id_1, resting: self.ord_id_2, price: self.price, qty: self.qty }
    }

    /// Creates a fill whose id is drawn from `ids`.
    pub fn new(ids: &mut IdGen, ord_id_1: u64, ord_id_2: u64, price: u64, qty: u64) -> (r: Self)
        ensures
            r.id == old(ids).seq,
            final(ids).seq == (old(ids).seq + 1) % id_modulus(),
            r.ord_id_1 == ord_id_1,
            r.ord_id_2 == ord_id_2,
            r.price == price,
            r.qty == qty,
    {
        let id = ids.next();
        OrderFill { id, ord_id_1, ord_id_2, price, qty }
    }

    pub fn id(&self) -> (r: u64)
        ensures
            r == self.id,
    {
        self.id
    }

    pub fn ord_id_1(&self) -> (r: u64)
        ensures
            r == self.ord_id_1,
    {
        self.ord_id_1
    }

    pub fn ord_id_2(&self) -> (r: u64)
        ensures
            r == self.ord_id_2,
    {
        self.ord_id_2
    }

    pub fn price(&self) -> (r: u64)
        ensures
            r == self.price,
    {
        self.price
    }

    pub fn qty(&self) -> (r: u64)
        ensures
            r == self.qty,
    {
        self.qty
    }
}

/// A resting order's record: persistent id, price and remaining quantity.
#[derive(Debug, Clone, Copy)]
pub struct OrderInfo {
    pub id: u64,
    pub price: u64,
    pub qty: u64,
}

impl OrderInfo {
    pub fn new(id: u64, price: u64, qty: u64) -> (r: Self)
        ensures
            r == (OrderInfo { id, price, qty }),
    {
        OrderInfo { id, price, qty }
    }

    pub fn id(&self) -> (r: u64)
        ensures
            r == self.id,
    {
        self.id
    }

    pub fn price(&self) -> (r: u64)
        ensures
            r == self.price,
    {
        self.price
    }

    pub fn qty(&self) -> (r: u64)
        ensures
            r == self.qty,
    {
        self.qty
    }

    /// Subtracts a traded quantity from the remaining quantity.
    pub fn fill(&mut self, fill_qty: u64)
        requires
            fill_qty <= old(self).qty,
        ensures
            *final(self) == (OrderInfo { qty: (old(self).qty - fill_qty) as u64, ..*old(self) }),
    {
        self.qty = self.qty - fill_qty;
    }
}

} // verus!
