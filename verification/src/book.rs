//! The canonical data: price levels, tagged orders and the merged book.

use vstd::prelude::*;
use crate::decimal::Decimal;

verus! {

/// Most entries that one side of a merged book holds.
pub const CAP_N: usize = 11;

/// The venues, in their order of precedence: on equal prices the one listed
/// first comes first.
#[derive(Clone, Copy, Debug, PartialEq, Eq, Structural)]
pub enum Exchange {
    Bitstamp,
    Binance,
}

/// The two sides of a book.
#[derive(Clone, Copy, Debug, PartialEq, Eq, Structural)]
pub enum Side {
    Bid,
    Ask,
}

/// One price level of one venue's book.
#[derive(Clone, Copy, Debug, PartialEq, Eq, Structural)]
pub struct PriceLevel {
    pub price: Decimal,
    pub quantity: Decimal,
}

/// A price level tagged with the venue that it came from.
#[derive(Clone, Copy, Debug, PartialEq, Eq, Structural)]
pub struct Order {
    pub exchange: Exchange,
    pub price: Decimal,
    pub qty: Decimal,
}

/// The latest depth that one venue delivered, each side best first.
#[derive(Debug)]
pub struct DepthSnapshot {
    pub bids: Vec<PriceLevel>,
    pub asks: Vec<PriceLevel>,
}

/// The merged top of book of both venues.
#[derive(Debug)]
pub struct OrderBook {
    pub bids: Vec<Order>,
    pub asks: Vec<Order>,
    /// Best ask minus best bid in units of 10^-8; absent while a side is empty.
    pub spread: Option<i128>,
}

/// The identifier under which a venue is published.
pub open spec fn exchange_name(x: Exchange) -> Seq<char> {
    match x {
        Exchange::Bitstamp => "bitstamp"@,
        Exchange::Binance => "binance"@,
    }
}

/// Best ask minus best bid where both sides have a level.
pub open spec fn spread_of(bids: Seq<Order>, asks: Seq<Order>) -> Option<int> {
    if bids.len() > 0 && asks.len() > 0 {
        Some(asks[0].price.units - bids[0].price.units)
    } else {
        None
    }
}

/// `a` is at least as good a price as `b` on the given side: no lower for a
/// bid, no higher for an ask.
pub open spec fn no_worse(side: Side, a: Decimal, b: Decimal) -> bool {
    match side {
        Side::Bid => a.units >= b.units,
        Side::Ask => a.units <= b.units,
    }
}

/// `a` is a strictly better price than `b` on the given side.
pub open spec fn better(side: Side, a: Decimal, b: Decimal) -> bool {
    match side {
        Side::Bid => a.units > b.units,
        Side::Ask => a.units < b.units,
    }
}

impl Exchange {
    /// The identifier under which the venue appears in what is published.
    pub fn name(self) -> (r: String)
        ensures
            r@ == exchange_name(self),
    {
        match self {
            Exchange::Bitstamp => "bitstamp".to_owned(),
            Exchange::Binance => "binance".to_owned(),
        }
    }
}

impl DepthSnapshot {
    /// A snapshot without any level.
    pub fn empty() -> (r: DepthSnapshot)
        ensures
            r.bids@.len() == 0,
            r.asks@.len() == 0,
    {
        DepthSnapshot { bids: Vec::new(), asks: Vec::new() }
    }
}

/// A copy of `v`.
pub fn copy_orders(v: &Vec<Order>) -> (r: Vec<Order>)
    ensures
        r@ == v@,
{
    let mut out: Vec<Order> = Vec::new();
    let mut i: usize = 0;
    while i < v.len()
        invariant
            i <= v.len(),
            out@ == v@.subrange(0, i as int),
        decreases v.len() - i,
    {
        out.push(v[i]);
        proof {
            assert(out@ =~= v@.subrange(0, i + 1));
        }
        i += 1;
    }
    proof {
        assert(v@.subrange(0, v@.len() as int) =~= v@);
    }
    out
}

/// What `OrderBook` holds in `spread` for the given two sides.
pub fn compute_spread(bids: &Vec<Order>, asks: &Vec<Order>) -> (r: Option<i128>)
    ensures
        match r {
            Some(d) => spread_of(bids@, asks@) == Some(d as int),
            None => spread_of(bids@, asks@) is None,
        },
{
    if bids.len() > 0 && asks.len() > 0 {
        let ask: i128 = asks[0].price.units as i128;
        let bid: i128 = bids[0].price.units as i128;
        Some(ask - bid)
    } else {
        None
    }
}

impl OrderBook {
    /// Neither side is longer than `CAP_N` and the spread is that of the two
    /// best levels.
    pub open spec fn wf(&self) -> bool {
        &&& self.bids@.len() <= CAP_N
        &&& self.asks@.len() <= CAP_N
        &&& match self.spread {
            Some(d) => spread_of(self.bids@, self.asks@) == Some(d as int),
            None => spread_of(self.bids@, self.asks@) is None,
        }
    }

    /// The book before any venue has delivered anything.
    pub fn new() -> (r: OrderBook)
        ensures
            r.wf(),
            r.bids@.len() == 0,
            r.asks@.len() == 0,
            r.spread is None,
    {
        OrderBook { bids: Vec::new(), asks: Vec::new(), spread: None }
    }

    /// Whether the book is well formed.
    pub fn is_well_formed(&self) -> (r: bool)
        ensures
            r == self.wf(),
    {
        if self.bids.len() > CAP_N || self.asks.len() > CAP_N {
            return false;
        }
        match (compute_spread(&self.bids, &self.asks), self.spread) {
            (Some(x), Some(y)) => x == y,
            (None, None) => true,
            _ => false,
        }
    }

    /// Replaces both sides and computes the spread anew.
    pub fn update_book(&mut self, bids: Vec<Order>, asks: Vec<Order>)
        requires
            bids@.len() <= CAP_N,
            asks@.len() <= CAP_N,
        ensures
            final(self).wf(),
            final(self).bids@ == bids@,
            final(self).asks@ == asks@,
    {
        self.spread = compute_spread(&bids, &asks);
        self.bids = bids;
        self.asks = asks;
    }

    /// A copy of the book.
    pub fn return_book(&self) -> (r: OrderBook)
        ensures
            r.bids@ == self.bids@,
            r.asks@ == self.asks@,
            r.spread == self.spread,
    {
        OrderBook {
            bids: copy_orders(&self.bids),
            asks: copy_orders(&self.asks),
            spread: self.spread,
        }
    }
}

} // verus!
