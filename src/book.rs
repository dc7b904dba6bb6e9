//! The normalized order-book data: anonymous and attributed price levels, one
//! exchange's snapshot, and the merged summary.

use vstd::prelude::*;

verus! {

/// A price and an amount as one exchange quotes them, both in units of
/// hundred-millionths.
#[derive(Debug, Clone, Copy, PartialEq, Eq)]
pub struct AnonymousLevel {
    pub price: u64,
    pub amount: u64,
}

/// A price level attributed to the exchange that quoted it.
#[derive(Debug)]
pub struct Level {
    pub exchange: String,
    pub price: u64,
    pub amount: u64,
}

impl Clone for Level {
    fn clone(&self) -> (r: Level)
        ensures
            r == *self,
    {
        Level { exchange: self.exchange.clone(), price: self.price, amount: self.amount }
    }
}

/// The level that `level` becomes once attributed to `exchange`.
pub open spec fn associated(level: AnonymousLevel, exchange: String) -> Level {
    Level { exchange, price: level.price, amount: level.amount }
}

impl AnonymousLevel {
    /// Attributes this level to `exchange`.
    pub fn associate(self, exchange: String) -> (r: Level)
        ensures
            r == associated(self, exchange),
    {
        Level { exchange, price: self.price, amount: self.amount }
    }
}

/// One exchange's complete snapshot: its bids and asks as it sent them.
#[derive(Debug)]
pub struct SimpleOrderBook {
    pub bids: Vec<AnonymousLevel>,
    pub asks: Vec<AnonymousLevel>,
}

/// The merged view that is published: the best bids and asks over all
/// exchanges, and the spread between the best ask and the best bid, in units.
#[derive(Debug)]
pub struct Summary {
    pub spread: i128,
    pub bids: Vec<Level>,
    pub asks: Vec<Level>,
}

impl Summary {
    /// The summary before any exchange has sent anything: no levels, no spread.
    pub fn empty() -> (r: Summary)
        ensures
            r.spread == 0,
            r.bids@.len() == 0,
            r.asks@.len() == 0,
    {
        Summary { spread: 0, bids: Vec::new(), asks: Vec::new() }
    }
}

} // verus!
