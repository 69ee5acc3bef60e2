//! The buffer of executions between two deliveries of trade information.

use vstd::prelude::*;
use crate::types::{DateTime, Direction, Price, Size};

verus! {

/// One execution: when, at which price, how much, and the aggressor's direction.
#[derive(Debug, PartialEq, Eq, Structural, PartialOrd, Ord, Clone, Copy)]
pub struct OrderBookDiff {
    pub datetime: DateTime,
    pub price: Price,
    pub size: Size,
    pub direction: Direction,
}

/// The executions since the last delivery, oldest first.
#[derive(Debug, Default)]
pub struct TradesHistory(pub Vec<OrderBookDiff>);

impl View for TradesHistory {
    type V = Seq<OrderBookDiff>;

    open spec fn view(&self) -> Seq<OrderBookDiff> {
        self.0@
    }
}

impl TradesHistory {
    /// An empty buffer.
    pub fn new() -> (r: TradesHistory)
        ensures
            r@ == Seq::<OrderBookDiff>::empty(),
    {
        TradesHistory(Vec::new())
    }

    /// Records one execution after those already held.
    pub fn push(&mut self, trade: OrderBookDiff)
        ensures
            final(self)@ == old(self)@.push(trade),
    {
        self.0.push(trade)
    }

    /// Hands out everything recorded so far and starts a new, empty window.
    pub fn yield_trade_info(&mut self) -> (r: Vec<OrderBookDiff>)
        ensures
            r@ == old(self)@,
            final(self)@ == Seq::<OrderBookDiff>::empty(),
    {
        let mut result: Vec<OrderBookDiff> = Vec::new();
        std::mem::swap(&mut self.0, &mut result);
        result
    }
}

} // verus!
