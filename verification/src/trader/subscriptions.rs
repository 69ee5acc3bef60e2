//! The periodic subscriptions: what they deliver and how a trader takes it.

use std::collections::BTreeMap;
use vstd::prelude::*;
use crate::exchange::trades::history::OrderBookDiff;
use crate::message::TraderRequest;
use crate::types::{DateTime, Price, Size};

verus! {

/// How a strategy takes what its subscriptions deliver.
pub trait HandleSubscriptionUpdates {
    /// The trader's reaction to a snapshot of the book taken at `exchange_dt`.
    fn handle_order_book_snapshot(
        &mut self,
        exchange_dt: DateTime,
        deliver_dt: DateTime,
        ob_snapshot: OrderBookSnapshot,
    ) -> Vec<TraderRequest>;

    /// The trader's reaction to the executions up to `exchange_dt`.
    fn handle_trade_info_update(
        &mut self,
        exchange_dt: DateTime,
        deliver_dt: DateTime,
        trade_info: Vec<OrderBookDiff>,
    ) -> Vec<TraderRequest>;

    /// The trader's reaction to a periodic wake-up.
    fn handle_wakeup(&mut self, dt: DateTime) -> Vec<TraderRequest>;
}

/// The best levels of both sides, best first, each with its aggregated size.
#[derive(Debug, PartialEq, Eq, PartialOrd, Ord, Clone)]
pub struct OrderBookSnapshot {
    pub bids: Vec<(Price, Size)>,
    pub asks: Vec<(Price, Size)>,
}

/// The executions of one window in summary: the first, highest, lowest and
/// last price, the lots by direction of the aggressor, and the lots at each price.
#[derive(Debug, PartialEq, Eq, PartialOrd, Ord)]
pub struct TradeInfo {
    pub open: Price,
    pub high: Price,
    pub low: Price,
    pub close: Price,
    pub buy_volume: Size,
    pub sell_volume: Size,
    pub price_to_volume_sorted: PriceToVolumeSorted,
}

/// The lots executed at each price, lowest price first.
pub type PriceToVolumeSorted = BTreeMap<Price, TradeVolumesBin>;

/// The lots executed at one price, by direction of the aggressor.
#[derive(Debug, Default, PartialEq, Eq, PartialOrd, Ord)]
pub struct TradeVolumesBin {
    pub buy_aggressors: Size,
    pub sell_aggressors: Size,
}

} // verus!
