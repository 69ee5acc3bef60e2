//! Ready-made traders.

use rand::rngs::StdRng;
use vstd::prelude::*;
use crate::exchange::trades::history::OrderBookDiff;
use crate::message::{ExchangeReply, TraderRequest};
use crate::trader::Trader;
use crate::trader::subscriptions::{HandleSubscriptionUpdates, OrderBookSnapshot};
use crate::types::DateTime;

verus! {

/// A trader that never trades and is reached without delay.
pub struct VoidTrader;

impl HandleSubscriptionUpdates for VoidTrader {
    fn handle_order_book_snapshot(
        &mut self,
        exchange_dt: DateTime,
        deliver_dt: DateTime,
        ob_snapshot: OrderBookSnapshot,
    ) -> (r: Vec<TraderRequest>)
        ensures
            r@.len() == 0,
    {
        Vec::new()
    }

    fn handle_trade_info_update(
        &mut self,
        exchange_dt: DateTime,
        deliver_dt: DateTime,
        trade_info: Vec<OrderBookDiff>,
    ) -> (r: Vec<TraderRequest>)
        ensures
            r@.len() == 0,
    {
        Vec::new()
    }

    fn handle_wakeup(&mut self, dt: DateTime) -> (r: Vec<TraderRequest>)
        ensures
            r@.len() == 0,
    {
        Vec::new()
    }
}

impl Trader for VoidTrader {
    fn exchange_to_trader_latency(rng: &mut StdRng, dt: DateTime) -> (r: u64)
        ensures
            r == 0,
    {
        0
    }

    fn trader_to_exchange_latency(rng: &mut StdRng, dt: DateTime) -> (r: u64)
        ensures
            r == 0,
    {
        0
    }

    fn handle_exchange_reply(
        &mut self,
        exchange_dt: DateTime,
        deliver_dt: DateTime,
        reply: ExchangeReply,
    ) -> (r: Vec<TraderRequest>)
        ensures
            r@.len() == 0,
    {
        Vec::new()
    }

    fn exchange_open(&mut self, exchange_dt: DateTime, deliver_dt: DateTime) {
    }

    fn exchange_closed(&mut self, exchange_dt: DateTime, deliver_dt: DateTime) {
    }
}

} // verus!
