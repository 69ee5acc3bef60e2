//! The strategy under test and what the exchange delivers to it.

pub mod examples;
pub mod subscriptions;

use rand::rngs::StdRng;
use vstd::prelude::*;
use crate::message::{ExchangeReply, TraderRequest};
use crate::trader::subscriptions::HandleSubscriptionUpdates;
use crate::types::DateTime;

verus! {

/// A strategy: it learns of the fate of its orders and of the session, and
/// answers with requests. The exchange promises nothing of an implementation
/// and relies on nothing but the types.
pub trait Trader: HandleSubscriptionUpdates {
    /// The nanoseconds that a message sent by the exchange at `dt` takes to reach the trader.
    fn exchange_to_trader_latency(rng: &mut StdRng, dt: DateTime) -> u64;

    /// The nanoseconds that a request sent by the trader at `dt` takes to reach the exchange.
    fn trader_to_exchange_latency(rng: &mut StdRng, dt: DateTime) -> u64;

    /// The trader's reaction to a reply that the exchange gave at
    /// `exchange_dt` and that arrives at `deliver_dt`.
    fn handle_exchange_reply(
        &mut self,
        exchange_dt: DateTime,
        deliver_dt: DateTime,
        reply: ExchangeReply,
    ) -> Vec<TraderRequest>;

    /// The venue opened at `exchange_dt`; the trader learns of it at `deliver_dt`.
    fn exchange_open(&mut self, exchange_dt: DateTime, deliver_dt: DateTime);

    /// The venue closed at `exchange_dt`; the trader learns of it at `deliver_dt`.
    fn exchange_closed(&mut self, exchange_dt: DateTime, deliver_dt: DateTime);
}

} // verus!
