//! How the exchange delivers to the trader what the subscriptions and the session have for the trader.

use vstd::prelude::*;
use crate::exchange::Exchange;
use crate::exchange::interface::private::{
    lemma_no_requests_scheduled, requests_scheduled, schedule_requests,
};
use crate::exchange::types::{grown_since, lemma_grown_at_once, overflows, SimulationError};
use crate::history::parser::interface::EventProcessor;
use crate::lags::interface::NanoSecondGenerator;
use crate::message::SubscriptionUpdate;
use crate::trader::Trader;
use crate::types::DateTime;

verus! {

impl<
    'a,
    T: Trader,
    E: EventProcessor,
    NO: Fn(DateTime) -> DateTime,
    NC: Fn(DateTime) -> DateTime,
    ObLagGen: NanoSecondGenerator,
    TrdLagGen: NanoSecondGenerator,
    WkpLagGen: NanoSecondGenerator,
    const DEBUG: bool,
    const TRD_UPDATES_OB: bool,
    const OB_SUBSCRIPTION: bool,
    const TRD_SUBSCRIPTION: bool,
    const WAKEUP_SUBSCRIPTION: bool,
> Exchange<
    'a,
    T,
    E,
    NO,
    NC,
    ObLagGen,
    TrdLagGen,
    WkpLagGen,
    DEBUG,
    TRD_UPDATES_OB,
    OB_SUBSCRIPTION,
    TRD_SUBSCRIPTION,
    WAKEUP_SUBSCRIPTION,
> {
    /// Delivers to the trader what a subscription or the session had for the
    /// trader at `exchange_dt`, and schedules the requests that the trader
    /// answers with.
    pub fn handle_subscription_update(
        &mut self,
        update: SubscriptionUpdate,
        exchange_dt: DateTime,
    ) -> (r: Result<(), SimulationError>)
        ensures
            final(self).only_queue_changed(old(self)),
            grown_since(
                old(self).event_queue@,
                final(self).event_queue@,
                old(self).engine.current_dt,
            ),
            r is Ok ==> requests_scheduled(
                old(self).event_queue@,
                final(self).event_queue@,
                old(self).engine.current_dt,
            ),
            r matches Err(error) ==> overflows(error, old(self).engine.current_dt),
            update is ExchangeOpen || update is ExchangeClosed ==> r is Ok
                && final(self).event_queue@ == old(self).event_queue@,
    {
        let deliver_dt = self.engine.current_dt;
        proof {
            lemma_grown_at_once(self.event_queue@, deliver_dt);
            lemma_no_requests_scheduled(self.event_queue@, deliver_dt);
        }
        let trader_reactions = match update {
            SubscriptionUpdate::OrderBook(ob_snapshot) => self.trader.handle_order_book_snapshot(
                exchange_dt,
                deliver_dt,
                ob_snapshot,
            ),
            SubscriptionUpdate::TradeInfo(trade_info) => self.trader.handle_trade_info_update(
                exchange_dt,
                deliver_dt,
                trade_info,
            ),
            SubscriptionUpdate::ExchangeOpen => {
                self.trader.exchange_open(exchange_dt, deliver_dt);
                return Ok(());
            },
            SubscriptionUpdate::ExchangeClosed => {
                self.trader.exchange_closed(exchange_dt, deliver_dt);
                return Ok(());
            },
        };
        schedule_requests::<T>(
            trader_reactions,
            deliver_dt,
            &mut self.event_queue,
            &mut self.rng,
        )
    }
}

} // verus!
