//! Messages between the trader and the exchange.

use vstd::prelude::*;
use crate::exchange::trades::history::OrderBookDiff;
use crate::order::{LimitOrder, MarketOrder};
use crate::trader::subscriptions::OrderBookSnapshot;
use crate::types::{OrderID, Price, Size};

verus! {

/// What a trader may ask of the exchange.
#[derive(Debug, PartialEq, Eq, Structural, PartialOrd, Ord, Clone, Copy)]
pub enum TraderRequest {
    CancelLimitOrder(OrderID),
    CancelMarketOrder(OrderID),
    PlaceLimitOrder(LimitOrder),
    PlaceMarketOrder(MarketOrder),
}

/// What the exchange tells a trader about one of the trader's orders.
#[derive(Debug, PartialEq, Eq, Structural, PartialOrd, Ord, Clone, Copy)]
pub enum ExchangeReply {
    OrderAccepted(OrderID),
    OrderPlacementDiscarded(OrderID, DiscardingReason),
    OrderPartiallyExecuted(OrderID, Size, Price),
    OrderExecuted(OrderID, Size, Price),
    OrderCancelled(OrderID, CancellationReason),
    CannotCancelOrder(OrderID, InabilityToCancelReason),
}

/// Why a placement was not accepted.
#[derive(Debug, PartialEq, Eq, Structural, PartialOrd, Ord, Clone, Copy)]
pub enum DiscardingReason {
    OrderWithSuchIDAlreadySubmitted,
    ZeroSize,
    ExchangeClosed,
}

/// Why an order left the exchange unexecuted.
#[derive(Debug, PartialEq, Eq, Structural, PartialOrd, Ord, Clone, Copy)]
pub enum CancellationReason {
    TraderRequested,
    ExchangeClosed,
}

/// Why a cancellation could not be carried out.
#[derive(Debug, PartialEq, Eq, Structural, PartialOrd, Ord, Clone, Copy)]
pub enum InabilityToCancelReason {
    OrderHasNotBeenSubmitted,
    OrderAlreadyExecuted,
    ExchangeClosed,
}

/// What a subscription or a session change delivers to the trader.
#[derive(Debug, PartialEq, Eq, PartialOrd, Ord, Clone)]
pub enum SubscriptionUpdate {
    ExchangeOpen,
    OrderBook(OrderBookSnapshot),
    TradeInfo(Vec<OrderBookDiff>),
    ExchangeClosed,
}

/// The periodic subscriptions that deliver a payload.
#[derive(Debug, PartialEq, Eq, Structural, PartialOrd, Ord, Clone, Copy)]
pub enum SubscriptionSchedule {
    OrderBook,
    TradeInfo,
}

impl ExchangeReply {
    /// The order that the reply is about.
    pub open spec fn spec_order_id(self) -> OrderID {
        match self {
            ExchangeReply::OrderAccepted(id) => id,
            ExchangeReply::OrderPlacementDiscarded(id, _) => id,
            ExchangeReply::OrderPartiallyExecuted(id, _, _) => id,
            ExchangeReply::OrderExecuted(id, _, _) => id,
            ExchangeReply::OrderCancelled(id, _) => id,
            ExchangeReply::CannotCancelOrder(id, _) => id,
        }
    }

    /// The order that the reply is about.
    pub fn order_id(&self) -> (r: OrderID)
        ensures
            r == self.spec_order_id(),
    {
        match self {
            ExchangeReply::OrderAccepted(id) => *id,
            ExchangeReply::OrderPlacementDiscarded(id, _) => *id,
            ExchangeReply::OrderPartiallyExecuted(id, _, _) => *id,
            ExchangeReply::OrderExecuted(id, _, _) => *id,
            ExchangeReply::OrderCancelled(id, _) => *id,
            ExchangeReply::CannotCancelOrder(id, _) => *id,
        }
    }

    /// The lots that the reply reports as executed; zero for a reply that reports none.
    pub open spec fn spec_executed_size(self) -> nat {
        match self {
            ExchangeReply::OrderPartiallyExecuted(_, size, _) => size.0 as nat,
            ExchangeReply::OrderExecuted(_, size, _) => size.0 as nat,
            _ => 0,
        }
    }
}

} // verus!
