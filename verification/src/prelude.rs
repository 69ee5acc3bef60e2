//! The names that a user of the library needs, in one place.

pub use crate::exchange::interface::public::{ExchangeBuilder, VoidNanoSecGen};
pub use crate::exchange::matching::{AggressiveOrderType, Diagnostic, DiagnosticKind, MatchingEngine};
pub use crate::exchange::trades::history::OrderBookDiff;
pub use crate::exchange::types::{Event, EventBody, EventQueue, SimulationError};
pub use crate::exchange::Exchange;
pub use crate::history::parser::interface::EventProcessor;
pub use crate::history::types::{HistoryEvent, HistoryEventBody, OrderOrigin};
pub use crate::lags::constant::ConstNanoSecondGenerator;
pub use crate::lags::interface::NanoSecondGenerator;
pub use crate::message::{
    CancellationReason, DiscardingReason, ExchangeReply, InabilityToCancelReason,
    SubscriptionSchedule, SubscriptionUpdate, TraderRequest,
};
pub use crate::order::{LimitOrder, MarketOrder};
pub use crate::trader::examples::VoidTrader;
pub use crate::trader::subscriptions::{
    HandleSubscriptionUpdates, OrderBookSnapshot, TradeInfo, TradeVolumesBin,
};
pub use crate::trader::Trader;
pub use crate::types::{DateTime, Direction, NanoSeconds, OrderID, Price, Size};
