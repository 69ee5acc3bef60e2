//! Deterministic, event-driven backtesting engine for a single limit-order-book venue.
//!
//! The engine replays a recorded market, the tape, for one trader, whose
//! requests and whose view of the market are subject to latencies, to the
//! venue's trading hours and to periodic subscriptions.
//!
//! - [`types`]: prices, sizes, identifiers, directions and the simulated clock.
//! - [`order`], [`message`]: what the trader and the exchange say to each other.
//! - [`history`]: the tape: its events, the merge of its two records, and
//!   the reading of its records from text.
//! - [`lags`]: generators of intervals.
//! - [`trader`]: what a strategy has to offer, and a trader that does nothing.
//! - [`exchange`]: the simulator itself: the order book, the matching
//!   engine with its laws, the queue of events, and the exchange that runs them.
//!
//! Every operation of the matching engine is stated as a function on a
//! mathematical model of its state and proved to compute that function. The
//! laws of the engine, such as that every pending limit rests exactly once
//! where the engine has noted it, or that nothing more is executed of an
//! order than was placed, are proved of the model.

pub mod exchange;
pub mod history;
pub mod lags;
pub mod message;
pub mod order;
pub mod prelude;
pub mod trader;
pub mod types;
