//! Executions recorded for the trade-info subscription.

pub mod history;
