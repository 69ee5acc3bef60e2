//! What the exchange does: for the trader, for the tape, and for those who run it.

pub mod history;
pub mod private;
pub mod public;
pub mod trader;
