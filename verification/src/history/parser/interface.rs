//! What the exchange asks of a source of the tape's events.

use vstd::prelude::*;
use crate::history::types::HistoryEvent;

verus! {

/// A finite stream of the tape's events. The exchange takes one event at a
/// time and stops the run if an event is older than the one before it.
pub trait EventProcessor {
    /// The next event of the tape; `None` when the tape has ended.
    fn yield_next_event(&mut self) -> Option<HistoryEvent>;
}

} // verus!
