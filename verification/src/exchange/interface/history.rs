//! How the exchange handles the tape.

use vstd::prelude::*;
use crate::exchange::{flushed, Exchange};
use crate::exchange::finality::lemma_happening_keeps_tidy;
use crate::exchange::interface::private::{flush_replies, replies_delivered};
use crate::exchange::matching::handle_history;
use crate::exchange::runs::Happening;
use crate::exchange::types::{
    enqueue, grown_since, lemma_grown_by_one, lemma_grown_in_order, overflows, tape_out_of_order,
    Event, EventBody, SimulationError,
};
use crate::history::parser::interface::EventProcessor;
use crate::history::types::{HistoryEvent, HistoryEventBody};
use crate::lags::interface::NanoSecondGenerator;
use crate::trader::Trader;
use crate::types::DateTime;

verus! {

/// What taking the next event from the tape makes of the queue: the event is
/// scheduled for the time at which it was recorded, which is not before
/// `now`; where the tape has ended, nothing is scheduled.
pub open spec fn tape_advanced(
    before: Seq<Event>,
    after: Seq<Event>,
    next: Option<HistoryEvent>,
    now: DateTime,
) -> bool {
    match next {
        Some(event) => event.datetime.0 >= now.0 && after == enqueue(
            before,
            Event { datetime: event.datetime, body: EventBody::HistoryEvent(event.event) },
        ),
        None => after == before,
    }
}

impl<
    'a,
    T: Trader,
    E: EventProcessor,
    NO: Fn(DateTime) -> DateTime,
    NC: Fn(DateTime) -> DateTime,
    ObLagGen: NanoSecondGenerator,
    TrdLagGen: NanoSecondGenerator,
    WkpLagGen: NanoSecondGenerator,
    const DEBUG: bool,
    const TRD_UPDATES_OB: bool,
    const OB_SUBSCRIPTION: bool,
    const TRD_SUBSCRIPTION: bool,
    const WAKEUP_SUBSCRIPTION: bool,
> Exchange<
    'a,
    T,
    E,
    NO,
    NC,
    ObLagGen,
    TrdLagGen,
    WkpLagGen,
    DEBUG,
    TRD_UPDATES_OB,
    OB_SUBSCRIPTION,
    TRD_SUBSCRIPTION,
    WAKEUP_SUBSCRIPTION,
> {
    /// Applies an event of the tape, hands the replies over for delivery, and
    /// schedules the tape's next event. A tape that yields an event older
    /// than the clock stops the run.
    pub fn handle_history_event(&mut self, event: HistoryEventBody) -> (r: Result<
        (),
        SimulationError,
    >)
        requires
            old(self).wf(),
        ensures
            final(self).wf(),
            final(self).same_hours(old(self)),
            final(self).open_probe_scheduled == old(self).open_probe_scheduled,
            final(self).engine.current_dt == old(self).engine.current_dt,
            final(self).engine@ == flushed(handle_history(old(self).engine@, event)),
            grown_since(
                old(self).event_queue@,
                final(self).event_queue@,
                old(self).engine.current_dt,
            ),
            r matches Err(error) ==> overflows(error, old(self).engine.current_dt)
                || tape_out_of_order(error, old(self).engine.current_dt),
            r is Ok ==> exists|delivered: Seq<Event>, next: Option<HistoryEvent>|
                replies_delivered(
                    old(self).event_queue@,
                    delivered,
                    handle_history(old(self).engine@, event).replies,
                    old(self).engine.current_dt,
                ) && #[trigger] tape_advanced(
                    delivered,
                    final(self).event_queue@,
                    next,
                    old(self).engine.current_dt,
                ) && final(self).has_history_events_in_queue == (next is Some),
    {
        let ghost start = self.event_queue@;
        let now = self.engine.current_dt;
        self.engine.handle_history_event(event);
        proof {
            lemma_happening_keeps_tidy(old(self).engine@, Happening::Tape(event));
            crate::exchange::laws::lemma_history_frame(old(self).engine@, event);
        }
        let flushing = flush_replies::<T>(&mut self.engine, &mut self.event_queue, &mut self.rng);
        proof {
            lemma_grown_in_order(start, self.event_queue@, now);
        }
        match flushing {
            Err(error) => {
                return Err(error);
            },
            Ok(()) => {},
        }
        let ghost delivered = self.event_queue@;
        let upcoming = self.event_processor.yield_next_event();
        match upcoming {
            Some(next) => {
                if next.datetime.0 < now.0 {
                    return Err(SimulationError::HistoryOutOfOrder { at: now, event: next.datetime });
                }
                proof {
                    let scheduled = Event {
                        datetime: next.datetime,
                        body: EventBody::HistoryEvent(next.event),
                    };
                    lemma_grown_by_one(start, self.event_queue@, scheduled, now);
                    lemma_grown_in_order(
                        start,
                        enqueue(self.event_queue@, scheduled),
                        now,
                    );
                }
                self.event_queue.schedule_history_event(next);
                self.has_history_events_in_queue = true;
            },
            None => {
                self.has_history_events_in_queue = false;
            },
        }
        proof {
            assert(tape_advanced(delivered, self.event_queue@, upcoming, now));
        }
        Ok(())
    }
}

} // verus!
