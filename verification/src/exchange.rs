//! The exchange simulator: the event queue, the matching engine, the trader
//! and the tape, and the clock that they share.

pub mod accounts;
pub mod book;
pub mod book_laws;
pub mod finality;
pub mod interface;
pub mod laws;
pub mod matching;
pub mod places;
pub mod resting;
pub mod runs;
pub mod sums;
pub mod trades;
pub mod types;

use rand::rngs::StdRng;
use vstd::prelude::*;
use crate::exchange::finality::tidy;
use crate::exchange::matching::{
    close_session, handle_history, handle_request, open_session, EngineView, MatchingEngine,
};
use crate::exchange::types::{grown_since, in_order, none_before, Event, EventBody, EventQueue};
use crate::history::parser::interface::EventProcessor;
use crate::lags::interface::NanoSecondGenerator;
use crate::message::SubscriptionSchedule;
use crate::trader::Trader;
use crate::types::DateTime;

verus! {

/// A venue that replays a tape for one trader.
///
/// The type says what the exchange does at compile time: whether it makes
/// notes (`DEBUG`), whether trades of the tape debit the orders of the tape
/// (`TRD_UPDATES_OB`), and which subscriptions the trader has.
pub struct Exchange<
    'a,
    T: Trader,
    E: EventProcessor,
    NO: Fn(DateTime) -> DateTime,
    NC: Fn(DateTime) -> DateTime,
    ObLagGen: NanoSecondGenerator,
    TrdLagGen: NanoSecondGenerator,
    WkpLagGen: NanoSecondGenerator,
    const DEBUG: bool,
    const TRD_UPDATES_OB: bool,
    const OB_SUBSCRIPTION: bool,
    const TRD_SUBSCRIPTION: bool,
    const WAKEUP_SUBSCRIPTION: bool,
> {
    /// What is still to happen.
    pub event_queue: EventQueue,
    /// The tape.
    pub event_processor: E,
    /// The book and the orders.
    pub engine: MatchingEngine,
    /// The strategy under test.
    pub trader: &'a mut T,
    /// The venue's next opening at or after an instant.
    pub get_next_open_dt: NO,
    /// The venue's next closing after an instant at which it is open.
    pub get_next_close_dt: NC,
    /// The instant at which the running session ends.
    pub session_close_dt: DateTime,
    /// Whether an opening of the venue is scheduled.
    pub open_probe_scheduled: bool,
    /// Whether the tape has an event scheduled. When the tape has ended, the
    /// venue opens no more.
    pub has_history_events_in_queue: bool,
    /// Where latencies and intervals are drawn from.
    pub rng: StdRng,
    /// The depth of the snapshots of the book, and the intervals between them.
    pub ob_depth_and_interval_ns: (usize, ObLagGen),
    /// The intervals between deliveries of trade information.
    pub trade_info_interval_ns: TrdLagGen,
    /// The intervals between wake-ups.
    pub wakeup: WkpLagGen,
}

/// What is done about the session when an event finds the venue closed.
#[derive(Debug, PartialEq, Eq, Structural, Clone, Copy)]
pub enum GuardAction {
    /// Nothing: the venue is open, the tape has ended, the venue does not
    /// trade at this instant, or its opening is scheduled already.
    Stay,
    /// The venue opens before the event is handled.
    OpenNow,
    /// The opening of the venue is scheduled for the given instant.
    ScheduleOpening(DateTime),
}

/// What is to be done about the session at the instant `now`, where the
/// venue's hours give `next_open` as its next opening and `next_close` as its
/// next closing. A venue that is closed while the tape goes on opens at once
/// if its opening is not ahead and its closing is; if its opening is ahead
/// and not scheduled yet, it is scheduled.
pub open spec fn guard_action(
    closed: bool,
    tape_goes_on: bool,
    opening_scheduled: bool,
    now: DateTime,
    next_open: DateTime,
    next_close: DateTime,
) -> GuardAction {
    if !closed || !tape_goes_on {
        GuardAction::Stay
    } else if next_open.0 <= now.0 {
        if now.0 < next_close.0 {
            GuardAction::OpenNow
        } else {
            GuardAction::Stay
        }
    } else if opening_scheduled {
        GuardAction::Stay
    } else {
        GuardAction::ScheduleOpening(next_open)
    }
}

/// Decides what is to be done about the session.
pub fn decide_session(
    closed: bool,
    tape_goes_on: bool,
    opening_scheduled: bool,
    now: DateTime,
    next_open: DateTime,
    next_close: DateTime,
) -> (r: GuardAction)
    ensures
        r == guard_action(closed, tape_goes_on, opening_scheduled, now, next_open, next_close),
{
    if !closed || !tape_goes_on {
        GuardAction::Stay
    } else if next_open.0 <= now.0 {
        if now.0 < next_close.0 {
            GuardAction::OpenNow
        } else {
            GuardAction::Stay
        }
    } else if opening_scheduled {
        GuardAction::Stay
    } else {
        GuardAction::ScheduleOpening(next_open)
    }
}

/// The end of a session that begins at `now`, where the venue's hours give
/// `next_close` as its next closing: that instant, but not before `now`.
pub open spec fn session_end(now: DateTime, next_close: DateTime) -> DateTime {
    if next_close.0 > now.0 {
        next_close
    } else {
        now
    }
}

/// The end of a session that begins at `now`.
pub fn end_of_session(now: DateTime, next_close: DateTime) -> (r: DateTime)
    ensures
        r == session_end(now, next_close),
{
    if next_close.0 > now.0 {
        next_close
    } else {
        now
    }
}

/// The state with every reply handed over for delivery.
pub open spec fn flushed(state: EngineView) -> EngineView {
    EngineView { replies: Seq::empty(), ..state }
}

/// The state with the clock set.
pub open spec fn at_time(state: EngineView, now: DateTime) -> EngineView {
    EngineView { now, ..state }
}

/// Whether an event is one of the two that open and close the venue.
pub open spec fn is_session_probe(body: EventBody) -> bool {
    body is SessionOpenProbe || body is SessionCloseProbe
}

/// The engine as the session guard leaves it before an event is handled: the
/// clock stands at the time of the event, and where `opens` holds the venue
/// has opened.
pub open spec fn guarded_engine(state: EngineView, event: Event, opens: bool) -> EngineView {
    if opens {
        open_session(at_time(state, event.datetime))
    } else {
        at_time(state, event.datetime)
    }
}

/// What an event makes of the engine. `opens` says whether the event found
/// the venue closed at a time at which it trades, so that the venue opened
/// before the event was handled.
pub open spec fn engine_step(state: EngineView, event: Event, opens: bool) -> EngineView {
    let guarded = guarded_engine(state, event, opens);
    match event.body {
        EventBody::HistoryEvent(body) => flushed(handle_history(guarded, body)),
        EventBody::TraderRequest(request) => flushed(handle_request(guarded, request)),
        EventBody::SubscriptionSchedule(SubscriptionSchedule::TradeInfo) => if guarded.record_trades
            && !guarded.closed {
            EngineView { trades: Seq::empty(), ..guarded }
        } else {
            guarded
        },
        EventBody::SessionOpenProbe => if guarded.closed {
            open_session(guarded)
        } else {
            guarded
        },
        EventBody::SessionCloseProbe => if guarded.closed {
            guarded
        } else {
            flushed(close_session(guarded))
        },
        _ => guarded,
    }
}

/// What handling an event made of the engine, where the session guard took
/// `action` before the event was handled. The engine is as `engine_step`
/// says. Where the handling failed because the venue opened at once and the
/// news of it could not be scheduled, the venue has opened and the event has
/// not been handled.
pub open spec fn step_outcome(
    before: EngineView,
    after: EngineView,
    event: Event,
    action: GuardAction,
    failed: bool,
) -> bool {
    after == engine_step(before, event, action == GuardAction::OpenNow) || (failed && action
        == GuardAction::OpenNow && after == open_session(at_time(before, event.datetime)))
}

/// What a run of events makes of the engine, where the session guard took
/// the action of the same place before each event was handled.
pub open spec fn engine_run(
    state: EngineView,
    handled: Seq<Event>,
    actions: Seq<GuardAction>,
) -> EngineView
    decreases handled.len(),
{
    if handled.len() == 0 {
        state
    } else {
        engine_step(
            engine_run(state, handled.drop_last(), actions.drop_last()),
            handled.last(),
            actions.last() == GuardAction::OpenNow,
        )
    }
}

/// What the session guard looks at besides the venue's hours.
pub struct GuardView {
    /// Whether the venue is closed.
    pub closed: bool,
    /// Whether the tape has an event scheduled.
    pub tape_goes_on: bool,
    /// Whether the opening of the venue is scheduled.
    pub opening_scheduled: bool,
}

/// Whether `action` is what the venue's hours call for when an event is due
/// at the instant `now`: what `guard_action` makes of the next opening and
/// the next closing that the hours give for `now`, where the venue is closed
/// and the tape goes on, and nothing otherwise.
pub open spec fn hours_call_for<NO: Fn(DateTime) -> DateTime, NC: Fn(DateTime) -> DateTime>(
    open: NO,
    close: NC,
    seen: GuardView,
    now: DateTime,
    action: GuardAction,
) -> bool {
    if seen.closed && seen.tape_goes_on {
        exists|next_open: DateTime, next_close: DateTime|
            call_ensures(open, (now,), next_open) && call_ensures(close, (now,), next_close)
                && action == #[trigger] guard_action(
                true,
                true,
                seen.opening_scheduled,
                now,
                next_open,
                next_close,
            )
    } else {
        action == GuardAction::Stay
    }
}

/// Whether the venue is closed after an event was handled, where `opens`
/// says whether the venue opened before that.
pub open spec fn closed_after(closed: bool, body: EventBody, opens: bool) -> bool {
    match body {
        EventBody::SessionOpenProbe => false,
        EventBody::SessionCloseProbe => true,
        _ => closed && !opens,
    }
}

/// Whether the opening of the venue is scheduled after an event was handled
/// before which the session guard took `action`.
pub open spec fn opening_scheduled_after(scheduled: bool, body: EventBody, action: GuardAction) -> bool {
    if action is ScheduleOpening {
        true
    } else if body is SessionOpenProbe {
        false
    } else {
        scheduled
    }
}

/// Whether the session guard watched over an event that found what `seen`
/// says and left what `left` says. An event that opens or closes the venue
/// is not watched over; before any other the guard took the action that the
/// hours call for. The venue is closed afterwards, and its opening scheduled,
/// as the event and the action make it; whether the tape goes on changes
/// with an event of the tape only.
pub open spec fn watched<NO: Fn(DateTime) -> DateTime, NC: Fn(DateTime) -> DateTime>(
    open: NO,
    close: NC,
    seen: GuardView,
    left: GuardView,
    event: Event,
    action: GuardAction,
) -> bool {
    &&& if is_session_probe(event.body) {
        action == GuardAction::Stay
    } else {
        hours_call_for(open, close, seen, event.datetime, action)
    }
    &&& left.closed == closed_after(seen.closed, event.body, action == GuardAction::OpenNow)
    &&& left.opening_scheduled == opening_scheduled_after(
        seen.opening_scheduled,
        event.body,
        action,
    )
    &&& !(event.body is HistoryEvent) ==> left.tape_goes_on == seen.tape_goes_on
}

/// Whether the session guard watched over every event of a run, where
/// `seen` holds what it found before each event and, last, what the run left.
pub open spec fn watched_over<NO: Fn(DateTime) -> DateTime, NC: Fn(DateTime) -> DateTime>(
    open: NO,
    close: NC,
    seen: Seq<GuardView>,
    handled: Seq<Event>,
    actions: Seq<GuardAction>,
) -> bool {
    &&& seen.len() == handled.len() + 1
    &&& forall|i: int|
        0 <= i < handled.len() ==> watched(
            open,
            close,
            seen[i],
            seen[i + 1],
            #[trigger] handled[i],
            actions[i],
        )
}

/// Whether a run of events took each event from the head of the queue: the
/// queue before each event begins with it, and the queue after it is what was
/// behind it, with what was scheduled while it was handled, nothing of which
/// is for a time before the event's.
pub open spec fn taken_from_the_head(queues: Seq<Seq<Event>>, handled: Seq<Event>) -> bool {
    &&& queues.len() == handled.len() + 1
    &&& forall|i: int|
        0 <= i < handled.len() ==> queues[i].len() > 0 && queues[i][0] == #[trigger] handled[i]
            && grown_since(queues[i].drop_first(), queues[i + 1], handled[i].datetime)
}

/// Whether no event of a run is for a time before that of one in front of it.
pub open spec fn events_ascend(handled: Seq<Event>) -> bool {
    forall|i: int, j: int|
        0 <= i < j < handled.len() ==> (#[trigger] handled[i]).datetime.0 <= (
        #[trigger] handled[j]).datetime.0
}

impl<
    'a,
    T: Trader,
    E: EventProcessor,
    NO: Fn(DateTime) -> DateTime,
    NC: Fn(DateTime) -> DateTime,
    ObLagGen: NanoSecondGenerator,
    TrdLagGen: NanoSecondGenerator,
    WkpLagGen: NanoSecondGenerator,
    const DEBUG: bool,
    const TRD_UPDATES_OB: bool,
    const OB_SUBSCRIPTION: bool,
    const TRD_SUBSCRIPTION: bool,
    const WAKEUP_SUBSCRIPTION: bool,
> Exchange<
    'a,
    T,
    E,
    NO,
    NC,
    ObLagGen,
    TrdLagGen,
    WkpLagGen,
    DEBUG,
    TRD_UPDATES_OB,
    OB_SUBSCRIPTION,
    TRD_SUBSCRIPTION,
    WAKEUP_SUBSCRIPTION,
> {
    /// Whether the venue's hours can be asked for at every instant.
    pub open spec fn hours_known(&self) -> bool {
        &&& forall|at: DateTime| #[trigger] call_requires(self.get_next_open_dt, (at,))
        &&& forall|at: DateTime| #[trigger] call_requires(self.get_next_close_dt, (at,))
    }

    /// The invariant of the exchange between events: the queue is in order
    /// and holds nothing older than the clock, every reply has been handed
    /// over for delivery, the engine is tidy and does what the type says.
    pub open spec fn wf(&self) -> bool {
        &&& in_order(self.event_queue@)
        &&& none_before(self.event_queue@, self.engine.current_dt)
        &&& self.engine.debug == DEBUG
        &&& self.engine.trade_updates_book == TRD_UPDATES_OB
        &&& self.engine.record_trades == TRD_SUBSCRIPTION
        &&& self.engine.replies@.len() == 0
        &&& tidy(self.engine@)
        &&& self.hours_known()
    }

    /// What the session guard looks at besides the venue's hours.
    pub open spec fn guard_view(&self) -> GuardView {
        GuardView {
            closed: self.engine@.closed,
            tape_goes_on: self.has_history_events_in_queue,
            opening_scheduled: self.open_probe_scheduled,
        }
    }

    /// Whether the venue's hours are those of `other`.
    pub open spec fn same_hours(&self, other: &Self) -> bool {
        &&& self.get_next_open_dt == other.get_next_open_dt
        &&& self.get_next_close_dt == other.get_next_close_dt
    }
}

} // verus!