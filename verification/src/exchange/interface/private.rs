//! How the exchange handles what is due: it sets the clock, opens and closes
//! the venue, and hands every event to the one whom it concerns.

use rand::rngs::StdRng;
use vstd::prelude::*;
use crate::exchange::{
    at_time, decide_session, end_of_session, engine_step, flushed, guard_action, guarded_engine,
    hours_call_for, is_session_probe, session_end, step_outcome, watched, Exchange, GuardAction,
};
use crate::exchange::book::{snapshot_of, snapshot_side};
use crate::exchange::finality::{
    lemma_close_session_tidy, lemma_happening_keeps_tidy, lemma_same_book_tidy,
};
use crate::exchange::interface::history::tape_advanced;
use crate::exchange::matching::{
    close_session, handle_history, handle_request, open_session, EngineView, MatchingEngine,
};
use crate::exchange::runs::{law_step_closes_as_said, Happening};
use crate::exchange::trades::history::OrderBookDiff;
use crate::exchange::types::{
    deliverable, deliveries, enqueue, enqueue_all, grown_since, lemma_grown_at_once,
    lemma_grown_by_one, lemma_grown_further, lemma_grown_in_order, none_before, overflows,
    reply_scheduled, scheduled_after, tape_out_of_order, Event, EventBody, EventQueue,
    SimulationError,
};
use crate::history::parser::interface::EventProcessor;
use crate::history::types::HistoryEvent;
use crate::lags::interface::NanoSecondGenerator;
use crate::message::{ExchangeReply, SubscriptionSchedule, SubscriptionUpdate, TraderRequest};
use crate::trader::Trader;
use crate::trader::subscriptions::OrderBookSnapshot;
use crate::types::{DateTime, NanoSeconds};

verus! {

/// The arrivals of requests that the trader sent at `sent_dt`, each after its own latency.
pub open spec fn arrivals(requests: Seq<TraderRequest>, sent_dt: DateTime, latencies: Seq<u64>) -> Seq<
    Event,
> {
    Seq::new(
        requests.len(),
        |i: int|
            Event {
                datetime: DateTime((sent_dt.0 + latencies[i]) as i64),
                body: EventBody::TraderRequest(requests[i]),
            },
    )
}

/// Whether the queue `after` is the queue `before` with the arrival of
/// requests scheduled that the trader sent at `sent_dt`, each after a latency
/// of its own.
pub open spec fn requests_scheduled(before: Seq<Event>, after: Seq<Event>, sent_dt: DateTime) -> bool {
    exists|requests: Seq<TraderRequest>, latencies: Seq<u64>|
        latencies.len() == requests.len() && deliverable(sent_dt, latencies)
            && #[trigger] enqueue_all(before, arrivals(requests, sent_dt, latencies)) == after
}

/// A queue to which nothing was added has the arrival of no requests scheduled.
pub proof fn lemma_no_requests_scheduled(queue: Seq<Event>, sent_dt: DateTime)
    ensures
        requests_scheduled(queue, queue, sent_dt),
{
    let requests = Seq::<TraderRequest>::empty();
    let latencies = Seq::<u64>::empty();
    assert(arrivals(requests, sent_dt, latencies) =~= Seq::<Event>::empty());
    assert(enqueue_all(queue, arrivals(requests, sent_dt, latencies)) == queue);
}

/// What the turn of a subscription makes of the queue: what it has for the
/// trader is scheduled for delivery after a latency, and its next turn is
/// scheduled one interval from now if that is before the session ends.
pub open spec fn turn_taken(
    before: Seq<Event>,
    after: Seq<Event>,
    update: SubscriptionUpdate,
    schedule: SubscriptionSchedule,
    now: DateTime,
    session_close_dt: DateTime,
    latency: u64,
    interval: Option<NanoSeconds>,
) -> bool {
    match now.spec_after(latency) {
        Some(datetime) => after == next_turn(
            enqueue(before, Event { datetime, body: EventBody::SubscriptionUpdate(update, now) }),
            EventBody::SubscriptionSchedule(schedule),
            interval,
            now,
            session_close_dt,
        ),
        None => false,
    }
}

/// Whether the queue `after` is the queue `before` with the delivery of the
/// given replies scheduled, which the exchange gave at `exchange_dt`, each
/// after a latency of its own.
pub open spec fn replies_delivered(
    before: Seq<Event>,
    after: Seq<Event>,
    replies: Seq<ExchangeReply>,
    exchange_dt: DateTime,
) -> bool {
    exists|latencies: Seq<u64>|
        latencies.len() == replies.len() && deliverable(exchange_dt, latencies)
            && #[trigger] enqueue_all(before, deliveries(replies, exchange_dt, latencies)) == after
}

/// Hands every reply that the engine has collected over for delivery, each
/// after the latency that the trader's connection has now. The engine keeps
/// none of them, whatever happens.
pub fn flush_replies<T: Trader>(
    engine: &mut MatchingEngine,
    queue: &mut EventQueue,
    rng: &mut StdRng,
) -> (r: Result<(), SimulationError>)
    ensures
        final(engine)@ == flushed(old(engine)@),
        grown_since(old(queue)@, final(queue)@, old(engine).current_dt),
        r is Ok ==> replies_delivered(
            old(queue)@,
            final(queue)@,
            old(engine).replies@,
            old(engine).current_dt,
        ),
        old(engine).replies@.len() == 0 ==> r is Ok && final(queue)@ == old(queue)@,
        r matches Err(error) ==> overflows(error, old(engine).current_dt),
{
    let ghost start = queue@;
    let now = engine.current_dt;
    let mut pending: Vec<ExchangeReply> = Vec::new();
    std::mem::swap(&mut engine.replies, &mut pending);
    let ghost mut latencies: Seq<u64> = Seq::empty();
    let mut k: usize = 0;
    proof {
        assert(engine@ =~= flushed(old(engine)@));
        assert(deliveries(pending@.take(0), now, latencies) =~= Seq::<Event>::empty());
    }
    while k < pending.len()
        invariant
            k <= pending.len(),
            pending@ == old(engine).replies@,
            now == old(engine).current_dt,
            engine@ == flushed(old(engine)@),
            latencies.len() == k,
            deliverable(now, latencies),
            start == old(queue)@,
            queue@ == enqueue_all(start, deliveries(pending@.take(k as int), now, latencies)),
        decreases pending.len() - k,
    {
        let ghost before = queue@;
        let ghost scheduled = deliveries(pending@.take(k as int), now, latencies);
        proof {
            assert(none_before(scheduled, now));
        }
        let outcome = queue.schedule_reply_for_trader::<T>(pending[k], now, rng);
        let ghost latency = choose|latency: u64|
            #[trigger] reply_scheduled(before, queue@, outcome, pending@[k as int], now, latency);
        match outcome {
            Err(error) => {
                proof {
                    assert(enqueue_all(start, scheduled) == queue@);
                }
                return Err(error);
            },
            Ok(()) => {},
        }
        proof {
            let more = latencies.push(latency);
            let grown = deliveries(pending@.take(k as int + 1), now, more);
            assert(grown.drop_last() =~= scheduled);
            latencies = more;
        }
        k = k + 1;
    }
    proof {
        assert(pending@.take(k as int) =~= pending@);
        assert(none_before(deliveries(pending@, now, latencies), now));
    }
    Ok(())
}

/// Schedules the arrival of the trader's requests at the exchange, each after
/// the latency that the trader's connection has now.
pub fn schedule_requests<T: Trader>(
    requests: Vec<TraderRequest>,
    now: DateTime,
    queue: &mut EventQueue,
    rng: &mut StdRng,
) -> (r: Result<(), SimulationError>)
    ensures
        grown_since(old(queue)@, final(queue)@, now),
        r is Ok ==> exists|latencies: Seq<u64>|
            latencies.len() == requests@.len() && deliverable(now, latencies)
                && #[trigger] enqueue_all(old(queue)@, arrivals(requests@, now, latencies))
                == final(queue)@,
        r is Ok ==> requests_scheduled(old(queue)@, final(queue)@, now),
        requests@.len() == 0 ==> r is Ok && final(queue)@ == old(queue)@,
        r matches Err(error) ==> overflows(error, now),
{
    let ghost start = queue@;
    let ghost mut latencies: Seq<u64> = Seq::empty();
    let mut k: usize = 0;
    proof {
        assert(arrivals(requests@.take(0), now, latencies) =~= Seq::<Event>::empty());
    }
    while k < requests.len()
        invariant
            k <= requests.len(),
            latencies.len() == k,
            deliverable(now, latencies),
            start == old(queue)@,
            queue@ == enqueue_all(start, arrivals(requests@.take(k as int), now, latencies)),
        decreases requests.len() - k,
    {
        let ghost scheduled = arrivals(requests@.take(k as int), now, latencies);
        proof {
            assert(none_before(scheduled, now));
        }
        let latency = T::trader_to_exchange_latency(rng, now);
        match queue.schedule_after(EventBody::TraderRequest(requests[k]), now, latency) {
            Err(error) => {
                proof {
                    assert(enqueue_all(start, scheduled) == queue@);
                }
                return Err(error);
            },
            Ok(()) => {},
        }
        proof {
            let more = latencies.push(latency);
            let grown = arrivals(requests@.take(k as int + 1), now, more);
            assert(grown.drop_last() =~= scheduled);
            latencies = more;
        }
        k = k + 1;
    }
    proof {
        assert(requests@.take(k as int) =~= requests@);
        assert(none_before(arrivals(requests@, now, latencies), now));
    }
    Ok(())
}

/// Schedules the delivery to the trader of what a subscription or the session
/// has for the trader now, after the latency that the trader's connection has now.
pub fn schedule_update<T: Trader>(
    update: SubscriptionUpdate,
    now: DateTime,
    queue: &mut EventQueue,
    rng: &mut StdRng,
) -> (r: Result<(), SimulationError>)
    ensures
        grown_since(old(queue)@, final(queue)@, now),
        exists|latency: u64|
            #[trigger] scheduled_after(
                old(queue)@,
                final(queue)@,
                r,
                EventBody::SubscriptionUpdate(update, now),
                now,
                latency,
            ),
        r matches Err(error) ==> overflows(error, now),
{
    let latency = T::exchange_to_trader_latency(rng, now);
    let outcome = queue.schedule_after(EventBody::SubscriptionUpdate(update, now), now, latency);
    proof {
        lemma_grown_at_once(old(queue)@, now);
        if outcome is Ok {
            lemma_grown_by_one(
                old(queue)@,
                old(queue)@,
                Event {
                    datetime: now.spec_after(latency)->0,
                    body: EventBody::SubscriptionUpdate(update, now),
                },
                now,
            );
        }
    }
    outcome
}

/// What scheduling the next turn of a subscription makes of a queue: the turn
/// is scheduled one interval from now if that is before the session ends, and
/// not at all otherwise, or where there is no interval.
pub open spec fn next_turn(
    queue: Seq<Event>,
    body: EventBody,
    interval: Option<NanoSeconds>,
    now: DateTime,
    session_close_dt: DateTime,
) -> Seq<Event> {
    match interval {
        Some(ns) => match now.spec_after(ns@) {
            Some(datetime) => if datetime.0 < session_close_dt.0 {
                enqueue(queue, Event { datetime, body })
            } else {
                queue
            },
            None => queue,
        },
        None => queue,
    }
}

/// Schedules the next turn of a subscription, if it has one within the session.
pub fn schedule_next_turn(
    body: EventBody,
    interval: Option<NanoSeconds>,
    now: DateTime,
    session_close_dt: DateTime,
    queue: &mut EventQueue,
)
    ensures
        final(queue)@ == next_turn(old(queue)@, body, interval, now, session_close_dt),
        grown_since(old(queue)@, final(queue)@, now),
{
    proof {
        lemma_grown_at_once(queue@, now);
    }
    match interval {
        Some(ns) => {
            match now.checked_add_ns(ns.get()) {
                Some(datetime) => {
                    if datetime.0 < session_close_dt.0 {
                        proof {
                            lemma_grown_by_one(queue@, queue@, Event { datetime, body }, now);
                        }
                        queue.push(Event { datetime, body });
                    }
                },
                None => {},
            }
        },
        None => {},
    }
}

impl<
    'a,
    T: Trader,
    E: EventProcessor,
    NO: Fn(DateTime) -> DateTime,
    NC: Fn(DateTime) -> DateTime,
    ObLagGen: NanoSecondGenerator,
    TrdLagGen: NanoSecondGenerator,
    WkpLagGen: NanoSecondGenerator,
    const DEBUG: bool,
    const TRD_UPDATES_OB: bool,
    const OB_SUBSCRIPTION: bool,
    const TRD_SUBSCRIPTION: bool,
    const WAKEUP_SUBSCRIPTION: bool,
> Exchange<
    'a,
    T,
    E,
    NO,
    NC,
    ObLagGen,
    TrdLagGen,
    WkpLagGen,
    DEBUG,
    TRD_UPDATES_OB,
    OB_SUBSCRIPTION,
    TRD_SUBSCRIPTION,
    WAKEUP_SUBSCRIPTION,
> {
    /// Whether the venue is open.
    pub fn is_now_trading_time(&self) -> (r: bool)
        ensures
            r == !self.engine@.closed,
    {
        !self.engine.exchange_closed
    }

    /// Whether nothing but the queue differs from `before`.
    pub open spec fn only_queue_changed(&self, before: &Self) -> bool {
        &&& self.engine == before.engine
        &&& self.session_close_dt == before.session_close_dt
        &&& self.open_probe_scheduled == before.open_probe_scheduled
        &&& self.has_history_events_in_queue == before.has_history_events_in_queue
        &&& self.ob_depth_and_interval_ns.0 == before.ob_depth_and_interval_ns.0
        &&& self.same_hours(before)
    }

    /// Whether the queue `after` is the queue `before` with the first turns
    /// of the subscriptions of a session scheduled, each one interval from
    /// `now` if that is before the session ends, and with the news that the
    /// venue is open scheduled for delivery after a latency.
    pub open spec fn period_started(
        before: Seq<Event>,
        after: Seq<Event>,
        outcome: Result<(), SimulationError>,
        now: DateTime,
        session_close_dt: DateTime,
        snapshots: Option<NanoSeconds>,
        trades: Option<NanoSeconds>,
        wakeups: Option<NanoSeconds>,
        latency: u64,
    ) -> bool {
        let with_snapshots = if OB_SUBSCRIPTION {
            next_turn(
                before,
                EventBody::SubscriptionSchedule(SubscriptionSchedule::OrderBook),
                snapshots,
                now,
                session_close_dt,
            )
        } else {
            before
        };
        let with_trades = if TRD_SUBSCRIPTION {
            next_turn(
                with_snapshots,
                EventBody::SubscriptionSchedule(SubscriptionSchedule::TradeInfo),
                trades,
                now,
                session_close_dt,
            )
        } else {
            with_snapshots
        };
        let with_wakeups = if WAKEUP_SUBSCRIPTION {
            next_turn(with_trades, EventBody::TraderWakeUp, wakeups, now, session_close_dt)
        } else {
            with_trades
        };
        scheduled_after(
            with_wakeups,
            after,
            outcome,
            EventBody::SubscriptionUpdate(SubscriptionUpdate::ExchangeOpen, now),
            now,
            latency,
        )
    }

    /// Starts the subscriptions of a session that has just begun: the first
    /// turn of each is scheduled one interval from now, and the trader is told
    /// that the venue is open.
    pub fn set_new_trading_period(&mut self) -> (r: Result<(), SimulationError>)
        ensures
            final(self).only_queue_changed(old(self)),
            exists|
                snapshots: Option<NanoSeconds>,
                trades: Option<NanoSeconds>,
                wakeups: Option<NanoSeconds>,
                latency: u64,
            | #[trigger]
                Self::period_started(
                    old(self).event_queue@,
                    final(self).event_queue@,
                    r,
                    old(self).engine.current_dt,
                    old(self).session_close_dt,
                    snapshots,
                    trades,
                    wakeups,
                    latency,
                ),
            grown_since(
                old(self).event_queue@,
                final(self).event_queue@,
                old(self).engine.current_dt,
            ),
            r matches Err(error) ==> overflows(error, old(self).engine.current_dt),
    {
        let now = self.engine.current_dt;
        let ghost start = self.event_queue@;
        proof {
            lemma_grown_at_once(start, now);
        }
        let ghost mut snapshots: Option<NanoSeconds> = None;
        let ghost mut trades: Option<NanoSeconds> = None;
        let ghost mut wakeups: Option<NanoSeconds> = None;
        if OB_SUBSCRIPTION {
            let ghost before = self.event_queue@;
            let interval = self.ob_depth_and_interval_ns.1.gen_ns(&mut self.rng, now);
            proof {
                snapshots = interval;
            }
            schedule_next_turn(
                EventBody::SubscriptionSchedule(SubscriptionSchedule::OrderBook),
                interval,
                now,
                self.session_close_dt,
                &mut self.event_queue,
            );
            proof {
                lemma_grown_further(start, before, self.event_queue@, now);
            }
        }
        if TRD_SUBSCRIPTION {
            let ghost before = self.event_queue@;
            let interval = self.trade_info_interval_ns.gen_ns(&mut self.rng, now);
            proof {
                trades = interval;
            }
            schedule_next_turn(
                EventBody::SubscriptionSchedule(SubscriptionSchedule::TradeInfo),
                interval,
                now,
                self.session_close_dt,
                &mut self.event_queue,
            );
            proof {
                lemma_grown_further(start, before, self.event_queue@, now);
            }
        }
        if WAKEUP_SUBSCRIPTION {
            let ghost before = self.event_queue@;
            let interval = self.wakeup.gen_ns(&mut self.rng, now);
            proof {
                wakeups = interval;
            }
            schedule_next_turn(
                EventBody::TraderWakeUp,
                interval,
                now,
                self.session_close_dt,
                &mut self.event_queue,
            );
            proof {
                lemma_grown_further(start, before, self.event_queue@, now);
            }
        }
        let ghost before = self.event_queue@;
        let outcome = schedule_update::<T>(
            SubscriptionUpdate::ExchangeOpen,
            now,
            &mut self.event_queue,
            &mut self.rng,
        );
        proof {
            lemma_grown_further(start, before, self.event_queue@, now);
            let latency = choose|latency: u64|
                #[trigger] scheduled_after(
                    before,
                    self.event_queue@,
                    outcome,
                    EventBody::SubscriptionUpdate(SubscriptionUpdate::ExchangeOpen, now),
                    now,
                    latency,
                );
            assert(Self::period_started(
                start,
                self.event_queue@,
                outcome,
                now,
                self.session_close_dt,
                snapshots,
                trades,
                wakeups,
                latency,
            ));
        }
        outcome
    }

    /// Whether the queue `after` and the end of session `close` are those of
    /// a venue that opened at `now` with the queue `queue`, where `hours`
    /// gives the next closing: the session ends when the hours say, or a
    /// session later where they name no later time; the end of the session
    /// is scheduled, then the first turns of the subscriptions and the news
    /// that the venue is open.
    pub open spec fn opened_at(
        hours: NC,
        queue: Seq<Event>,
        after: Seq<Event>,
        close: DateTime,
        outcome: Result<(), SimulationError>,
        now: DateTime,
    ) -> bool {
        exists|
            next_close: DateTime,
            snapshots: Option<NanoSeconds>,
            trades: Option<NanoSeconds>,
            wakeups: Option<NanoSeconds>,
            latency: u64,
        |
            #[trigger] call_ensures(hours, (now,), next_close) && close == session_end(
                now,
                next_close,
            ) && #[trigger] Self::period_started(
                enqueue(queue, Event { datetime: close, body: EventBody::SessionCloseProbe }),
                after,
                outcome,
                now,
                close,
                snapshots,
                trades,
                wakeups,
                latency,
            )
    }

    /// Opens the venue: the book starts empty, the closing is scheduled, and
    /// the subscriptions start.
    pub fn open_venue(&mut self) -> (r: Result<(), SimulationError>)
        requires
            old(self).wf(),
            old(self).engine@.closed,
        ensures
            final(self).wf(),
            final(self).same_hours(old(self)),
            final(self).engine@ == open_session(old(self).engine@),
            final(self).open_probe_scheduled == old(self).open_probe_scheduled,
            final(self).has_history_events_in_queue == old(self).has_history_events_in_queue,
            final(self).engine.current_dt == old(self).engine.current_dt,
            Self::opened_at(
                old(self).get_next_close_dt,
                old(self).event_queue@,
                final(self).event_queue@,
                final(self).session_close_dt,
                r,
                old(self).engine.current_dt,
            ),
            final(self).ob_depth_and_interval_ns.0 == old(self).ob_depth_and_interval_ns.0,
            grown_since(
                enqueue(
                    old(self).event_queue@,
                    Event {
                        datetime: final(self).session_close_dt,
                        body: EventBody::SessionCloseProbe,
                    },
                ),
                final(self).event_queue@,
                old(self).engine.current_dt,
            ),
            grown_since(
                old(self).event_queue@,
                final(self).event_queue@,
                old(self).engine.current_dt,
            ),
            r matches Err(error) ==> overflows(error, old(self).engine.current_dt),
    {
        let now = self.engine.current_dt;
        let ghost start = self.event_queue@;
        self.engine.open_session();
        let close_dt = (self.get_next_close_dt)(now);
        self.session_close_dt = end_of_session(now, close_dt);
        proof {
            lemma_happening_keeps_tidy(old(self).engine@, Happening::Open);
            lemma_grown_at_once(start, now);
            lemma_grown_by_one(
                start,
                start,
                Event { datetime: self.session_close_dt, body: EventBody::SessionCloseProbe },
                now,
            );
        }
        self.event_queue.push(
            Event { datetime: self.session_close_dt, body: EventBody::SessionCloseProbe },
        );
        let ghost before = self.event_queue@;
        let outcome = self.set_new_trading_period();
        proof {
            lemma_grown_further(start, before, self.event_queue@, now);
            lemma_grown_in_order(start, self.event_queue@, now);
        }
        outcome
    }

    /// Closes the venue: trading ends, the trader's open orders are
    /// cancelled, and the trader is told that the venue is closed.
    pub fn close_venue(&mut self) -> (r: Result<(), SimulationError>)
        requires
            old(self).wf(),
        ensures
            final(self).wf(),
            final(self).same_hours(old(self)),
            final(self).engine@ == flushed(close_session(old(self).engine@)),
            final(self).open_probe_scheduled == old(self).open_probe_scheduled,
            final(self).has_history_events_in_queue == old(self).has_history_events_in_queue,
            final(self).engine.current_dt == old(self).engine.current_dt,
            grown_since(
                old(self).event_queue@,
                final(self).event_queue@,
                old(self).engine.current_dt,
            ),
            r is Ok ==> exists|cancelled: Seq<Event>, latency: u64|
                replies_delivered(
                    old(self).event_queue@,
                    cancelled,
                    close_session(old(self).engine@).replies,
                    old(self).engine.current_dt,
                ) && #[trigger] scheduled_after(
                    cancelled,
                    final(self).event_queue@,
                    r,
                    EventBody::SubscriptionUpdate(
                        SubscriptionUpdate::ExchangeClosed,
                        old(self).engine.current_dt,
                    ),
                    old(self).engine.current_dt,
                    latency,
                ),
            r matches Err(error) ==> overflows(error, old(self).engine.current_dt),
    {
        let now = self.engine.current_dt;
        let ghost start = self.event_queue@;
        self.engine.close_session();
        proof {
            lemma_close_session_tidy(old(self).engine@);
        }
        let flushing = flush_replies::<T>(&mut self.engine, &mut self.event_queue, &mut self.rng);
        proof {
            lemma_grown_in_order(start, self.event_queue@, now);
        }
        match flushing {
            Err(error) => {
                return Err(error);
            },
            Ok(()) => {},
        }
        let ghost before = self.event_queue@;
        let outcome = schedule_update::<T>(
            SubscriptionUpdate::ExchangeClosed,
            now,
            &mut self.event_queue,
            &mut self.rng,
        );
        proof {
            lemma_grown_further(start, before, self.event_queue@, now);
            lemma_grown_in_order(start, self.event_queue@, now);
        }
        outcome
    }

    /// Looks at the venue's hours when an event finds it closed and the tape
    /// has not ended, and does what they call for. Says what was done.
    pub fn session_guard(&mut self) -> (r: Result<GuardAction, SimulationError>)
        requires
            old(self).wf(),
        ensures
            final(self).wf(),
            final(self).same_hours(old(self)),
            final(self).has_history_events_in_queue == old(self).has_history_events_in_queue,
            final(self).engine.current_dt == old(self).engine.current_dt,
            grown_since(
                old(self).event_queue@,
                final(self).event_queue@,
                old(self).engine.current_dt,
            ),
            final(self).ob_depth_and_interval_ns.0 == old(self).ob_depth_and_interval_ns.0,
            match r {
                Ok(action) => Self::guarded(old(self), final(self), action),
                Err(error) => overflows(error, old(self).engine.current_dt) && Self::guard_called_for(
                    old(self),
                    old(self).engine.current_dt,
                    GuardAction::OpenNow,
                ) && final(self).engine@ == open_session(old(self).engine@)
                    && final(self).open_probe_scheduled == old(self).open_probe_scheduled,
            },
    {
        let now = self.engine.current_dt;
        proof {
            lemma_grown_at_once(self.event_queue@, now);
        }
        if !self.engine.exchange_closed || !self.has_history_events_in_queue {
            return Ok(GuardAction::Stay);
        }
        let open_dt = (self.get_next_open_dt)(now);
        let close_dt = (self.get_next_close_dt)(now);
        let action = decide_session(
            self.engine.exchange_closed,
            self.has_history_events_in_queue,
            self.open_probe_scheduled,
            now,
            open_dt,
            close_dt,
        );
        match action {
            GuardAction::Stay => {},
            GuardAction::OpenNow => {
                match self.open_venue() {
                    Err(error) => {
                        return Err(error);
                    },
                    Ok(()) => {},
                }
            },
            GuardAction::ScheduleOpening(at) => {
                proof {
                    let probe = Event { datetime: at, body: EventBody::SessionOpenProbe };
                    lemma_grown_by_one(self.event_queue@, self.event_queue@, probe, now);
                    lemma_grown_in_order(
                        self.event_queue@,
                        enqueue(self.event_queue@, probe),
                        now,
                    );
                }
                self.event_queue.push(Event { datetime: at, body: EventBody::SessionOpenProbe });
                self.open_probe_scheduled = true;
            },
        }
        Ok(action)
    }

    /// Whether `action` is what the venue's hours call for when an event is
    /// due at the instant `now`: what `guard_action` makes of the next
    /// opening and the next closing that the hours give for `now`, where the
    /// venue is closed and the tape goes on, and nothing otherwise.
    pub open spec fn guard_called_for(before: &Self, now: DateTime, action: GuardAction) -> bool {
        hours_call_for(
            before.get_next_open_dt,
            before.get_next_close_dt,
            before.guard_view(),
            now,
            action,
        )
    }

    /// Whether the exchange `after` is the exchange `before` with `action`
    /// taken, and `action` is what the venue's hours called for.
    pub open spec fn guarded(before: &Self, after: &Self, action: GuardAction) -> bool {
        &&& Self::guard_called_for(before, before.engine.current_dt, action)
        &&& match action {
            GuardAction::Stay => after.engine@ == before.engine@ && after.event_queue@
                == before.event_queue@ && after.open_probe_scheduled
                == before.open_probe_scheduled && after.session_close_dt
                == before.session_close_dt,
            GuardAction::OpenNow => after.engine@ == open_session(before.engine@)
                && after.open_probe_scheduled == before.open_probe_scheduled && exists|
                opened: Result<(), SimulationError>,
            |
                opened is Ok && #[trigger] Self::opened_at(
                    before.get_next_close_dt,
                    before.event_queue@,
                    after.event_queue@,
                    after.session_close_dt,
                    opened,
                    before.engine.current_dt,
                ),
            GuardAction::ScheduleOpening(at) => after.engine@ == before.engine@
                && after.event_queue@ == enqueue(
                before.event_queue@,
                Event { datetime: at, body: EventBody::SessionOpenProbe },
            ) && after.open_probe_scheduled && after.session_close_dt == before.session_close_dt,
        }
    }

    /// What the turn of a subscription makes of the queue `queue` of an
    /// exchange with the engine `engine`, the end of session `close` and
    /// snapshots of `depth` levels. A snapshot shows the best levels of both
    /// sides down to that depth; trade information holds the executions since
    /// the last delivery. What the subscription has for the trader is handed
    /// over for delivery and its next turn is scheduled. A turn that finds
    /// the venue closed, or the subscription not taken, changes nothing.
    pub open spec fn turn_made(
        engine: EngineView,
        queue: Seq<Event>,
        close: DateTime,
        depth: usize,
        after: Seq<Event>,
        subscription_type: SubscriptionSchedule,
    ) -> bool {
        match subscription_type {
            SubscriptionSchedule::OrderBook => if OB_SUBSCRIPTION && !engine.closed {
                exists|snapshot: OrderBookSnapshot, latency: u64, interval: Option<NanoSeconds>|
                    snapshot.bids@ == snapshot_of(engine.bids, depth) && snapshot.asks@
                        == snapshot_of(engine.asks, depth) && #[trigger] turn_taken(
                        queue,
                        after,
                        SubscriptionUpdate::OrderBook(snapshot),
                        subscription_type,
                        engine.now,
                        close,
                        latency,
                        interval,
                    )
            } else {
                after == queue
            },
            SubscriptionSchedule::TradeInfo => if TRD_SUBSCRIPTION && !engine.closed {
                exists|trades: Vec<OrderBookDiff>, latency: u64, interval: Option<NanoSeconds>|
                    trades@ == engine.trades && #[trigger] turn_taken(
                        queue,
                        after,
                        SubscriptionUpdate::TradeInfo(trades),
                        subscription_type,
                        engine.now,
                        close,
                        latency,
                        interval,
                    )
            } else {
                after == queue
            },
        }
    }

    /// Whether the exchange `after` is the exchange `before` with the turn
    /// of a subscription taken, as `turn_made` says.
    pub open spec fn turn_done(
        before: &Self,
        after: &Self,
        subscription_type: SubscriptionSchedule,
    ) -> bool {
        Self::turn_made(
            before.engine@,
            before.event_queue@,
            before.session_close_dt,
            before.ob_depth_and_interval_ns.0,
            after.event_queue@,
            subscription_type,
        )
    }

    /// Lets a subscription take its turn: what it has for the trader is
    /// handed over for delivery, and its next turn is scheduled. A turn that
    /// finds the venue closed, or the subscription not taken, does nothing.
    pub fn handle_subscription_schedule(&mut self, subscription_type: SubscriptionSchedule) -> (r:
        Result<(), SimulationError>)
        requires
            old(self).wf(),
        ensures
            final(self).wf(),
            final(self).same_hours(old(self)),
            final(self).open_probe_scheduled == old(self).open_probe_scheduled,
            final(self).has_history_events_in_queue == old(self).has_history_events_in_queue,
            final(self).engine.current_dt == old(self).engine.current_dt,
            final(self).engine@ == engine_step(
                old(self).engine@,
                Event {
                    datetime: old(self).engine.current_dt,
                    body: EventBody::SubscriptionSchedule(subscription_type),
                },
                false,
            ),
            grown_since(
                old(self).event_queue@,
                final(self).event_queue@,
                old(self).engine.current_dt,
            ),
            r is Ok ==> Self::turn_done(old(self), final(self), subscription_type),
            r matches Err(error) ==> overflows(error, old(self).engine.current_dt)
                && !old(self).engine@.closed
                && match subscription_type {
                SubscriptionSchedule::OrderBook => OB_SUBSCRIPTION,
                SubscriptionSchedule::TradeInfo => TRD_SUBSCRIPTION,
            },
    {
        let now = self.engine.current_dt;
        let ghost start = self.event_queue@;
        proof {
            lemma_grown_at_once(start, now);
            assert(at_time(self.engine@, now) =~= self.engine@);
        }
        if self.engine.exchange_closed {
            return Ok(());
        }
        match subscription_type {
            SubscriptionSchedule::OrderBook => {
                if OB_SUBSCRIPTION {
                    let snapshot = OrderBookSnapshot {
                        bids: snapshot_side(&self.engine.bids, self.ob_depth_and_interval_ns.0),
                        asks: snapshot_side(&self.engine.asks, self.ob_depth_and_interval_ns.0),
                    };
                    let ghost update = SubscriptionUpdate::OrderBook(snapshot);
                    let outcome = schedule_update::<T>(
                        SubscriptionUpdate::OrderBook(snapshot),
                        now,
                        &mut self.event_queue,
                        &mut self.rng,
                    );
                    let ghost latency = choose|latency: u64|
                        #[trigger] scheduled_after(
                            start,
                            self.event_queue@,
                            outcome,
                            EventBody::SubscriptionUpdate(update, now),
                            now,
                            latency,
                        );
                    proof {
                        lemma_grown_in_order(start, self.event_queue@, now);
                    }
                    match outcome {
                        Err(error) => {
                            return Err(error);
                        },
                        Ok(()) => {},
                    }
                    let ghost before = self.event_queue@;
                    let interval = self.ob_depth_and_interval_ns.1.gen_ns(&mut self.rng, now);
                    schedule_next_turn(
                        EventBody::SubscriptionSchedule(SubscriptionSchedule::OrderBook),
                        interval,
                        now,
                        self.session_close_dt,
                        &mut self.event_queue,
                    );
                    proof {
                        lemma_grown_further(start, before, self.event_queue@, now);
                        lemma_grown_in_order(start, self.event_queue@, now);
                        assert(turn_taken(
                            start,
                            self.event_queue@,
                            update,
                            SubscriptionSchedule::OrderBook,
                            now,
                            self.session_close_dt,
                            latency,
                            interval,
                        ));
                    }
                }
            },
            SubscriptionSchedule::TradeInfo => {
                if TRD_SUBSCRIPTION {
                    let trades = self.engine.executed_trades.yield_trade_info();
                    proof {
                        assert(self.engine@ =~= (EngineView {
                            trades: Seq::empty(),
                            ..old(self).engine@
                        }));
                        lemma_same_book_tidy(old(self).engine@, self.engine@);
                    }
                    let ghost update = SubscriptionUpdate::TradeInfo(trades);
                    let outcome = schedule_update::<T>(
                        SubscriptionUpdate::TradeInfo(trades),
                        now,
                        &mut self.event_queue,
                        &mut self.rng,
                    );
                    let ghost latency = choose|latency: u64|
                        #[trigger] scheduled_after(
                            start,
                            self.event_queue@,
                            outcome,
                            EventBody::SubscriptionUpdate(update, now),
                            now,
                            latency,
                        );
                    proof {
                        lemma_grown_in_order(start, self.event_queue@, now);
                    }
                    match outcome {
                        Err(error) => {
                            return Err(error);
                        },
                        Ok(()) => {},
                    }
                    let ghost before = self.event_queue@;
                    let interval = self.trade_info_interval_ns.gen_ns(&mut self.rng, now);
                    schedule_next_turn(
                        EventBody::SubscriptionSchedule(SubscriptionSchedule::TradeInfo),
                        interval,
                        now,
                        self.session_close_dt,
                        &mut self.event_queue,
                    );
                    proof {
                        lemma_grown_further(start, before, self.event_queue@, now);
                        lemma_grown_in_order(start, self.event_queue@, now);
                        assert(turn_taken(
                            start,
                            self.event_queue@,
                            update,
                            SubscriptionSchedule::TradeInfo,
                            now,
                            self.session_close_dt,
                            latency,
                            interval,
                        ));
                    }
                }
            },
        }
        Ok(())
    }

    /// Delivers a reply to the trader and schedules the requests that the
    /// trader answers with.
    pub fn handle_exchange_reply(&mut self, reply: ExchangeReply, exchange_dt: DateTime) -> (r:
        Result<(), SimulationError>)
        ensures
            final(self).only_queue_changed(old(self)),
            grown_since(
                old(self).event_queue@,
                final(self).event_queue@,
                old(self).engine.current_dt,
            ),
            r is Ok ==> requests_scheduled(
                old(self).event_queue@,
                final(self).event_queue@,
                old(self).engine.current_dt,
            ),
            r matches Err(error) ==> overflows(error, old(self).engine.current_dt),
    {
        let deliver_dt = self.engine.current_dt;
        let trader_reactions = self.trader.handle_exchange_reply(exchange_dt, deliver_dt, reply);
        schedule_requests::<T>(
            trader_reactions,
            deliver_dt,
            &mut self.event_queue,
            &mut self.rng,
        )
    }

    /// Carries out a request of the trader and hands the replies over for delivery.
    pub fn handle_trader_request(&mut self, request: TraderRequest) -> (r: Result<
        (),
        SimulationError,
    >)
        requires
            old(self).wf(),
        ensures
            final(self).wf(),
            final(self).same_hours(old(self)),
            final(self).open_probe_scheduled == old(self).open_probe_scheduled,
            final(self).has_history_events_in_queue == old(self).has_history_events_in_queue,
            final(self).engine.current_dt == old(self).engine.current_dt,
            final(self).engine@ == flushed(handle_request(old(self).engine@, request)),
            grown_since(
                old(self).event_queue@,
                final(self).event_queue@,
                old(self).engine.current_dt,
            ),
            r is Ok ==> replies_delivered(
                old(self).event_queue@,
                final(self).event_queue@,
                handle_request(old(self).engine@, request).replies,
                old(self).engine.current_dt,
            ),
            r matches Err(error) ==> overflows(error, old(self).engine.current_dt),
    {
        let ghost start = self.event_queue@;
        let now = self.engine.current_dt;
        self.engine.handle_trader_request(request);
        proof {
            lemma_happening_keeps_tidy(old(self).engine@, Happening::Request(request));
            crate::exchange::laws::lemma_request_frame(old(self).engine@, request);
        }
        let outcome = flush_replies::<T>(&mut self.engine, &mut self.event_queue, &mut self.rng);
        proof {
            lemma_grown_in_order(start, self.event_queue@, now);
        }
        outcome
    }

    /// Wakes the trader up, schedules the requests that the trader answers
    /// with, and schedules the next wake-up. A wake-up that finds the venue
    /// closed, or no wake-ups taken, does nothing.
    pub fn handle_trader_wakeup(&mut self) -> (r: Result<(), SimulationError>)
        ensures
            final(self).only_queue_changed(old(self)),
            r is Ok ==> if WAKEUP_SUBSCRIPTION && !old(self).engine@.closed {
                exists|answered: Seq<Event>, interval: Option<NanoSeconds>|
                    requests_scheduled(
                        old(self).event_queue@,
                        answered,
                        old(self).engine.current_dt,
                    ) && final(self).event_queue@ == #[trigger] next_turn(
                        answered,
                        EventBody::TraderWakeUp,
                        interval,
                        old(self).engine.current_dt,
                        old(self).session_close_dt,
                    )
            } else {
                final(self).event_queue@ == old(self).event_queue@
            },
            grown_since(
                old(self).event_queue@,
                final(self).event_queue@,
                old(self).engine.current_dt,
            ),
            r matches Err(error) ==> overflows(error, old(self).engine.current_dt)
                && WAKEUP_SUBSCRIPTION
                && !old(self).engine@.closed,
    {
        let now = self.engine.current_dt;
        let ghost start = self.event_queue@;
        proof {
            lemma_grown_at_once(start, now);
        }
        if WAKEUP_SUBSCRIPTION && !self.engine.exchange_closed {
            let trader_reactions = self.trader.handle_wakeup(now);
            match schedule_requests::<T>(
                trader_reactions,
                now,
                &mut self.event_queue,
                &mut self.rng,
            ) {
                Err(error) => {
                    return Err(error);
                },
                Ok(()) => {},
            }
            let ghost before = self.event_queue@;
            let interval = self.wakeup.gen_ns(&mut self.rng, now);
            schedule_next_turn(
                EventBody::TraderWakeUp,
                interval,
                now,
                self.session_close_dt,
                &mut self.event_queue,
            );
            proof {
                lemma_grown_further(start, before, self.event_queue@, now);
            }
        }
        Ok(())
    }

    /// Whether the session guard, asked before an event that is due at
    /// `now`, took `action` and left the queue `queue` and the end of session
    /// `close`. For an event that opens or closes the venue the guard is not
    /// asked. Otherwise `action` is what the venue's hours call for: nothing,
    /// the opening of the venue at once, as `opened_at` says, or its opening
    /// later, which is scheduled.
    pub open spec fn guard_left(
        before: &Self,
        event: Event,
        action: GuardAction,
        queue: Seq<Event>,
        close: DateTime,
    ) -> bool {
        if is_session_probe(event.body) {
            action == GuardAction::Stay && queue == before.event_queue@ && close
                == before.session_close_dt
        } else {
            Self::guard_called_for(before, event.datetime, action) && match action {
                GuardAction::Stay => queue == before.event_queue@ && close
                    == before.session_close_dt,
                GuardAction::OpenNow => exists|opened: Result<(), SimulationError>|
                    opened is Ok && #[trigger] Self::opened_at(
                        before.get_next_close_dt,
                        before.event_queue@,
                        queue,
                        close,
                        opened,
                        event.datetime,
                    ),
                GuardAction::ScheduleOpening(at) => queue == enqueue(
                    before.event_queue@,
                    Event { datetime: at, body: EventBody::SessionOpenProbe },
                ) && close == before.session_close_dt,
            }
        }
    }

    /// Whether the queue of `after` is what handing `event` on to whom it
    /// concerns makes of the queue `queue`, where the session guard left the
    /// engine `engine` and the end of session `close`, and the exchange has
    /// the hours and the depth of snapshots of `before`. The replies of the
    /// engine are scheduled for delivery, and the next event of the tape is
    /// scheduled; the requests with which the trader answers are scheduled for
    /// their arrival; a subscription or the wake-up takes its turn; the venue
    /// opens, or it closes and what it cancelled and the news of its closing
    /// are scheduled for delivery.
    pub open spec fn handed_on(
        before: &Self,
        engine: EngineView,
        queue: Seq<Event>,
        close: DateTime,
        after: &Self,
        event: Event,
    ) -> bool {
        let now = event.datetime;
        match event.body {
            EventBody::HistoryEvent(body) => exists|
                delivered: Seq<Event>,
                next: Option<HistoryEvent>,
            |
                replies_delivered(queue, delivered, handle_history(engine, body).replies, now)
                    && #[trigger] tape_advanced(delivered, after.event_queue@, next, now)
                    && after.has_history_events_in_queue == (next is Some),
            EventBody::TraderRequest(request) => replies_delivered(
                queue,
                after.event_queue@,
                handle_request(engine, request).replies,
                now,
            ),
            EventBody::ExchangeReply(_, _) => requests_scheduled(queue, after.event_queue@, now),
            EventBody::SubscriptionUpdate(_, _) => requests_scheduled(
                queue,
                after.event_queue@,
                now,
            ),
            EventBody::SubscriptionSchedule(subscription_type) => Self::turn_made(
                engine,
                queue,
                close,
                before.ob_depth_and_interval_ns.0,
                after.event_queue@,
                subscription_type,
            ),
            EventBody::TraderWakeUp => if WAKEUP_SUBSCRIPTION && !engine.closed {
                exists|answered: Seq<Event>, interval: Option<NanoSeconds>|
                    requests_scheduled(queue, answered, now) && after.event_queue@
                        == #[trigger] next_turn(
                        answered,
                        EventBody::TraderWakeUp,
                        interval,
                        now,
                        close,
                    )
            } else {
                after.event_queue@ == queue
            },
            EventBody::SessionOpenProbe => if engine.closed {
                exists|opened: Result<(), SimulationError>|
                    opened is Ok && #[trigger] Self::opened_at(
                        before.get_next_close_dt,
                        queue,
                        after.event_queue@,
                        after.session_close_dt,
                        opened,
                        now,
                    )
            } else {
                after.event_queue@ == queue
            },
            EventBody::SessionCloseProbe => if engine.closed {
                after.event_queue@ == queue
            } else {
                exists|cancelled: Seq<Event>, latency: u64|
                    replies_delivered(queue, cancelled, close_session(engine).replies, now)
                        && #[trigger] scheduled_after(
                        cancelled,
                        after.event_queue@,
                        Ok(()),
                        EventBody::SubscriptionUpdate(SubscriptionUpdate::ExchangeClosed, now),
                        now,
                        latency,
                    )
            },
        }
    }

    /// Whether the exchange `after` is the exchange `before` with an event
    /// handled, where the session guard took `action` first. For an event that
    /// opens or closes the venue the guard is not asked. For every other event
    /// `action` is what the venue's hours call for at the time of the event,
    /// as `watched` says: where they call for it, the venue opens before the
    /// event is handled, or its opening is scheduled. `failed` says that the
    /// handling failed.
    pub open spec fn stepped(
        before: &Self,
        after: &Self,
        event: Event,
        action: GuardAction,
        failed: bool,
    ) -> bool {
        &&& step_outcome(before.engine@, after.engine@, event, action, failed)
        &&& watched(
            before.get_next_open_dt,
            before.get_next_close_dt,
            before.guard_view(),
            after.guard_view(),
            event,
            action,
        )
        &&& action matches GuardAction::ScheduleOpening(at) ==> after.open_probe_scheduled
            && grown_since(
            enqueue(before.event_queue@, Event { datetime: at, body: EventBody::SessionOpenProbe }),
            after.event_queue@,
            event.datetime,
        )
    }

    /// Handles an event that is due: the clock is set to its time, the
    /// venue's hours are looked at, and the event goes to whom it concerns.
    /// Where that goes well, the queue is what the session guard left of it,
    /// as `guard_left` says, with what the handling of the event scheduled,
    /// as `handed_on` says. It fails only where the clock cannot hold an
    /// instant that something must be scheduled for, or where the tape is out
    /// of order.
    #[verifier::rlimit(40)]
    pub fn process_next_event(&mut self, event: Event) -> (r: Result<(), SimulationError>)
        requires
            old(self).wf(),
            none_before(old(self).event_queue@, event.datetime),
            event.datetime.0 >= old(self).engine.current_dt.0,
        ensures
            final(self).wf(),
            final(self).same_hours(old(self)),
            final(self).engine.current_dt == event.datetime,
            final(self).engine.current_dt.0 >= old(self).engine.current_dt.0,
            grown_since(old(self).event_queue@, final(self).event_queue@, event.datetime),
            exists|action: GuardAction| #[trigger]
                Self::stepped(old(self), final(self), event, action, r is Err),
            exists|action: GuardAction| #[trigger]
                step_outcome(old(self).engine@, final(self).engine@, event, action, r is Err)
                    && watched(
                    old(self).get_next_open_dt,
                    old(self).get_next_close_dt,
                    old(self).guard_view(),
                    final(self).guard_view(),
                    event,
                    action,
                ),
            r matches Err(error) ==> overflows(error, event.datetime) || (event.body is HistoryEvent
                && tape_out_of_order(error, event.datetime)),
            !(old(self).engine@.closed && old(self).has_history_events_in_queue) && (match event.body {
                EventBody::SubscriptionSchedule(SubscriptionSchedule::OrderBook) => !OB_SUBSCRIPTION
                    || old(self).engine@.closed,
                EventBody::SubscriptionSchedule(SubscriptionSchedule::TradeInfo) => !TRD_SUBSCRIPTION
                    || old(self).engine@.closed,
                EventBody::TraderWakeUp => !WAKEUP_SUBSCRIPTION || old(self).engine@.closed,
                EventBody::SubscriptionUpdate(update, _) => update is ExchangeOpen
                    || update is ExchangeClosed,
                _ => false,
            }) ==> r is Ok && final(self).event_queue@ == old(self).event_queue@,
            (event.body is SessionCloseProbe && old(self).engine@.closed) || (
            event.body is SessionOpenProbe && !old(self).engine@.closed) ==> r is Ok
                && final(self).event_queue@ == old(self).event_queue@,
            !(event.body is HistoryEvent) ==> final(self).has_history_events_in_queue
                == old(self).has_history_events_in_queue,
            r is Ok ==> exists|action: GuardAction, queue: Seq<Event>, close: DateTime|
                #[trigger] Self::guard_left(old(self), event, action, queue, close)
                    && Self::handed_on(
                    old(self),
                    guarded_engine(old(self).engine@, event, action == GuardAction::OpenNow),
                    queue,
                    close,
                    final(self),
                    event,
                ),
    {
        let ghost start = self.event_queue@;
        let now = event.datetime;
        self.engine.current_dt = now;
        let ghost current = at_time(old(self).engine@, now);
        proof {
            assert(self.engine@ =~= current);
            lemma_same_book_tidy(old(self).engine@, current);
        }
        let is_probe = match &event.body {
            EventBody::SessionOpenProbe => true,
            EventBody::SessionCloseProbe => true,
            _ => false,
        };
        let ghost mut taken = GuardAction::Stay;
        if !is_probe {
            match self.session_guard() {
                Err(error) => {
                    proof {
                        assert(Self::stepped(old(self), self, event, GuardAction::OpenNow, true));
                    }
                    return Err(error);
                },
                Ok(action) => {
                    proof {
                        taken = action;
                    }
                },
            }
        } else {
            proof {
                lemma_grown_at_once(start, now);
            }
        }
        let ghost guarded = self.engine@;
        let ghost before = self.event_queue@;
        let ghost due = event;
        let ghost close = self.session_close_dt;
        proof {
            assert(Self::guard_left(old(self), due, taken, before, close));
        }
        let outcome = match event.body {
            EventBody::HistoryEvent(body) => self.handle_history_event(body),
            EventBody::TraderRequest(request) => self.handle_trader_request(request),
            EventBody::ExchangeReply(reply, exchange_dt) => self.handle_exchange_reply(
                reply,
                exchange_dt,
            ),
            EventBody::SubscriptionUpdate(update, exchange_dt) => self.handle_subscription_update(
                update,
                exchange_dt,
            ),
            EventBody::SubscriptionSchedule(subscription_type) => self.handle_subscription_schedule(
                subscription_type,
            ),
            EventBody::TraderWakeUp => self.handle_trader_wakeup(),
            EventBody::SessionOpenProbe => {
                self.open_probe_scheduled = false;
                if self.engine.exchange_closed {
                    self.open_venue()
                } else {
                    proof {
                        lemma_grown_at_once(before, now);
                    }
                    Ok(())
                }
            },
            EventBody::SessionCloseProbe => {
                if self.engine.exchange_closed {
                    proof {
                        lemma_grown_at_once(before, now);
                    }
                    Ok(())
                } else {
                    self.close_venue()
                }
            },
        };
        proof {
            lemma_grown_further(start, before, self.event_queue@, now);
            lemma_grown_in_order(start, self.event_queue@, now);
            assert(self.engine@ == engine_step(
                old(self).engine@,
                event,
                taken == GuardAction::OpenNow,
            ));
            law_step_closes_as_said(old(self).engine@, due, taken == GuardAction::OpenNow);
            assert(watched(
                old(self).get_next_open_dt,
                old(self).get_next_close_dt,
                old(self).guard_view(),
                self.guard_view(),
                due,
                taken,
            ));
            assert(Self::stepped(old(self), self, event, taken, outcome is Err));
            if outcome is Ok {
                if due.body is SessionCloseProbe && !guarded.closed {
                    let news = EventBody::SubscriptionUpdate(
                        SubscriptionUpdate::ExchangeClosed,
                        now,
                    );
                    let (cancelled, latency) = choose|cancelled: Seq<Event>, latency: u64|
                        replies_delivered(before, cancelled, close_session(guarded).replies, now)
                            && #[trigger] scheduled_after(
                            cancelled,
                            self.event_queue@,
                            outcome,
                            news,
                            now,
                            latency,
                        );
                    assert(scheduled_after(
                        cancelled,
                        self.event_queue@,
                        Ok(()),
                        news,
                        now,
                        latency,
                    ));
                }
                assert(Self::handed_on(old(self), guarded, before, close, self, due));
            }
        }
        outcome
    }
}

} // verus!
