//! How an exchange is put together and run.

use rand::rngs::StdRng;
use vstd::prelude::*;
use crate::exchange::{
    engine_run, events_ascend, step_outcome, taken_from_the_head, watched, watched_over, Exchange,
    GuardAction, GuardView,
};
use crate::exchange::finality::{law_new_engine_is_sealed, lemma_same_book_tidy};
use crate::exchange::matching::{EngineView, MatchingEngine};
use crate::exchange::types::{
    grown_since, law_events_leave_in_time_order, overflows, tape_out_of_order, Event, EventBody,
    EventQueue, SimulationError,
};
use crate::history::parser::interface::EventProcessor;
use crate::history::types::HistoryEvent;
use crate::lags::interface::NanoSecondGenerator;
use crate::trader::Trader;
use crate::types::{seeded_generator, seeded_rng, DateTime, NanoSeconds, OrderID};

verus! {

/// The generator of a subscription that is not taken: it has no interval to give.
pub struct VoidNanoSecGen;

impl NanoSecondGenerator for VoidNanoSecGen {
    fn gen_ns(&mut self, rng: &mut StdRng, dt: DateTime) -> (r: Option<NanoSeconds>)
        ensures
            r is None,
    {
        None
    }
}

/// Where an exchange is made: for a trader, a tape and the venue's hours.
pub struct ExchangeBuilder<T, E, NO, NC> {
    _dummy_a: T,
    _dummy_b: E,
    _dummy_c: NO,
    _dummy_d: NC,
}

/// The seed of the generator of an exchange that has not been given
/// another. An exchange is made with the generator of this seed, not with one
/// drawn from the entropy of the machine, so that a run that was not seeded
/// is reproducible as well; who wants another run seeds it with `seed_rng`.
pub const DEFAULT_SEED: u64 = 0;

impl<
    'a,
    T: Trader,
    E: EventProcessor,
    NO: Fn(DateTime) -> DateTime,
    NC: Fn(DateTime) -> DateTime,
> ExchangeBuilder<T, E, NO, NC> {
    /// An exchange without subscriptions that makes no notes. It is closed,
    /// its book is empty, its clock stands at the time of the tape's first
    /// event, and that event is all that is scheduled. A tape without events
    /// makes no exchange.
    pub fn new<const TRD_UPDATES_OB: bool>(
        event_processor: E,
        trader: &'a mut T,
        get_next_open_dt: NO,
        get_next_close_dt: NC,
    ) -> (r: Result<
        Exchange<
            'a,
            T,
            E,
            NO,
            NC,
            VoidNanoSecGen,
            VoidNanoSecGen,
            VoidNanoSecGen,
            false,
            TRD_UPDATES_OB,
            false,
            false,
            false,
        >,
        SimulationError,
    >)
        requires
            forall|at: DateTime| #[trigger] call_requires(get_next_open_dt, (at,)),
            forall|at: DateTime| #[trigger] call_requires(get_next_close_dt, (at,)),
        ensures
            exists|first: Option<HistoryEvent>| #[trigger]
                Exchange::built(r, first, get_next_open_dt, get_next_close_dt),
            r matches Ok(exchange) ==> *exchange.trader == *old(trader),
    {
        Exchange::build(event_processor, trader, get_next_open_dt, get_next_close_dt)
    }

    /// An exchange without subscriptions that makes notes of what does not
    /// fit on the tape. In everything else it is as `new` makes it.
    pub fn new_debug<const TRD_UPDATES_OB: bool>(
        event_processor: E,
        trader: &'a mut T,
        get_next_open_dt: NO,
        get_next_close_dt: NC,
    ) -> (r: Result<
        Exchange<
            'a,
            T,
            E,
            NO,
            NC,
            VoidNanoSecGen,
            VoidNanoSecGen,
            VoidNanoSecGen,
            true,
            TRD_UPDATES_OB,
            false,
            false,
            false,
        >,
        SimulationError,
    >)
        requires
            forall|at: DateTime| #[trigger] call_requires(get_next_open_dt, (at,)),
            forall|at: DateTime| #[trigger] call_requires(get_next_close_dt, (at,)),
        ensures
            exists|first: Option<HistoryEvent>| #[trigger]
                Exchange::built(r, first, get_next_open_dt, get_next_close_dt),
            r matches Ok(exchange) ==> *exchange.trader == *old(trader),
    {
        Exchange::build(event_processor, trader, get_next_open_dt, get_next_close_dt)
    }
}

impl<
    'a,
    T: Trader,
    E: EventProcessor,
    NO: Fn(DateTime) -> DateTime,
    NC: Fn(DateTime) -> DateTime,
    const DEBUG: bool,
    const TRD_UPDATES_OB: bool,
> Exchange<
    'a,
    T,
    E,
    NO,
    NC,
    VoidNanoSecGen,
    VoidNanoSecGen,
    VoidNanoSecGen,
    DEBUG,
    TRD_UPDATES_OB,
    false,
    false,
    false,
> {
    /// Whether `made` is what is made of the first event of the tape, where
    /// the tape yielded `first`: the exchange that starts with that event, as
    /// `starts_fresh` says, or no exchange where the tape yielded none.
    pub open spec fn built(
        made: Result<Self, SimulationError>,
        first: Option<HistoryEvent>,
        get_next_open_dt: NO,
        get_next_close_dt: NC,
    ) -> bool {
        match first {
            Some(event) => made matches Ok(exchange) && exchange.wf() && exchange.starts_fresh()
                && exchange.event_queue@ == seq![
                Event { datetime: event.datetime, body: EventBody::HistoryEvent(event.event) },
            ] && exchange.engine.current_dt == event.datetime && exchange.session_close_dt
                == event.datetime && exchange.rng == seeded_generator(DEFAULT_SEED)
                && exchange.get_next_open_dt == get_next_open_dt && exchange.get_next_close_dt
                == get_next_close_dt && exchange.ob_depth_and_interval_ns.0 == 0,
            None => made matches Err(error) && error == SimulationError::NoHistoryEvents,
        }
    }

    /// Takes the first event of the tape and makes the exchange that starts
    /// with it; a tape without events makes none.
    pub fn build(
        event_processor: E,
        trader: &'a mut T,
        get_next_open_dt: NO,
        get_next_close_dt: NC,
    ) -> (r: Result<Self, SimulationError>)
        requires
            forall|at: DateTime| #[trigger] call_requires(get_next_open_dt, (at,)),
            forall|at: DateTime| #[trigger] call_requires(get_next_close_dt, (at,)),
        ensures
            exists|first: Option<HistoryEvent>| #[trigger]
                Self::built(r, first, get_next_open_dt, get_next_close_dt),
            r matches Ok(exchange) ==> *exchange.trader == *old(trader),
    {
        let mut event_processor = event_processor;
        let first_event = event_processor.yield_next_event();
        Self::build_with(
            first_event,
            event_processor,
            trader,
            get_next_open_dt,
            get_next_close_dt,
        )
    }

    /// Makes the exchange that starts with the given first event of the
    /// tape, which goes on with what `event_processor` yields: closed, with an
    /// empty book, the clock at the time of the event, the event scheduled and
    /// nothing else, and the generator of the default seed. Without a first
    /// event there is no exchange.
    pub fn build_with(
        first: Option<HistoryEvent>,
        event_processor: E,
        trader: &'a mut T,
        get_next_open_dt: NO,
        get_next_close_dt: NC,
    ) -> (r: Result<Self, SimulationError>)
        requires
            forall|at: DateTime| #[trigger] call_requires(get_next_open_dt, (at,)),
            forall|at: DateTime| #[trigger] call_requires(get_next_close_dt, (at,)),
        ensures
            Self::built(r, first, get_next_open_dt, get_next_close_dt),
            r matches Ok(exchange) ==> exchange.event_processor == event_processor
                && *exchange.trader == *old(trader),
    {
        let event = match first {
            Some(event) => event,
            None => {
                return Err(SimulationError::NoHistoryEvents);
            },
        };
        let mut exchange = Exchange {
            event_queue: EventQueue::default(),
            event_processor,
            engine: MatchingEngine::new(DEBUG, TRD_UPDATES_OB, false, event.datetime),
            trader,
            get_next_open_dt,
            get_next_close_dt,
            session_close_dt: event.datetime,
            open_probe_scheduled: false,
            has_history_events_in_queue: true,
            rng: seeded_rng(DEFAULT_SEED),
            ob_depth_and_interval_ns: (0, VoidNanoSecGen),
            trade_info_interval_ns: VoidNanoSecGen,
            wakeup: VoidNanoSecGen,
        };
        proof {
            law_new_engine_is_sealed(exchange.engine@, OrderID(0));
        }
        exchange.event_queue.schedule_history_event(event);
        proof {
            let scheduled = Event {
                datetime: event.datetime,
                body: EventBody::HistoryEvent(event.event),
            };
            assert(exchange.event_queue@ =~= seq![scheduled]);
        }
        Ok(exchange)
    }
}

impl<
    'a,
    T: Trader,
    E: EventProcessor,
    NO: Fn(DateTime) -> DateTime,
    NC: Fn(DateTime) -> DateTime,
    ObLagGen: NanoSecondGenerator,
    TrdLagGen: NanoSecondGenerator,
    WkpLagGen: NanoSecondGenerator,
    const DEBUG: bool,
    const TRD_UPDATES_OB: bool,
    const OB_SUBSCRIPTION: bool,
    const TRD_SUBSCRIPTION: bool,
    const WAKEUP_SUBSCRIPTION: bool,
> Exchange<
    'a,
    T,
    E,
    NO,
    NC,
    ObLagGen,
    TrdLagGen,
    WkpLagGen,
    DEBUG,
    TRD_UPDATES_OB,
    OB_SUBSCRIPTION,
    TRD_SUBSCRIPTION,
    WAKEUP_SUBSCRIPTION,
> {
    /// Whether the exchange is as it is made: closed, with nothing in the
    /// book and nothing known of any order, and with the first event of the
    /// tape scheduled and nothing else, at whose time the clock stands.
    pub open spec fn starts_fresh(&self) -> bool {
        &&& self.engine@ == (EngineView {
            bids: Seq::empty(),
            asks: Seq::empty(),
            history_order_ids: Set::empty(),
            pending_markets: Seq::empty(),
            pending_limits: Map::empty(),
            submitted: Set::empty(),
            trades: Seq::empty(),
            replies: Seq::empty(),
            diagnostics: Seq::empty(),
            closed: true,
            now: self.engine.current_dt,
            debug: DEBUG,
            trade_updates_book: TRD_UPDATES_OB,
            record_trades: TRD_SUBSCRIPTION,
        })
        &&& !self.open_probe_scheduled
        &&& self.has_history_events_in_queue
        &&& self.event_queue@.len() == 1
        &&& self.event_queue@[0].body is HistoryEvent
        &&& self.event_queue@[0].datetime == self.engine.current_dt
    }

    /// Whether the exchange `after` is the exchange `before` after a run of
    /// at most `limit` events that ended with `outcome`. The run handled the
    /// events `handled`, each taken from the head of the queue, none for a time
    /// before that of the one before it or before the clock, and before each
    /// the session guard took the action of the same place, which is what the
    /// venue's hours called for where the guard found what `seen` holds at
    /// that place. The engine is what the events made of it one after the
    /// other. A run that ends well
    /// leaves nothing scheduled; one that ends at its limit has handled that
    /// many events and leaves some scheduled; any other failure is that of the
    /// last event.
    pub open spec fn ran(
        before: &Self,
        after: &Self,
        outcome: Result<(), SimulationError>,
        limit: u64,
        handled: Seq<Event>,
        actions: Seq<GuardAction>,
        queues: Seq<Seq<Event>>,
        seen: Seq<GuardView>,
    ) -> bool {
        &&& actions.len() == handled.len() <= limit
        &&& taken_from_the_head(queues, handled)
        &&& watched_over(
            before.get_next_open_dt,
            before.get_next_close_dt,
            seen,
            handled,
            actions,
        )
        &&& seen[0] == before.guard_view()
        &&& seen[handled.len() as int] == after.guard_view()
        &&& queues[0] == before.event_queue@
        &&& queues[handled.len() as int] == after.event_queue@
        &&& events_ascend(handled)
        &&& handled.len() > 0 ==> handled[0].datetime.0 >= before.engine.current_dt.0
            && after.engine.current_dt == handled.last().datetime
        &&& handled.len() == 0 ==> after.engine == before.engine
        &&& match outcome {
            Ok(()) => after.event_queue@.len() == 0 && after.engine@ == engine_run(
                before.engine@,
                handled,
                actions,
            ),
            Err(error) => if error is EventLimit {
                handled.len() == limit && after.event_queue@.len() > 0 && error
                    == (SimulationError::EventLimit { at: after.engine.current_dt }) && after.engine@
                    == engine_run(before.engine@, handled, actions)
            } else {
                handled.len() > 0 && step_outcome(
                    engine_run(before.engine@, handled.drop_last(), actions.drop_last()),
                    after.engine@,
                    handled.last(),
                    actions.last(),
                    true,
                ) && (overflows(error, handled.last().datetime) || (handled.last().body
                    is HistoryEvent && tape_out_of_order(error, handled.last().datetime)))
            },
        }
    }

    /// Handles the events in the order of their times until none is left.
    /// The run ends early where the clock cannot hold an instant that
    /// something must be scheduled for, where the tape is out of order, or
    /// after as many events as can be counted.
    pub fn run_trades(&mut self) -> (r: Result<(), SimulationError>)
        requires
            old(self).wf(),
        ensures
            final(self).wf(),
            final(self).same_hours(old(self)),
            final(self).engine.current_dt.0 >= old(self).engine.current_dt.0,
            exists|
                handled: Seq<Event>,
                actions: Seq<GuardAction>,
                queues: Seq<Seq<Event>>,
                seen: Seq<GuardView>,
            | #[trigger]
                Self::ran(
                    old(self),
                    final(self),
                    r,
                    u64::MAX,
                    handled,
                    actions,
                    queues,
                    seen,
                ),
            old(self).event_queue@.len() == 0 ==> r is Ok && final(self).engine == old(self).engine,
            r is Err ==> old(self).event_queue@.len() > 0 && final(self).engine.current_dt.0
                >= old(self).event_queue@[0].datetime.0,
    {
        self.run_events(u64::MAX)
    }

    /// Handles the events in the order of their times until none is left,
    /// but no more than `limit` of them. The run ends early where the clock
    /// cannot hold an instant that something must be scheduled for, or where
    /// the tape is out of order.
    pub fn run_events(&mut self, limit: u64) -> (r: Result<(), SimulationError>)
        requires
            old(self).wf(),
        ensures
            final(self).wf(),
            final(self).same_hours(old(self)),
            final(self).engine.current_dt.0 >= old(self).engine.current_dt.0,
            exists|
                handled: Seq<Event>,
                actions: Seq<GuardAction>,
                queues: Seq<Seq<Event>>,
                seen: Seq<GuardView>,
            | #[trigger]
                Self::ran(old(self), final(self), r, limit, handled, actions, queues, seen),
            old(self).event_queue@.len() == 0 ==> r is Ok && final(self).engine == old(self).engine,
            limit == 0 && old(self).event_queue@.len() > 0 ==> r == Err::<(), SimulationError>(
                SimulationError::EventLimit { at: old(self).engine.current_dt },
            ),
            r is Err ==> old(self).event_queue@.len() > 0 && (limit > 0
                ==> final(self).engine.current_dt.0 >= old(self).event_queue@[0].datetime.0),
    {
        let mut count: u64 = 0;
        let ghost mut handled: Seq<Event> = Seq::empty();
        let ghost mut actions: Seq<GuardAction> = Seq::empty();
        let ghost mut queues: Seq<Seq<Event>> = seq![self.event_queue@];
        let ghost mut seen: Seq<GuardView> = seq![self.guard_view()];
        while count < limit
            invariant
                self.wf(),
                self.same_hours(old(self)),
                self.engine.current_dt.0 >= old(self).engine.current_dt.0,
                count <= limit,
                handled.len() == count,
                actions.len() == count,
                taken_from_the_head(queues, handled),
                queues[0] == old(self).event_queue@,
                queues[count as int] == self.event_queue@,
                watched_over(
                    old(self).get_next_open_dt,
                    old(self).get_next_close_dt,
                    seen,
                    handled,
                    actions,
                ),
                seen[0] == old(self).guard_view(),
                seen[count as int] == self.guard_view(),
                events_ascend(handled),
                count > 0 ==> handled[0].datetime.0 >= old(self).engine.current_dt.0
                    && self.engine.current_dt == handled.last().datetime,
                count == 0 ==> self.engine == old(self).engine,
                self.engine@ == engine_run(old(self).engine@, handled, actions),
            decreases limit - count,
        {
            let ghost waiting = self.event_queue@;
            let ghost engine_before = self.engine@;
            let ghost found = self.guard_view();
            let ghost clock = self.engine.current_dt;
            match self.event_queue.pop() {
                None => {
                    proof {
                        assert(Self::ran(old(self), self, Ok(()), limit, handled, actions, queues, seen));
                    }
                    return Ok(());
                },
                Some(event) => {
                    let ghost due = event;
                    proof {
                        law_events_leave_in_time_order(waiting);
                        assert forall|i: int| 0 <= i < waiting.drop_first().len() implies (
                        #[trigger] waiting.drop_first()[i]).datetime.0
                            >= self.engine.current_dt.0 by {
                            assert(waiting.drop_first()[i] == waiting[i + 1]);
                        }
                    }
                    let outcome = self.process_next_event(event);
                    proof {
                        let action = choose|action: GuardAction|
                            #[trigger] step_outcome(
                                engine_before,
                                self.engine@,
                                due,
                                action,
                                outcome is Err,
                            ) && watched(
                                old(self).get_next_open_dt,
                                old(self).get_next_close_dt,
                                found,
                                self.guard_view(),
                                due,
                                action,
                            );
                        let more = handled.push(due);
                        let more_actions = actions.push(action);
                        let more_queues = queues.push(self.event_queue@);
                        let more_seen = seen.push(self.guard_view());
                        assert forall|i: int| 0 <= i < more.len() implies watched(
                            old(self).get_next_open_dt,
                            old(self).get_next_close_dt,
                            more_seen[i],
                            more_seen[i + 1],
                            #[trigger] more[i],
                            more_actions[i],
                        ) by {
                            if i < handled.len() {
                                assert(more[i] == handled[i]);
                            }
                        }
                        assert(more.drop_last() =~= handled);
                        assert(more_actions.drop_last() =~= actions);
                        assert forall|i: int| 0 <= i < more.len() implies more_queues[i].len() > 0
                            && more_queues[i][0] == #[trigger] more[i] && grown_since(
                            more_queues[i].drop_first(),
                            more_queues[i + 1],
                            more[i].datetime,
                        ) by {
                            if i < handled.len() {
                                assert(more[i] == handled[i]);
                            }
                        }
                        assert forall|i: int, j: int| 0 <= i < j < more.len() implies (
                        #[trigger] more[i]).datetime.0 <= (#[trigger] more[j]).datetime.0 by {
                            if j < handled.len() {
                                assert(more[i] == handled[i] && more[j] == handled[j]);
                            } else if handled.len() > 0 {
                                assert(more[i] == handled[i]);
                                assert(handled[i].datetime.0 <= handled.last().datetime.0) by {
                                    if i < handled.len() - 1 {
                                        assert(handled[handled.len() - 1] == handled.last());
                                    }
                                }
                            }
                        }
                        handled = more;
                        actions = more_actions;
                        queues = more_queues;
                        seen = more_seen;
                    }
                    match outcome {
                        Err(error) => {
                            proof {
                                assert(Self::ran(
                                    old(self),
                                    self,
                                    Err(error),
                                    limit,
                                    handled,
                                    actions,
                                    queues,
                                    seen,
                                ));
                            }
                            return Err(error);
                        },
                        Ok(()) => {},
                    }
                },
            }
            count = count + 1;
        }
        if self.event_queue.len() == 0 {
            proof {
                assert(Self::ran(old(self), self, Ok(()), limit, handled, actions, queues, seen));
            }
            Ok(())
        } else {
            let stopped = SimulationError::EventLimit { at: self.engine.current_dt };
            proof {
                assert(Self::ran(old(self), self, Err(stopped), limit, handled, actions, queues, seen));
            }
            Err(stopped)
        }
    }

    /// The exchange with snapshots of the best `depth` levels of the book
    /// delivered at the intervals that `ns_gen` gives.
    pub fn ob_level_subscription_depth<G: NanoSecondGenerator>(self, ns_gen: G, depth: usize) -> (r:
        Exchange<
            'a,
            T,
            E,
            NO,
            NC,
            G,
            TrdLagGen,
            WkpLagGen,
            DEBUG,
            TRD_UPDATES_OB,
            true,
            TRD_SUBSCRIPTION,
            WAKEUP_SUBSCRIPTION,
        >)
        requires
            self.wf(),
        ensures
            r.wf(),
            r.engine == self.engine,
            r.event_queue == self.event_queue,
            r.get_next_open_dt == self.get_next_open_dt,
            r.get_next_close_dt == self.get_next_close_dt,
            r.session_close_dt == self.session_close_dt,
            r.open_probe_scheduled == self.open_probe_scheduled,
            r.has_history_events_in_queue == self.has_history_events_in_queue,
            r.ob_depth_and_interval_ns == (depth, ns_gen),
            r.trade_info_interval_ns == self.trade_info_interval_ns,
            r.wakeup == self.wakeup,
            r.rng == self.rng,
            r.event_processor == self.event_processor,
            *r.trader == *old(self.trader),
    {
        let Exchange {
            event_queue,
            event_processor,
            engine,
            trader,
            get_next_open_dt,
            get_next_close_dt,
            session_close_dt,
            open_probe_scheduled,
            has_history_events_in_queue,
            rng,
            trade_info_interval_ns,
            wakeup,
            ..
        } = self;
        Exchange {
            event_queue,
            event_processor,
            engine,
            trader,
            get_next_open_dt,
            get_next_close_dt,
            session_close_dt,
            open_probe_scheduled,
            has_history_events_in_queue,
            rng,
            ob_depth_and_interval_ns: (depth, ns_gen),
            trade_info_interval_ns,
            wakeup,
        }
    }

    /// The exchange with snapshots of the whole book delivered at the
    /// intervals that `ns_gen` gives.
    pub fn ob_level_subscription_full<G: NanoSecondGenerator>(self, ns_gen: G) -> (r: Exchange<
        'a,
        T,
        E,
        NO,
        NC,
        G,
        TrdLagGen,
        WkpLagGen,
        DEBUG,
        TRD_UPDATES_OB,
        true,
        TRD_SUBSCRIPTION,
        WAKEUP_SUBSCRIPTION,
    >)
        requires
            self.wf(),
        ensures
            r.wf(),
            r.engine == self.engine,
            r.event_queue == self.event_queue,
            r.get_next_open_dt == self.get_next_open_dt,
            r.get_next_close_dt == self.get_next_close_dt,
            r.session_close_dt == self.session_close_dt,
            r.open_probe_scheduled == self.open_probe_scheduled,
            r.has_history_events_in_queue == self.has_history_events_in_queue,
            r.ob_depth_and_interval_ns == (usize::MAX, ns_gen),
            r.trade_info_interval_ns == self.trade_info_interval_ns,
            r.wakeup == self.wakeup,
            r.rng == self.rng,
            r.event_processor == self.event_processor,
            *r.trader == *old(self.trader),
    {
        self.ob_level_subscription_depth(ns_gen, usize::MAX)
    }

    /// The exchange with the executions since the last delivery delivered at
    /// the intervals that `ns_gen` gives. From now on executions are recorded.
    pub fn trade_info_subscription<G: NanoSecondGenerator>(self, ns_gen: G) -> (r: Exchange<
        'a,
        T,
        E,
        NO,
        NC,
        ObLagGen,
        G,
        WkpLagGen,
        DEBUG,
        TRD_UPDATES_OB,
        OB_SUBSCRIPTION,
        true,
        WAKEUP_SUBSCRIPTION,
    >)
        requires
            self.wf(),
        ensures
            r.wf(),
            r.engine@ == (EngineView { record_trades: true, ..self.engine@ }),
            r.event_queue == self.event_queue,
            r.get_next_open_dt == self.get_next_open_dt,
            r.get_next_close_dt == self.get_next_close_dt,
            r.session_close_dt == self.session_close_dt,
            r.open_probe_scheduled == self.open_probe_scheduled,
            r.has_history_events_in_queue == self.has_history_events_in_queue,
            r.ob_depth_and_interval_ns == self.ob_depth_and_interval_ns,
            r.trade_info_interval_ns == ns_gen,
            r.wakeup == self.wakeup,
            r.rng == self.rng,
            r.event_processor == self.event_processor,
            *r.trader == *old(self.trader),
    {
        let Exchange {
            event_queue,
            event_processor,
            engine,
            trader,
            get_next_open_dt,
            get_next_close_dt,
            session_close_dt,
            open_probe_scheduled,
            has_history_events_in_queue,
            rng,
            ob_depth_and_interval_ns,
            wakeup,
            ..
        } = self;
        let mut engine = engine;
        engine.record_trades = true;
        proof {
            assert(engine@ =~= (EngineView { record_trades: true, ..self.engine@ }));
            lemma_same_book_tidy(self.engine@, engine@);
        }
        Exchange {
            event_queue,
            event_processor,
            engine,
            trader,
            get_next_open_dt,
            get_next_close_dt,
            session_close_dt,
            open_probe_scheduled,
            has_history_events_in_queue,
            rng,
            ob_depth_and_interval_ns,
            trade_info_interval_ns: ns_gen,
            wakeup,
        }
    }

    /// The exchange with the trader woken up at the intervals that `ns_gen` gives.
    pub fn with_periodic_wakeup<G: NanoSecondGenerator>(self, ns_gen: G) -> (r: Exchange<
        'a,
        T,
        E,
        NO,
        NC,
        ObLagGen,
        TrdLagGen,
        G,
        DEBUG,
        TRD_UPDATES_OB,
        OB_SUBSCRIPTION,
        TRD_SUBSCRIPTION,
        true,
    >)
        requires
            self.wf(),
        ensures
            r.wf(),
            r.engine == self.engine,
            r.event_queue == self.event_queue,
            r.get_next_open_dt == self.get_next_open_dt,
            r.get_next_close_dt == self.get_next_close_dt,
            r.session_close_dt == self.session_close_dt,
            r.open_probe_scheduled == self.open_probe_scheduled,
            r.has_history_events_in_queue == self.has_history_events_in_queue,
            r.ob_depth_and_interval_ns == self.ob_depth_and_interval_ns,
            r.trade_info_interval_ns == self.trade_info_interval_ns,
            r.wakeup == ns_gen,
            r.rng == self.rng,
            r.event_processor == self.event_processor,
            *r.trader == *old(self.trader),
    {
        let Exchange {
            event_queue,
            event_processor,
            engine,
            trader,
            get_next_open_dt,
            get_next_close_dt,
            session_close_dt,
            open_probe_scheduled,
            has_history_events_in_queue,
            rng,
            ob_depth_and_interval_ns,
            trade_info_interval_ns,
            ..
        } = self;
        Exchange {
            event_queue,
            event_processor,
            engine,
            trader,
            get_next_open_dt,
            get_next_close_dt,
            session_close_dt,
            open_probe_scheduled,
            has_history_events_in_queue,
            rng,
            ob_depth_and_interval_ns,
            trade_info_interval_ns,
            wakeup: ns_gen,
        }
    }

    /// Replaces the generator that latencies and intervals are drawn from by
    /// the one that the seed gives: the same seed gives the same generator,
    /// and so the same run from here on. Nothing else changes.
    pub fn seed_rng(&mut self, seed: u64)
        ensures
            final(self).rng == seeded_generator(seed),
            final(self).engine == old(self).engine,
            final(self).event_queue == old(self).event_queue,
            final(self).same_hours(old(self)),
            final(self).session_close_dt == old(self).session_close_dt,
            final(self).open_probe_scheduled == old(self).open_probe_scheduled,
            final(self).has_history_events_in_queue == old(self).has_history_events_in_queue,
            final(self).ob_depth_and_interval_ns == old(self).ob_depth_and_interval_ns,
            final(self).trade_info_interval_ns == old(self).trade_info_interval_ns,
            final(self).wakeup == old(self).wakeup,
            final(self).event_processor == old(self).event_processor,
            *final(self).trader == *old(self).trader,
    {
        self.rng = seeded_rng(seed)
    }
}

} // verus!
