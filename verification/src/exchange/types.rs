//! The order book's levels and entries, and the queue of scheduled events.

use std::collections::VecDeque;
use rand::rngs::StdRng;
use vstd::prelude::*;
use crate::exchange::sums::{first_index, lemma_first_index, lemma_first_index_found};
use crate::history::types::{HistoryEvent, HistoryEventBody, OrderOrigin};
use crate::message::{ExchangeReply, SubscriptionSchedule, SubscriptionUpdate, TraderRequest};
use crate::trader::Trader;
use crate::types::{DateTime, OrderID, Price, Size};

verus! {

/// One resting order.
#[derive(Debug, PartialEq, Eq, Structural, Clone, Copy)]
pub struct OrderBookEntry {
    pub order_id: OrderID,
    pub size: Size,
    pub from: OrderOrigin,
}

/// All orders resting at one price, oldest first.
#[derive(Debug)]
pub struct OrderBookLevel {
    pub price: Price,
    pub queue: Vec<OrderBookEntry>,
}

/// A level as contracts see it.
pub struct LevelView {
    pub price: Price,
    pub queue: Seq<OrderBookEntry>,
}

impl View for OrderBookLevel {
    type V = LevelView;

    open spec fn view(&self) -> LevelView {
        LevelView { price: self.price, queue: self.queue@ }
    }
}

/// Why a run cannot go on.
#[derive(Debug, PartialEq, Eq, Structural, Clone, Copy)]
pub enum SimulationError {
    /// Something would have to be scheduled `delay` nanoseconds after `at`,
    /// which is beyond the last instant that the clock can hold.
    TimeOverflow { at: DateTime, delay: u64 },
    /// At the simulated time `at` the tape yielded an event recorded at the earlier time `event`.
    HistoryOutOfOrder { at: DateTime, event: DateTime },
    /// The tape has no event to start with.
    NoHistoryEvents,
    /// The run has handled as many events as it was to handle, and more are
    /// scheduled; it stopped at the simulated time `at`.
    EventLimit { at: DateTime },
}

/// What happens at a scheduled instant.
#[derive(Debug, PartialEq, Eq, Clone)]
pub enum EventBody {
    /// The tape has an event.
    HistoryEvent(HistoryEventBody),
    /// A request of the trader reaches the exchange.
    TraderRequest(TraderRequest),
    /// A reply that the exchange gave at the given time reaches the trader.
    ExchangeReply(ExchangeReply, DateTime),
    /// What a subscription delivered at the given time reaches the trader.
    SubscriptionUpdate(SubscriptionUpdate, DateTime),
    /// A subscription is due to deliver.
    SubscriptionSchedule(SubscriptionSchedule),
    /// The trader is due to be woken up.
    TraderWakeUp,
    /// The venue is due to open.
    SessionOpenProbe,
    /// The venue is due to close.
    SessionCloseProbe,
}

/// Something that happens at an instant of simulated time.
#[derive(Debug, PartialEq, Eq, Clone)]
pub struct Event {
    pub datetime: DateTime,
    pub body: EventBody,
}

/// The events that are still to happen, the next one first.
pub struct EventQueue(pub VecDeque<Event>);

impl EventBody {
    /// The place of a kind of event among the kinds that fall on one instant:
    /// the tape first, then requests of the trader, replies to the trader,
    /// deliveries of subscriptions, their schedules, wake-ups, and last the
    /// opening and the closing of the venue.
    pub open spec fn spec_rank(self) -> int {
        match self {
            EventBody::HistoryEvent(_) => 0,
            EventBody::TraderRequest(_) => 1,
            EventBody::ExchangeReply(_, _) => 2,
            EventBody::SubscriptionUpdate(_, _) => 3,
            EventBody::SubscriptionSchedule(_) => 4,
            EventBody::TraderWakeUp => 5,
            EventBody::SessionOpenProbe => 6,
            EventBody::SessionCloseProbe => 6,
        }
    }

    /// The place of a kind of event among the kinds that fall on one instant.
    pub fn rank(&self) -> (r: u8)
        ensures
            r == self.spec_rank(),
    {
        match self {
            EventBody::HistoryEvent(_) => 0,
            EventBody::TraderRequest(_) => 1,
            EventBody::ExchangeReply(_, _) => 2,
            EventBody::SubscriptionUpdate(_, _) => 3,
            EventBody::SubscriptionSchedule(_) => 4,
            EventBody::TraderWakeUp => 5,
            EventBody::SessionOpenProbe => 6,
            EventBody::SessionCloseProbe => 6,
        }
    }
}

/// Whether `first` must happen before `second`: it is scheduled earlier, or
/// at the same instant and of a kind that goes first.
pub open spec fn goes_before(first: Event, second: Event) -> bool {
    first.datetime.0 < second.datetime.0 || (first.datetime.0 == second.datetime.0
        && first.body.spec_rank() < second.body.spec_rank())
}

/// The events that `event` must happen before, as a predicate.
pub open spec fn after(event: Event) -> spec_fn(Event) -> bool {
    |queued: Event| goes_before(event, queued)
}

/// The queue with one more event: in front of the first event that it must
/// happen before, and so behind every event of its instant and kind that was
/// scheduled earlier.
pub open spec fn enqueue(queue: Seq<Event>, event: Event) -> Seq<Event> {
    queue.insert(first_index(queue, after(event)), event)
}

/// The queue with more events, scheduled one after the other.
pub open spec fn enqueue_all(queue: Seq<Event>, events: Seq<Event>) -> Seq<Event>
    decreases events.len(),
{
    if events.len() == 0 {
        queue
    } else {
        enqueue(enqueue_all(queue, events.drop_last()), events.last())
    }
}

/// Whether an error says that something was to be scheduled after `now`
/// with a delay that leads beyond the last instant that the clock can hold.
pub open spec fn overflows(error: SimulationError, now: DateTime) -> bool {
    error matches SimulationError::TimeOverflow { at, delay } && at == now && at.spec_after(delay)
        is None
}

/// Whether an error says that at the instant `now` the tape yielded an event
/// that was recorded before `now`.
pub open spec fn tape_out_of_order(error: SimulationError, now: DateTime) -> bool {
    error matches SimulationError::HistoryOutOfOrder { at, event } && at == now && event.0 < at.0
}

/// What scheduling something for `delay` nanoseconds after `now` makes of a
/// queue: the event is scheduled for that instant; where the clock cannot
/// hold that instant, the queue stays as it is and the run cannot go on.
pub open spec fn scheduled_after(
    before: Seq<Event>,
    after: Seq<Event>,
    outcome: Result<(), SimulationError>,
    body: EventBody,
    now: DateTime,
    delay: u64,
) -> bool {
    match now.spec_after(delay) {
        Some(datetime) => outcome is Ok && after == enqueue(before, Event { datetime, body }),
        None => outcome == Err::<(), SimulationError>(
            SimulationError::TimeOverflow { at: now, delay },
        ) && after == before,
    }
}

/// What scheduling the delivery of a reply after a latency makes of a queue.
pub open spec fn reply_scheduled(
    before: Seq<Event>,
    after: Seq<Event>,
    outcome: Result<(), SimulationError>,
    reply: ExchangeReply,
    exchange_dt: DateTime,
    latency: u64,
) -> bool {
    scheduled_after(
        before,
        after,
        outcome,
        EventBody::ExchangeReply(reply, exchange_dt),
        exchange_dt,
        latency,
    )
}

/// Whether no event of the queue must happen before one that stands in front of it.
pub open spec fn in_order(queue: Seq<Event>) -> bool {
    forall|i: int, j: int|
        0 <= i < j < queue.len() ==> !goes_before(#[trigger] queue[j], #[trigger] queue[i])
}

/// Whether no event of the queue is scheduled before the given instant.
pub open spec fn none_before(queue: Seq<Event>, instant: DateTime) -> bool {
    forall|i: int| 0 <= i < queue.len() ==> (#[trigger] queue[i]).datetime.0 >= instant.0
}

/// Whether the queue `after` is the queue `before` with more events scheduled,
/// none of them for a time before the given instant.
pub open spec fn grown_since(before: Seq<Event>, after: Seq<Event>, instant: DateTime) -> bool {
    exists|added: Seq<Event>|
        #[trigger] enqueue_all(before, added) == after && none_before(added, instant)
}

/// The deliveries of replies that the exchange gave at `exchange_dt`, each
/// after its own latency.
pub open spec fn deliveries(
    replies: Seq<ExchangeReply>,
    exchange_dt: DateTime,
    latencies: Seq<u64>,
) -> Seq<Event> {
    Seq::new(
        replies.len(),
        |i: int|
            Event {
                datetime: DateTime((exchange_dt.0 + latencies[i]) as i64),
                body: EventBody::ExchangeReply(replies[i], exchange_dt),
            },
    )
}

/// Whether the clock can hold the instant of every delivery.
pub open spec fn deliverable(exchange_dt: DateTime, latencies: Seq<u64>) -> bool {
    forall|i: int| 0 <= i < latencies.len() ==> exchange_dt.0 + #[trigger] latencies[i] <= i64::MAX
}

/// A queue has grown from itself.
pub proof fn lemma_grown_at_once(queue: Seq<Event>, instant: DateTime)
    ensures
        grown_since(queue, queue, instant),
{
    assert(enqueue_all(queue, Seq::<Event>::empty()) == queue);
}

/// A queue that has grown goes on growing with one more event.
pub proof fn lemma_grown_by_one(before: Seq<Event>, after: Seq<Event>, event: Event, instant: DateTime)
    requires
        grown_since(before, after, instant),
        event.datetime.0 >= instant.0,
    ensures
        grown_since(before, enqueue(after, event), instant),
{
    let added = choose|added: Seq<Event>|
        #[trigger] enqueue_all(before, added) == after && none_before(added, instant);
    let more = added.push(event);
    assert(more.drop_last() =~= added);
    assert(enqueue_all(before, more) == enqueue(after, event));
}

/// Scheduling events in two runs is scheduling them in one.
pub proof fn lemma_enqueue_all_joined(queue: Seq<Event>, first: Seq<Event>, second: Seq<Event>)
    ensures
        enqueue_all(enqueue_all(queue, first), second) == enqueue_all(queue, first + second),
    decreases second.len(),
{
    if second.len() == 0 {
        assert(first + second =~= first);
    } else {
        lemma_enqueue_all_joined(queue, first, second.drop_last());
        assert((first + second).drop_last() =~= first + second.drop_last());
        assert((first + second).last() == second.last());
    }
}

/// Growth goes on: a queue that has grown from one that has grown has grown from the first.
pub proof fn lemma_grown_further(
    before: Seq<Event>,
    between: Seq<Event>,
    after: Seq<Event>,
    instant: DateTime,
)
    requires
        grown_since(before, between, instant),
        grown_since(between, after, instant),
    ensures
        grown_since(before, after, instant),
{
    let first = choose|added: Seq<Event>|
        #[trigger] enqueue_all(before, added) == between && none_before(added, instant);
    let second = choose|added: Seq<Event>|
        #[trigger] enqueue_all(between, added) == after && none_before(added, instant);
    lemma_enqueue_all_joined(before, first, second);
    assert(enqueue_all(before, first + second) == after);
}

/// Scheduling events, none for a time before an instant, keeps a queue in
/// order and leaves no event before that instant.
pub proof fn lemma_enqueue_all_in_order(queue: Seq<Event>, added: Seq<Event>, instant: DateTime)
    requires
        in_order(queue),
        none_before(queue, instant),
        none_before(added, instant),
    ensures
        in_order(enqueue_all(queue, added)),
        none_before(enqueue_all(queue, added), instant),
    decreases added.len(),
{
    if added.len() > 0 {
        assert forall|i: int| 0 <= i < added.drop_last().len() implies (
        #[trigger] added.drop_last()[i]).datetime.0 >= instant.0 by {
            assert(added.drop_last()[i] == added[i]);
        }
        lemma_enqueue_all_in_order(queue, added.drop_last(), instant);
        lemma_enqueue_in_order(enqueue_all(queue, added.drop_last()), added.last());
        assert(added.last() == added[added.len() - 1]);
        lemma_enqueue_none_before(
            enqueue_all(queue, added.drop_last()),
            added.last(),
            instant,
        );
    }
}

/// A queue that has grown since an instant is in order, with no event
/// before that instant, if it was so before.
pub proof fn lemma_grown_in_order(before: Seq<Event>, after: Seq<Event>, instant: DateTime)
    requires
        in_order(before),
        none_before(before, instant),
        grown_since(before, after, instant),
    ensures
        in_order(after),
        none_before(after, instant),
{
    let added = choose|added: Seq<Event>|
        #[trigger] enqueue_all(before, added) == after && none_before(added, instant);
    lemma_enqueue_all_in_order(before, added, instant);
}

/// The clock never runs back: when the events that were scheduled while an
/// event was handled are all for the time of that event or later, the next
/// event to leave the queue is for no earlier time.
pub proof fn law_clock_never_runs_back(before: Seq<Event>, after: Seq<Event>, now: DateTime)
    requires
        in_order(before),
        none_before(before, now),
        grown_since(before, after, now),
        after.len() > 0,
    ensures
        after[0].datetime.0 >= now.0,
        in_order(after),
{
    lemma_grown_in_order(before, after, now);
}

/// Scheduling an event keeps the queue in order.
pub proof fn lemma_enqueue_in_order(queue: Seq<Event>, event: Event)
    requires
        in_order(queue),
    ensures
        in_order(enqueue(queue, event)),
{
    let at = first_index(queue, after(event));
    let grown = enqueue(queue, event);
    lemma_first_index_found(queue, after(event));
    assert forall|i: int, j: int| 0 <= i < j < grown.len() implies !goes_before(
        #[trigger] grown[j],
        #[trigger] grown[i],
    ) by {
        if j == at {
            assert(grown[i] == queue[i]);
            assert(!after(event)(queue[i]));
        } else if i == at {
            assert(grown[j] == queue[j - 1]);
            assert(after(event)(queue[at]));
            if j - 1 > at {
                assert(!goes_before(queue[j - 1], queue[at]));
            }
        } else {
            let i0 = if i < at {
                i
            } else {
                i - 1
            };
            let j0 = if j < at {
                j
            } else {
                j - 1
            };
            assert(grown[i] == queue[i0]);
            assert(grown[j] == queue[j0]);
        }
    }
}

/// Scheduling an event at or after an instant leaves no event before that instant.
pub proof fn lemma_enqueue_none_before(queue: Seq<Event>, event: Event, instant: DateTime)
    requires
        none_before(queue, instant),
        event.datetime.0 >= instant.0,
    ensures
        none_before(enqueue(queue, event), instant),
{
    let at = first_index(queue, after(event));
    let grown = enqueue(queue, event);
    lemma_first_index_found(queue, after(event));
    assert forall|i: int| 0 <= i < grown.len() implies (#[trigger] grown[i]).datetime.0
        >= instant.0 by {
        if i < at {
            assert(grown[i] == queue[i]);
        } else if i > at {
            assert(grown[i] == queue[i - 1]);
        }
    }
}

/// Events leave a queue that is in order in the order of their times: the
/// event at the head is scheduled no later than any other, and what is left
/// when it has gone is in order again.
pub proof fn law_events_leave_in_time_order(queue: Seq<Event>)
    requires
        in_order(queue),
        queue.len() > 0,
    ensures
        none_before(queue.drop_first(), queue[0].datetime),
        in_order(queue.drop_first()),
        queue.len() > 1 ==> queue[0].datetime.0 <= queue[1].datetime.0,
{
    let rest = queue.drop_first();
    assert forall|i: int| 0 <= i < rest.len() implies (#[trigger] rest[i]).datetime.0
        >= queue[0].datetime.0 by {
        assert(rest[i] == queue[i + 1]);
        assert(!goes_before(queue[i + 1], queue[0]));
    }
    assert forall|i: int, j: int| 0 <= i < j < rest.len() implies !goes_before(
        #[trigger] rest[j],
        #[trigger] rest[i],
    ) by {
        assert(rest[i] == queue[i + 1]);
        assert(rest[j] == queue[j + 1]);
    }
    if queue.len() > 1 {
        assert(!goes_before(queue[1], queue[0]));
    }
}

impl View for EventQueue {
    type V = Seq<Event>;

    open spec fn view(&self) -> Seq<Event> {
        self.0@
    }
}

impl Default for EventQueue {
    fn default() -> (r: EventQueue)
        ensures
            r@ == Seq::<Event>::empty(),
    {
        EventQueue(VecDeque::new())
    }
}

impl EventQueue {
    /// The number of events that are still to happen.
    pub fn len(&self) -> (r: usize)
        ensures
            r == self@.len(),
    {
        self.0.len()
    }

    /// The instant of the next event; `None` where nothing is left to happen.
    pub fn peek(&self) -> (r: Option<DateTime>)
        ensures
            r == if self@.len() > 0 {
                Some(self@[0].datetime)
            } else {
                None
            },
    {
        if self.0.len() > 0 {
            Some(self.0[0].datetime)
        } else {
            None
        }
    }

    /// Schedules an event.
    pub fn push(&mut self, item: Event)
        ensures
            final(self)@ == enqueue(old(self)@, item),
    {
        let ghost later = after(item);
        let rank = item.body.rank();
        let mut at: usize = 0;
        while at < self.0.len() && !(item.datetime.0 < self.0[at].datetime.0 || (item.datetime.0
            == self.0[at].datetime.0 && rank < self.0[at].body.rank()))
            invariant
                at <= self.0.len(),
                self@ == old(self)@,
                later == after(item),
                rank == item.body.spec_rank(),
                forall|i: int| 0 <= i < at ==> !later(#[trigger] self@[i]),
            decreases self.0.len() - at,
        {
            at = at + 1;
        }
        proof {
            if at < self@.len() {
                assert(later(self@[at as int]));
            }
            lemma_first_index(self@, later, at as int);
        }
        self.0.insert(at, item);
    }

    /// Takes the next event out of the queue.
    pub fn pop(&mut self) -> (r: Option<Event>)
        ensures
            match r {
                Some(event) => old(self)@.len() > 0 && event == old(self)@[0] && final(self)@ == old(
                    self,
                )@.drop_first(),
                None => old(self)@.len() == 0 && final(self)@ == old(self)@,
            },
    {
        let next = self.0.pop_front();
        proof {
            if old(self)@.len() > 0 {
                assert(old(self)@.subrange(1, old(self)@.len() as int) =~= old(self)@.drop_first());
            }
        }
        next
    }

    /// Schedules events, one after the other.
    pub fn extend(&mut self, events: Vec<Event>)
        ensures
            final(self)@ == enqueue_all(old(self)@, events@),
    {
        let mut rest = events;
        let ghost done: int = 0;
        proof {
            assert(events@.take(0) =~= Seq::<Event>::empty());
        }
        while rest.len() > 0
            invariant
                0 <= done <= events@.len(),
                rest@ == events@.skip(done),
                self@ == enqueue_all(old(self)@, events@.take(done)),
            decreases rest.len(),
        {
            let event = rest.remove(0);
            proof {
                assert(events@.take(done + 1).drop_last() =~= events@.take(done));
                assert(events@.take(done + 1).last() == event);
                assert(rest@ =~= events@.skip(done + 1));
                done = done + 1;
            }
            self.push(event);
        }
        proof {
            assert(events@.take(done) =~= events@);
        }
    }

    /// Schedules an event of the tape for the instant at which it was recorded.
    pub fn schedule_history_event(&mut self, event: HistoryEvent)
        ensures
            final(self)@ == enqueue(
                old(self)@,
                Event { datetime: event.datetime, body: EventBody::HistoryEvent(event.event) },
            ),
    {
        self.push(Event { datetime: event.datetime, body: EventBody::HistoryEvent(event.event) })
    }

    /// Schedules something for `delay` nanoseconds after `now`. Where the
    /// clock cannot hold that instant, nothing is scheduled.
    pub fn schedule_after(&mut self, body: EventBody, now: DateTime, delay: u64) -> (r: Result<
        (),
        SimulationError,
    >)
        ensures
            scheduled_after(old(self)@, final(self)@, r, body, now, delay),
    {
        match now.checked_add_ns(delay) {
            Some(datetime) => {
                self.push(Event { datetime, body });
                Ok(())
            },
            None => Err(SimulationError::TimeOverflow { at: now, delay }),
        }
    }

    /// Schedules the delivery of a reply that the exchange gave at
    /// `exchange_dt`, for `latency` nanoseconds later. Where the clock cannot
    /// hold that instant, nothing is scheduled.
    pub fn schedule_reply_after(
        &mut self,
        reply: ExchangeReply,
        exchange_dt: DateTime,
        latency: u64,
    ) -> (r: Result<(), SimulationError>)
        ensures
            reply_scheduled(old(self)@, final(self)@, r, reply, exchange_dt, latency),
    {
        self.schedule_after(EventBody::ExchangeReply(reply, exchange_dt), exchange_dt, latency)
    }

    /// Schedules the delivery of a reply that the exchange gave at
    /// `exchange_dt`, after the latency that the trader's connection has at
    /// that time. The latency is the trader's to say: whatever it is, the
    /// reply is scheduled that much later, or nothing is where the clock
    /// cannot hold that instant.
    pub fn schedule_reply_for_trader<T: Trader>(
        &mut self,
        reply: ExchangeReply,
        exchange_dt: DateTime,
        rng: &mut StdRng,
    ) -> (r: Result<(), SimulationError>)
        ensures
            exists|latency: u64|
                #[trigger] reply_scheduled(
                    old(self)@,
                    final(self)@,
                    r,
                    reply,
                    exchange_dt,
                    latency,
                ),
    {
        let latency = T::exchange_to_trader_latency(rng, exchange_dt);
        self.schedule_reply_after(reply, exchange_dt, latency)
    }
}

} // verus!
