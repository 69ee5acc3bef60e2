use exchange_backtester::exchange::types::{Event, EventBody, EventQueue, SimulationError};
use exchange_backtester::history::types::{HistoryEvent, HistoryEventBody};
use exchange_backtester::message::{
    ExchangeReply, SubscriptionSchedule, SubscriptionUpdate, TraderRequest,
};
use exchange_backtester::trader::examples::VoidTrader;
use exchange_backtester::types::{DateTime, Direction, OrderID, Size};
use rand::rngs::StdRng;
use rand::SeedableRng;

fn event(at: i64, body: EventBody) -> Event {
    Event { datetime: DateTime(at), body }
}

fn drain(queue: &mut EventQueue) -> Vec<Event> {
    let mut events = Vec::new();
    while let Some(event) = queue.pop() {
        events.push(event);
    }
    events
}

fn one_of_each_kind(at: i64) -> Vec<Event> {
    vec![
        event(at, EventBody::HistoryEvent(HistoryEventBody::TRD(Size(1), Direction::Buy))),
        event(at, EventBody::TraderRequest(TraderRequest::CancelLimitOrder(OrderID(1)))),
        event(at, EventBody::ExchangeReply(ExchangeReply::OrderAccepted(OrderID(1)), DateTime(0))),
        event(at, EventBody::SubscriptionUpdate(SubscriptionUpdate::ExchangeOpen, DateTime(0))),
        event(at, EventBody::SubscriptionSchedule(SubscriptionSchedule::OrderBook)),
        event(at, EventBody::TraderWakeUp),
        event(at, EventBody::SessionOpenProbe),
    ]
}

#[test]
fn events_leave_the_queue_in_the_order_of_their_times() {
    let mut queue = EventQueue::default();
    for at in [50, 10, 40, 10, 30, 20, 60, 0] {
        queue.push(event(at, EventBody::TraderWakeUp));
    }
    assert_eq!(queue.len(), 8);
    assert_eq!(queue.peek(), Some(DateTime(0)));
    let times: Vec<i64> = drain(&mut queue).iter().map(|event| event.datetime.0).collect();
    assert_eq!(times, vec![0, 10, 10, 20, 30, 40, 50, 60]);
    assert_eq!(queue.pop(), None);
    assert_eq!(queue.peek(), None);
}

#[test]
fn events_of_one_instant_leave_by_kind() {
    let mut queue = EventQueue::default();
    let mut backwards = one_of_each_kind(5);
    backwards.reverse();
    for event in backwards {
        queue.push(event);
    }
    assert_eq!(drain(&mut queue), one_of_each_kind(5));
    let ranks: Vec<u8> = one_of_each_kind(5).iter().map(|event| event.body.rank()).collect();
    assert_eq!(ranks, vec![0, 1, 2, 3, 4, 5, 6]);
    assert_eq!(EventBody::SessionCloseProbe.rank(), 6);
}

#[test]
fn tape_event_goes_before_a_reply_of_the_same_instant() {
    let mut queue = EventQueue::default();
    let reply = event(
        7,
        EventBody::ExchangeReply(ExchangeReply::OrderAccepted(OrderID(1)), DateTime(7)),
    );
    let tape = event(7, EventBody::HistoryEvent(HistoryEventBody::TRD(Size(1), Direction::Buy)));
    queue.push(reply.clone());
    queue.push(tape.clone());
    assert_eq!(drain(&mut queue), vec![tape, reply]);
}

#[test]
fn events_of_one_instant_and_kind_leave_in_the_order_in_which_they_came() {
    let mut queue = EventQueue::default();
    let request = |id| event(3, EventBody::TraderRequest(TraderRequest::CancelLimitOrder(OrderID(id))));
    queue.extend(vec![request(4), request(2), request(9), request(1)]);
    queue.push(event(2, EventBody::SessionCloseProbe));
    assert_eq!(
        drain(&mut queue),
        vec![
            event(2, EventBody::SessionCloseProbe),
            request(4),
            request(2),
            request(9),
            request(1)
        ]
    );
}

#[test]
fn tape_event_is_scheduled_for_the_time_at_which_it_was_recorded() {
    let mut queue = EventQueue::default();
    let body = HistoryEventBody::TRD(Size(8), Direction::Sell);
    queue.schedule_history_event(HistoryEvent { datetime: DateTime(77), event: body });
    assert_eq!(drain(&mut queue), vec![event(77, EventBody::HistoryEvent(body))]);
}

#[test]
fn reply_is_scheduled_after_the_latency() {
    let mut queue = EventQueue::default();
    let reply = ExchangeReply::OrderAccepted(OrderID(3));
    assert_eq!(queue.schedule_reply_after(reply, DateTime(100), 25), Ok(()));
    assert_eq!(
        drain(&mut queue),
        vec![event(125, EventBody::ExchangeReply(reply, DateTime(100)))]
    );
}

#[test]
fn reply_beyond_the_end_of_the_clock_is_refused() {
    let mut queue = EventQueue::default();
    let reply = ExchangeReply::OrderAccepted(OrderID(3));
    assert_eq!(
        queue.schedule_reply_after(reply, DateTime(i64::MAX - 5), 6),
        Err(SimulationError::TimeOverflow { at: DateTime(i64::MAX - 5), delay: 6 })
    );
    assert_eq!(queue.len(), 0);
    assert_eq!(queue.schedule_reply_after(reply, DateTime(i64::MAX - 5), 5), Ok(()));
    assert_eq!(queue.peek(), Some(DateTime(i64::MAX)));
    assert_eq!(
        queue.schedule_after(EventBody::TraderWakeUp, DateTime(1), u64::MAX),
        Err(SimulationError::TimeOverflow { at: DateTime(1), delay: u64::MAX })
    );
    assert_eq!(queue.schedule_after(EventBody::TraderWakeUp, DateTime(-1), i64::MAX as u64 + 1), Ok(()));
    assert_eq!(queue.len(), 2);
}

#[test]
fn reply_for_a_trader_without_latency_is_scheduled_for_the_same_instant() {
    let mut queue = EventQueue::default();
    let mut rng = StdRng::seed_from_u64(1);
    let reply = ExchangeReply::OrderAccepted(OrderID(3));
    assert_eq!(
        queue.schedule_reply_for_trader::<VoidTrader>(reply, DateTime(9), &mut rng),
        Ok(())
    );
    assert_eq!(drain(&mut queue), vec![event(9, EventBody::ExchangeReply(reply, DateTime(9)))]);
}

#[test]
fn later_instant_is_the_sum_where_the_clock_can_hold_it() {
    assert_eq!(DateTime(5).checked_add_ns(7), Some(DateTime(12)));
    assert_eq!(DateTime(-5).checked_add_ns(3), Some(DateTime(-2)));
    assert_eq!(DateTime(i64::MIN).checked_add_ns(u64::MAX), Some(DateTime(i64::MAX)));
    assert_eq!(DateTime(i64::MIN + 1).checked_add_ns(u64::MAX), None);
    assert_eq!(DateTime(0).checked_add_ns(i64::MAX as u64), Some(DateTime(i64::MAX)));
    assert_eq!(DateTime(0).checked_add_ns(i64::MAX as u64 + 1), None);
    assert_eq!(DateTime(i64::MAX).checked_add_ns(0), Some(DateTime(i64::MAX)));
    assert_eq!(DateTime(i64::MAX).checked_add_ns(1), None);
}
