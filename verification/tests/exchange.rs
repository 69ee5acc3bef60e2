use exchange_backtester::exchange::interface::public::{ExchangeBuilder, VoidNanoSecGen};
use exchange_backtester::exchange::matching::{Diagnostic, DiagnosticKind};
use exchange_backtester::exchange::trades::history::OrderBookDiff;
use exchange_backtester::exchange::types::{Event, EventBody, SimulationError};
use exchange_backtester::exchange::{decide_session, end_of_session, GuardAction};
use exchange_backtester::history::parser::interface::EventProcessor;
use exchange_backtester::history::parser::{HistoryParser, ObDiffRow, TradeRow};
use exchange_backtester::history::reader::{read_ob_diffs, read_trades};
use exchange_backtester::history::text::Decimal;
use exchange_backtester::history::types::{ColumnNames, HistoryEvent, HistoryEventBody};
use exchange_backtester::lags::constant::{
    ConstNanoSecondGenerator, ONE_DAY, ONE_HOUR, ONE_MICROSECOND, ONE_MILLISECOND, ONE_MINUTE,
    ONE_SECOND,
};
use exchange_backtester::lags::interface::NanoSecondGenerator;
use exchange_backtester::message::{
    CancellationReason, DiscardingReason, ExchangeReply, SubscriptionSchedule, TraderRequest,
};
use exchange_backtester::order::{LimitOrder, MarketOrder};
use exchange_backtester::trader::examples::VoidTrader;
use exchange_backtester::trader::subscriptions::{HandleSubscriptionUpdates, OrderBookSnapshot};
use exchange_backtester::trader::Trader;
use exchange_backtester::types::{DateTime, Direction, NanoSeconds, OrderID, Price, Size};
use rand::rngs::StdRng;
use rand::{RngCore, SeedableRng};

/// A trader that follows a script of requests, one batch for each wake-up
/// time, and writes down everything that it is told. Messages from the
/// exchange take `E2T` nanoseconds, requests to it `T2E`.
#[derive(Default)]
struct Scripted<const E2T: u64, const T2E: u64> {
    script: Vec<(i64, Vec<TraderRequest>)>,
    replies: Vec<(i64, i64, ExchangeReply)>,
    snapshots: Vec<(i64, i64, OrderBookSnapshot)>,
    trades: Vec<(i64, i64, Vec<OrderBookDiff>)>,
    wakeups: Vec<i64>,
    opened: Vec<(i64, i64)>,
    closed: Vec<(i64, i64)>,
}

impl<const E2T: u64, const T2E: u64> Scripted<E2T, T2E> {
    fn with(script: Vec<(i64, Vec<TraderRequest>)>) -> Self {
        Scripted { script, ..Default::default() }
    }
}

impl<const E2T: u64, const T2E: u64> HandleSubscriptionUpdates for Scripted<E2T, T2E> {
    fn handle_order_book_snapshot(
        &mut self,
        exchange_dt: DateTime,
        deliver_dt: DateTime,
        ob_snapshot: OrderBookSnapshot,
    ) -> Vec<TraderRequest> {
        self.snapshots.push((exchange_dt.0, deliver_dt.0, ob_snapshot));
        vec![]
    }

    fn handle_trade_info_update(
        &mut self,
        exchange_dt: DateTime,
        deliver_dt: DateTime,
        trade_info: Vec<OrderBookDiff>,
    ) -> Vec<TraderRequest> {
        self.trades.push((exchange_dt.0, deliver_dt.0, trade_info));
        vec![]
    }

    fn handle_wakeup(&mut self, dt: DateTime) -> Vec<TraderRequest> {
        self.wakeups.push(dt.0);
        self.script
            .iter()
            .filter(|(at, _)| *at == dt.0)
            .flat_map(|(_, requests)| requests.iter().copied())
            .collect()
    }
}

impl<const E2T: u64, const T2E: u64> Trader for Scripted<E2T, T2E> {
    fn exchange_to_trader_latency(_: &mut StdRng, _: DateTime) -> u64 {
        E2T
    }

    fn trader_to_exchange_latency(_: &mut StdRng, _: DateTime) -> u64 {
        T2E
    }

    fn handle_exchange_reply(
        &mut self,
        exchange_dt: DateTime,
        deliver_dt: DateTime,
        reply: ExchangeReply,
    ) -> Vec<TraderRequest> {
        self.replies.push((exchange_dt.0, deliver_dt.0, reply));
        vec![]
    }

    fn exchange_open(&mut self, exchange_dt: DateTime, deliver_dt: DateTime) {
        self.opened.push((exchange_dt.0, deliver_dt.0));
    }

    fn exchange_closed(&mut self, exchange_dt: DateTime, deliver_dt: DateTime) {
        self.closed.push((exchange_dt.0, deliver_dt.0));
    }
}

/// A trader whose connection has a latency drawn from the generator.
#[derive(Default)]
struct Jittery {
    replies: Vec<(i64, i64, ExchangeReply)>,
}

impl HandleSubscriptionUpdates for Jittery {
    fn handle_order_book_snapshot(
        &mut self,
        _: DateTime,
        _: DateTime,
        _: OrderBookSnapshot,
    ) -> Vec<TraderRequest> {
        vec![]
    }

    fn handle_trade_info_update(
        &mut self,
        _: DateTime,
        _: DateTime,
        _: Vec<OrderBookDiff>,
    ) -> Vec<TraderRequest> {
        vec![]
    }

    fn handle_wakeup(&mut self, dt: DateTime) -> Vec<TraderRequest> {
        vec![TraderRequest::CancelLimitOrder(OrderID(dt.0 as u64))]
    }
}

impl Trader for Jittery {
    fn exchange_to_trader_latency(rng: &mut StdRng, _: DateTime) -> u64 {
        rng.next_u64() % 1000
    }

    fn trader_to_exchange_latency(_: &mut StdRng, _: DateTime) -> u64 {
        0
    }

    fn handle_exchange_reply(
        &mut self,
        exchange_dt: DateTime,
        deliver_dt: DateTime,
        reply: ExchangeReply,
    ) -> Vec<TraderRequest> {
        self.replies.push((exchange_dt.0, deliver_dt.0, reply));
        vec![]
    }

    fn exchange_open(&mut self, _: DateTime, _: DateTime) {}

    fn exchange_closed(&mut self, _: DateTime, _: DateTime) {}
}

/// A tape that yields what it is given, in the order in which it is given.
struct Tape(std::collections::VecDeque<HistoryEvent>);

impl EventProcessor for Tape {
    fn yield_next_event(&mut self) -> Option<HistoryEvent> {
        self.0.pop_front()
    }
}

fn tape(events: Vec<(i64, HistoryEventBody)>) -> Tape {
    Tape(events.into_iter().map(|(at, event)| HistoryEvent { datetime: DateTime(at), event }).collect())
}

fn prl(size: u64, direction: Direction, price: i64, id: u64) -> HistoryEventBody {
    HistoryEventBody::PRL(Size(size), direction, Price(price), OrderID(id))
}

fn every(ns: u64) -> ConstNanoSecondGenerator {
    ConstNanoSecondGenerator::new(ns).unwrap()
}

/// Bids 100x5 and 99x2, asks 101x3, written at the times 1, 2 and 3.
fn book() -> Vec<(i64, HistoryEventBody)> {
    vec![
        (1, prl(5, Direction::Buy, 100, 1)),
        (2, prl(2, Direction::Buy, 99, 2)),
        (3, prl(3, Direction::Sell, 101, 3)),
    ]
}

fn levels(snapshot: &[(Price, Size)]) -> Vec<(i64, u64)> {
    snapshot.iter().map(|(price, size)| (price.0, size.0)).collect()
}

#[test]
fn test_01() {
    let at = |h: u32, m: u32, s: u32| {
        chrono::NaiveDate::from_ymd_opt(2019, 3, 4)
            .unwrap()
            .and_hms_opt(h, m, s)
            .unwrap()
            .and_utc()
            .timestamp_nanos_opt()
            .unwrap()
    };
    let names = ColumnNames {
        datetime: b"Timestamp".to_vec(),
        order_id: b"ORDER_ID".to_vec(),
        price: b"ORDER_PRICE".to_vec(),
        size: b"ORDER_SIZE".to_vec(),
        bs_flag: b"BUY_SELL_FLAG".to_vec(),
    };
    let format = b"%Y-%m-%d %H:%M:%S%.f";
    let changes = "Timestamp,ORDER_ID,ORDER_PRICE,ORDER_SIZE,BUY_SELL_FLAG\n\
                   2019-03-04 12:10:00.000,1,73.3200,5,B\n\
                   2019-03-04 12:10:30.500,2,73.3250,3,S\n\
                   2019-03-04 12:11:05.000,2,73.3250,1,S\n\
                   2019-03-04 12:11:30.000,1,73.3200,0,B\n";
    let deals = "Timestamp,ORDER_ID,ORDER_SIZE,BUY_SELL_FLAG\n\
                 2019-03-04 12:11:05.000,1,2,B\n";
    let tick = Decimal { negative: false, digits: 25, scale: 4 };
    let ob_diffs = read_ob_diffs(changes.as_bytes(), b',', &names, tick, format).unwrap();
    let trades = read_trades(deals.as_bytes(), b',', &names, format).unwrap();
    let history_parser = HistoryParser::new(ob_diffs, trades).unwrap();
    let mut trader = VoidTrader;
    let close = DateTime(at(12, 11, 12));

    let exchange = ExchangeBuilder::new_debug::<false>(
        history_parser,
        &mut trader,
        |datetime: DateTime| datetime,
        move |_: DateTime| close,
    )
    .unwrap();
    let mut exchange = exchange
        .ob_level_subscription_depth(every(ONE_SECOND), 10)
        .trade_info_subscription(every(ONE_SECOND))
        .with_periodic_wakeup(every(ONE_MINUTE));

    assert_eq!(exchange.run_trades(), Ok(()));
    assert_eq!(exchange.event_queue.len(), 0);
    assert!(exchange.engine.exchange_closed);
    assert_eq!(exchange.engine.current_dt, DateTime(at(12, 11, 30)));
    assert!(exchange.engine.bids.is_empty() && exchange.engine.asks.is_empty());
}

#[test]
fn market_buy_at_ten_nanoseconds_is_accepted_partly_executed_and_left_waiting() {
    let buy = TraderRequest::PlaceMarketOrder(MarketOrder::new(OrderID(7), Size(4), Direction::Buy));
    let mut trader = Scripted::<0, 0>::with(vec![(10, vec![buy])]);
    let mut exchange = ExchangeBuilder::new::<false>(
        tape(book()),
        &mut trader,
        |_: DateTime| DateTime(0),
        |_: DateTime| DateTime(15),
    )
    .unwrap()
    .with_periodic_wakeup(every(9));
    assert_eq!(exchange.run_trades(), Ok(()));
    assert_eq!(
        trader.replies,
        vec![
            (10, 10, ExchangeReply::OrderAccepted(OrderID(7))),
            (10, 10, ExchangeReply::OrderPartiallyExecuted(OrderID(7), Size(3), Price(101))),
            (15, 15, ExchangeReply::OrderCancelled(OrderID(7), CancellationReason::ExchangeClosed)),
        ]
    );
    assert_eq!(trader.wakeups, vec![10]);
    assert_eq!(trader.opened, vec![(1, 1)]);
    assert_eq!(trader.closed, vec![(15, 15)]);
}

#[test]
fn book_after_a_market_buy_has_no_asks_and_the_order_waits() {
    let buy = TraderRequest::PlaceMarketOrder(MarketOrder::new(OrderID(7), Size(4), Direction::Buy));
    let mut trader = Scripted::<0, 0>::with(vec![(10, vec![buy])]);
    let mut exchange = ExchangeBuilder::new::<false>(
        tape(book()),
        &mut trader,
        |_: DateTime| DateTime(0),
        |_: DateTime| DateTime(15),
    )
    .unwrap()
    .ob_level_subscription_full(every(10))
    .with_periodic_wakeup(every(9));
    // Stop before the closing: handle the events up to the time 11 one by one.
    while exchange.event_queue.peek().map_or(false, |at| at.0 <= 11) {
        let event = exchange.event_queue.pop().unwrap();
        assert_eq!(exchange.process_next_event(event), Ok(()));
    }
    assert_eq!(
        exchange.engine.trader_pending_market_orders,
        vec![MarketOrder::new(OrderID(7), Size(1), Direction::Buy)]
    );
    assert!(exchange.engine.asks.is_empty());
    assert!(exchange.is_now_trading_time());
    assert_eq!(exchange.run_trades(), Ok(()));
    assert_eq!(trader.snapshots.len(), 1);
    let (taken, delivered, snapshot) = &trader.snapshots[0];
    assert_eq!((*taken, *delivered), (11, 11));
    assert_eq!(levels(&snapshot.bids), vec![(100, 5), (99, 2)]);
    assert_eq!(levels(&snapshot.asks), vec![]);
}

#[test]
fn trade_information_covers_the_window_since_the_last_delivery() {
    let open = 1_000;
    let ms = ONE_MILLISECOND as i64;
    let sell = |id, size| {
        TraderRequest::PlaceMarketOrder(MarketOrder::new(OrderID(id), Size(size), Direction::Sell))
    };
    let mut trader = Scripted::<250, 0>::with(vec![
        (open + 400_000, vec![sell(1, 2)]),
        (open + 800_000, vec![sell(2, 1)]),
        (open + 1_200_000, vec![sell(3, 1)]),
    ]);
    let mut exchange = ExchangeBuilder::new::<false>(
        tape(vec![(open, prl(50, Direction::Buy, 100, 1))]),
        &mut trader,
        |_: DateTime| DateTime(0),
        move |_: DateTime| DateTime(open + 2 * ms + 1),
    )
    .unwrap()
    .trade_info_subscription(every(ONE_MILLISECOND))
    .with_periodic_wakeup(every(400_000));
    assert_eq!(exchange.run_trades(), Ok(()));
    let trade = |at, size| OrderBookDiff {
        datetime: DateTime(at),
        price: Price(100),
        size: Size(size),
        direction: Direction::Sell,
    };
    assert_eq!(
        trader.trades,
        vec![
            (open + ms, open + ms + 250, vec![trade(open + 400_000, 2), trade(open + 800_000, 1)]),
            (open + 2 * ms, open + 2 * ms + 250, vec![trade(open + 1_200_000, 1)]),
        ]
    );
}

#[test]
fn tape_event_is_handled_before_a_reply_of_the_same_instant_is_delivered() {
    // The reply to the placement at 10 arrives at 20; so does a trade of the tape.
    let limit = TraderRequest::PlaceLimitOrder(LimitOrder::new(
        OrderID(7),
        Size(4),
        Direction::Sell,
        Price(105),
    ));
    let mut trader = Scripted::<10, 0>::with(vec![(10, vec![limit])]);
    let mut events = book();
    events.push((20, HistoryEventBody::TRD(Size(5), Direction::Buy)));
    let mut exchange = ExchangeBuilder::new::<false>(
        tape(events),
        &mut trader,
        |_: DateTime| DateTime(0),
        |_: DateTime| DateTime(50),
    )
    .unwrap()
    .with_periodic_wakeup(every(9));
    while exchange.event_queue.peek().map_or(false, |at| at.0 < 20) {
        let event = exchange.event_queue.pop().unwrap();
        assert_eq!(exchange.process_next_event(event), Ok(()));
    }
    let due: Vec<Event> = exchange.event_queue.0.iter().take(2).cloned().collect();
    assert_eq!(
        due,
        vec![
            Event {
                datetime: DateTime(20),
                body: EventBody::HistoryEvent(HistoryEventBody::TRD(Size(5), Direction::Buy)),
            },
            Event {
                datetime: DateTime(20),
                body: EventBody::ExchangeReply(ExchangeReply::OrderAccepted(OrderID(7)), DateTime(10)),
            },
        ]
    );
    assert_eq!(exchange.run_trades(), Ok(()));
    assert_eq!(
        trader.replies,
        vec![
            (10, 20, ExchangeReply::OrderAccepted(OrderID(7))),
            (20, 30, ExchangeReply::OrderPartiallyExecuted(OrderID(7), Size(2), Price(105))),
            (50, 60, ExchangeReply::OrderCancelled(OrderID(7), CancellationReason::ExchangeClosed)),
        ]
    );
}

#[test]
fn requests_reach_the_exchange_after_the_latency_of_the_trader() {
    let limit = TraderRequest::PlaceLimitOrder(LimitOrder::new(
        OrderID(7),
        Size(4),
        Direction::Buy,
        Price(101),
    ));
    let mut trader = Scripted::<3, 5>::with(vec![(10, vec![limit, TraderRequest::CancelLimitOrder(OrderID(7))])]);
    let mut exchange = ExchangeBuilder::new::<false>(
        tape(book()),
        &mut trader,
        |_: DateTime| DateTime(0),
        |_: DateTime| DateTime(18),
    )
    .unwrap()
    .with_periodic_wakeup(every(9));
    assert_eq!(exchange.run_trades(), Ok(()));
    assert_eq!(
        trader.replies,
        vec![
            (15, 18, ExchangeReply::OrderAccepted(OrderID(7))),
            (15, 18, ExchangeReply::OrderPartiallyExecuted(OrderID(7), Size(3), Price(101))),
            (15, 18, ExchangeReply::OrderCancelled(OrderID(7), CancellationReason::TraderRequested)),
        ]
    );
    assert_eq!(trader.opened, vec![(1, 4)]);
    assert_eq!(trader.closed, vec![(18, 21)]);
}

#[test]
fn requests_that_arrive_after_the_closing_are_discarded() {
    let limit = TraderRequest::PlaceLimitOrder(LimitOrder::new(
        OrderID(7),
        Size(0),
        Direction::Buy,
        Price(101),
    ));
    let mut trader = Scripted::<0, 20>::with(vec![(10, vec![limit])]);
    let mut exchange = ExchangeBuilder::new::<false>(
        tape(book()),
        &mut trader,
        |at: DateTime| if at.0 < 15 { DateTime(0) } else { DateTime(i64::MAX) },
        |_: DateTime| DateTime(15),
    )
    .unwrap()
    .with_periodic_wakeup(every(9));
    assert_eq!(exchange.run_trades(), Ok(()));
    assert_eq!(
        trader.replies,
        vec![(
            30,
            30,
            ExchangeReply::OrderPlacementDiscarded(OrderID(7), DiscardingReason::ExchangeClosed)
        )]
    );
}

#[test]
fn venue_opens_at_the_time_that_its_hours_give() {
    let mut trader = Scripted::<0, 0>::default();
    let events = vec![
        (10, prl(5, Direction::Buy, 100, 1)),
        (120, prl(6, Direction::Buy, 100, 2)),
        (250, prl(7, Direction::Buy, 100, 3)),
        (330, prl(8, Direction::Buy, 100, 4)),
    ];
    let mut exchange = ExchangeBuilder::new::<false>(
        tape(events),
        &mut trader,
        |at: DateTime| DateTime((at.0 + 99) / 100 * 100),
        |at: DateTime| DateTime(at.0 / 100 * 100 + 50),
    )
    .unwrap()
    .ob_level_subscription_depth(every(15), 1);
    assert_eq!(exchange.run_trades(), Ok(()));
    assert!(exchange.engine.exchange_closed);
    assert!(!exchange.has_history_events_in_queue);
    // Sessions from 100 to 150, from 200 to 250 and from 300 to 350; then the tape has ended.
    assert_eq!(trader.opened, vec![(100, 100), (200, 200), (300, 300)]);
    assert_eq!(trader.closed, vec![(150, 150), (250, 250), (350, 350)]);
    let seen: Vec<(i64, Vec<(i64, u64)>)> = trader
        .snapshots
        .iter()
        .map(|(taken, _, snapshot)| (*taken, levels(&snapshot.bids)))
        .collect();
    assert_eq!(
        seen,
        vec![
            (115, vec![]),
            (130, vec![(100, 6)]),
            (145, vec![(100, 6)]),
            (215, vec![]),
            (230, vec![]),
            (245, vec![]),
            (315, vec![]),
            (330, vec![(100, 8)]),
            (345, vec![(100, 8)]),
        ]
    );
}

#[test]
fn snapshots_show_the_best_levels_of_both_sides() {
    let mut trader = Scripted::<0, 0>::default();
    let events = vec![
        (1, prl(5, Direction::Buy, 100, 1)),
        (2, prl(2, Direction::Buy, 99, 2)),
        (3, prl(3, Direction::Sell, 101, 3)),
        (4, prl(4, Direction::Sell, 103, 4)),
        (5, prl(1, Direction::Buy, 100, 5)),
        (6, prl(9, Direction::Sell, 102, 6)),
    ];
    let mut exchange = ExchangeBuilder::new::<false>(
        tape(events),
        &mut trader,
        |_: DateTime| DateTime(0),
        |_: DateTime| DateTime(20),
    )
    .unwrap()
    .ob_level_subscription_depth(every(9), 2);
    assert_eq!(exchange.run_trades(), Ok(()));
    assert_eq!(trader.snapshots.len(), 2);
    let (taken, _, snapshot) = &trader.snapshots[0];
    assert_eq!(*taken, 10);
    assert_eq!(levels(&snapshot.bids), vec![(100, 6), (99, 2)]);
    assert_eq!(levels(&snapshot.asks), vec![(101, 3), (102, 9)]);
    assert_eq!(trader.snapshots[1].0, 19);
}

#[test]
fn tape_without_events_makes_no_exchange() {
    let mut trader = VoidTrader;
    let made = ExchangeBuilder::new::<true>(
        tape(vec![]),
        &mut trader,
        |at: DateTime| at,
        |at: DateTime| at,
    );
    assert_eq!(made.err(), Some(SimulationError::NoHistoryEvents));
    let mut trader = VoidTrader;
    let made = ExchangeBuilder::new_debug::<false>(
        tape(vec![]),
        &mut trader,
        |at: DateTime| at,
        |at: DateTime| at,
    );
    assert_eq!(made.err(), Some(SimulationError::NoHistoryEvents));
}

#[test]
fn exchange_starts_closed_with_the_first_event_of_the_tape_scheduled() {
    let mut trader = VoidTrader;
    let exchange = ExchangeBuilder::new::<true>(
        tape(book()),
        &mut trader,
        |at: DateTime| at,
        |at: DateTime| at,
    )
    .unwrap();
    assert_eq!(
        exchange.event_queue.0.iter().cloned().collect::<Vec<Event>>(),
        vec![Event {
            datetime: DateTime(1),
            body: EventBody::HistoryEvent(prl(5, Direction::Buy, 100, 1)),
        }]
    );
    assert_eq!(exchange.engine.current_dt, DateTime(1));
    assert!(exchange.engine.exchange_closed);
    assert!(exchange.has_history_events_in_queue && !exchange.open_probe_scheduled);
    assert!(exchange.engine.bids.is_empty() && exchange.engine.asks.is_empty());
    assert!(exchange.engine.trader_submitted_orders.is_empty());
    assert!(exchange.engine.trade_updates_book && !exchange.engine.debug);
    assert!(!exchange.engine.record_trades);
    assert_eq!(exchange.rng, StdRng::seed_from_u64(0));
}

#[test]
fn notes_are_made_only_by_an_exchange_that_is_built_for_them() {
    let events = || vec![(1, prl(0, Direction::Buy, 100, 1)), (2, HistoryEventBody::TRD(Size(3), Direction::Buy))];
    let mut trader = VoidTrader;
    let mut quiet = ExchangeBuilder::new::<false>(
        tape(events()),
        &mut trader,
        |_: DateTime| DateTime(0),
        |_: DateTime| DateTime(9),
    )
    .unwrap();
    assert_eq!(quiet.run_trades(), Ok(()));
    assert!(quiet.engine.diagnostics.is_empty());
    let mut trader = VoidTrader;
    let mut noting = ExchangeBuilder::new_debug::<false>(
        tape(events()),
        &mut trader,
        |_: DateTime| DateTime(0),
        |_: DateTime| DateTime(9),
    )
    .unwrap();
    assert_eq!(noting.run_trades(), Ok(()));
    assert_eq!(
        noting.engine.diagnostics,
        vec![
            Diagnostic {
                datetime: DateTime(1),
                kind: DiagnosticKind::OrderToRemoveNotFound(OrderID(1), Price(100)),
            },
            Diagnostic {
                datetime: DateTime(2),
                kind: DiagnosticKind::TradeNotFullyExecuted(Size(3)),
            },
        ]
    );
}

#[test]
fn tape_out_of_order_stops_the_run() {
    let mut trader = VoidTrader;
    let mut events = book();
    events.push((2, prl(1, Direction::Buy, 98, 9)));
    let mut exchange = ExchangeBuilder::new::<false>(
        tape(events),
        &mut trader,
        |_: DateTime| DateTime(0),
        |_: DateTime| DateTime(9),
    )
    .unwrap();
    assert_eq!(
        exchange.run_trades(),
        Err(SimulationError::HistoryOutOfOrder { at: DateTime(3), event: DateTime(2) })
    );
}

#[test]
fn latency_beyond_the_end_of_the_clock_stops_the_run() {
    let mut trader = Scripted::<{ u64::MAX }, 0>::default();
    let mut exchange = ExchangeBuilder::new::<false>(
        tape(book()),
        &mut trader,
        |_: DateTime| DateTime(0),
        |_: DateTime| DateTime(9),
    )
    .unwrap();
    assert_eq!(
        exchange.run_trades(),
        Err(SimulationError::TimeOverflow { at: DateTime(1), delay: u64::MAX })
    );
    let buy = TraderRequest::PlaceMarketOrder(MarketOrder::new(OrderID(7), Size(4), Direction::Buy));
    let mut trader = Scripted::<0, { u64::MAX }>::with(vec![(10, vec![buy])]);
    let mut exchange = ExchangeBuilder::new::<false>(
        tape(book()),
        &mut trader,
        |_: DateTime| DateTime(0),
        |_: DateTime| DateTime(15),
    )
    .unwrap()
    .with_periodic_wakeup(every(9));
    assert_eq!(
        exchange.run_trades(),
        Err(SimulationError::TimeOverflow { at: DateTime(10), delay: u64::MAX })
    );
}

#[test]
fn generator_started_from_a_seed_gives_the_latencies_of_that_seed() {
    let replies_with = |seed: Option<u64>| {
        let mut trader = Jittery::default();
        let mut exchange = ExchangeBuilder::new::<false>(
            tape(book()),
            &mut trader,
            |_: DateTime| DateTime(0),
            |_: DateTime| DateTime(40),
        )
    .unwrap()
        .with_periodic_wakeup(every(9));
        if let Some(seed) = seed {
            exchange.seed_rng(seed);
        }
        assert_eq!(exchange.run_trades(), Ok(()));
        trader.replies
    };
    let expected = |seed: u64| {
        let mut rng = StdRng::seed_from_u64(seed);
        // The first draw is for the news that the venue is open, the next for the replies.
        rng.next_u64();
        let mut replies: Vec<(i64, i64, ExchangeReply)> = [10i64, 19, 28, 37]
            .into_iter()
            .map(|at| {
                let latency = (rng.next_u64() % 1000) as i64;
                let reply = ExchangeReply::CannotCancelOrder(
                    OrderID(at as u64),
                    exchange_backtester::message::InabilityToCancelReason::OrderHasNotBeenSubmitted,
                );
                (at, at + latency, reply)
            })
            .collect();
        replies.sort_by_key(|(_, delivered, _)| *delivered);
        replies
    };
    assert_eq!(replies_with(Some(5)), expected(5));
    assert_eq!(replies_with(Some(6)), expected(6));
    assert_ne!(expected(5), expected(6));
    assert_eq!(replies_with(None), expected(0));
}

#[test]
fn generators_of_fixed_intervals() {
    let mut rng = StdRng::seed_from_u64(0);
    assert!(ConstNanoSecondGenerator::new(0).is_none());
    assert!(NanoSeconds::new(0).is_none());
    let mut second = every(ONE_SECOND);
    assert_eq!(second.gen_ns(&mut rng, DateTime(0)).map(|ns| ns.get()), Some(1_000_000_000));
    assert_eq!(second.gen_ns(&mut rng, DateTime(5)).map(|ns| ns.get()), Some(1_000_000_000));
    assert!(VoidNanoSecGen.gen_ns(&mut rng, DateTime(0)).is_none());
    assert_eq!(ONE_MICROSECOND, 1_000);
    assert_eq!(ONE_MILLISECOND, 1_000 * ONE_MICROSECOND);
    assert_eq!(ONE_SECOND, 1_000 * ONE_MILLISECOND);
    assert_eq!(ONE_MINUTE, 60 * ONE_SECOND);
    assert_eq!(ONE_HOUR, 60 * ONE_MINUTE);
    assert_eq!(ONE_DAY, 24 * ONE_HOUR);
}

#[test]
fn subscription_that_is_not_taken_does_nothing_when_its_turn_comes() {
    let mut trader = Scripted::<0, 0>::default();
    let mut exchange = ExchangeBuilder::new::<false>(
        tape(book()),
        &mut trader,
        |_: DateTime| DateTime(0),
        |_: DateTime| DateTime(15),
    )
    .unwrap();
    let event = exchange.event_queue.pop().unwrap();
    assert_eq!(exchange.process_next_event(event), Ok(()));
    let before = exchange.event_queue.len();
    assert_eq!(exchange.handle_subscription_schedule(SubscriptionSchedule::OrderBook), Ok(()));
    assert_eq!(exchange.handle_subscription_schedule(SubscriptionSchedule::TradeInfo), Ok(()));
    assert_eq!(exchange.handle_trader_wakeup(), Ok(()));
    assert_eq!(exchange.event_queue.len(), before);
    assert_eq!(exchange.run_trades(), Ok(()));
    assert!(trader.snapshots.is_empty() && trader.trades.is_empty() && trader.wakeups.is_empty());
}

#[test]
fn history_parser_feeds_the_exchange() {
    let ob_diffs: Vec<ObDiffRow> = vec![
        (DateTime(1), Size(5), Direction::Buy, Price(100), OrderID(1)),
        (DateTime(3), Size(3), Direction::Sell, Price(101), OrderID(3)),
    ];
    let trades: Vec<TradeRow> = vec![(DateTime(2), Size(1), Direction::Sell, OrderID(1))];
    let mut trader = Scripted::<0, 0>::default();
    let mut exchange = ExchangeBuilder::new::<true>(
        HistoryParser::new(ob_diffs, trades).unwrap(),
        &mut trader,
        |_: DateTime| DateTime(0),
        |_: DateTime| DateTime(5),
    )
    .unwrap()
    .ob_level_subscription_full(every(3));
    assert_eq!(exchange.run_trades(), Ok(()));
    assert_eq!(trader.snapshots.len(), 1);
    assert_eq!(levels(&trader.snapshots[0].2.bids), vec![(100, 4)]);
    assert_eq!(levels(&trader.snapshots[0].2.asks), vec![(101, 3)]);
}

#[test]
fn session_is_decided_by_the_hours_of_the_venue() {
    let decide = |closed, tape, scheduled, now: i64, open: i64, close: i64| {
        decide_session(closed, tape, scheduled, DateTime(now), DateTime(open), DateTime(close))
    };
    // An open venue, or one whose tape has ended, stays as it is.
    assert_eq!(decide(false, true, false, 10, 0, 20), GuardAction::Stay);
    assert_eq!(decide(true, false, false, 10, 0, 20), GuardAction::Stay);
    // Within its hours the venue opens at once.
    assert_eq!(decide(true, true, false, 10, 0, 20), GuardAction::OpenNow);
    assert_eq!(decide(true, true, true, 10, 10, 11), GuardAction::OpenNow);
    // After its hours it stays closed.
    assert_eq!(decide(true, true, false, 20, 0, 20), GuardAction::Stay);
    assert_eq!(decide(true, true, false, 25, 0, 20), GuardAction::Stay);
    // Before its hours the opening is scheduled, once.
    assert_eq!(decide(true, true, false, 10, 11, 20), GuardAction::ScheduleOpening(DateTime(11)));
    assert_eq!(decide(true, true, true, 10, 11, 20), GuardAction::Stay);
    assert_eq!(end_of_session(DateTime(10), DateTime(20)), DateTime(20));
    assert_eq!(end_of_session(DateTime(10), DateTime(10)), DateTime(10));
    assert_eq!(end_of_session(DateTime(10), DateTime(3)), DateTime(10));
}

#[test]
fn opening_is_scheduled_once_for_the_time_that_the_hours_give() {
    let mut trader = Scripted::<0, 0>::default();
    let events = vec![(10, prl(5, Direction::Buy, 100, 1)), (20, prl(5, Direction::Buy, 100, 2))];
    let mut exchange = ExchangeBuilder::new::<false>(
        tape(events),
        &mut trader,
        |_: DateTime| DateTime(100),
        |_: DateTime| DateTime(150),
    )
    .unwrap();
    assert!(exchange.has_history_events_in_queue);
    assert_eq!(exchange.session_guard(), Ok(GuardAction::ScheduleOpening(DateTime(100))));
    assert!(exchange.open_probe_scheduled);
    assert_eq!(exchange.session_guard(), Ok(GuardAction::Stay));
    let due: Vec<(i64, u8)> =
        exchange.event_queue.0.iter().map(|event| (event.datetime.0, event.body.rank())).collect();
    assert_eq!(due, vec![(10, 0), (100, 6)]);
}

#[test]
fn run_of_a_given_length_stops_when_more_is_scheduled() {
    let mut trader = Scripted::<0, 0>::default();
    let mut exchange = ExchangeBuilder::new::<false>(
        tape(book()),
        &mut trader,
        |_: DateTime| DateTime(0),
        |_: DateTime| DateTime(15),
    )
    .unwrap();
    assert_eq!(exchange.run_events(0), Err(SimulationError::EventLimit { at: DateTime(1) }));
    assert_eq!(exchange.event_queue.len(), 1);
    assert_eq!(exchange.run_events(2), Err(SimulationError::EventLimit { at: DateTime(1) }));
    assert_eq!(exchange.run_events(1000), Ok(()));
    assert_eq!(exchange.run_events(0), Ok(()));
    assert_eq!(exchange.engine.current_dt, DateTime(15));
}

#[test]
fn seeding_gives_the_generator_of_the_seed() {
    let mut trader = VoidTrader;
    let mut exchange = ExchangeBuilder::new::<false>(
        tape(book()),
        &mut trader,
        |_: DateTime| DateTime(0),
        |_: DateTime| DateTime(15),
    )
    .unwrap();
    exchange.seed_rng(77);
    assert_eq!(exchange.rng, StdRng::seed_from_u64(77));
    assert_ne!(exchange.rng, StdRng::seed_from_u64(78));
    exchange.rng.next_u64();
    assert_ne!(exchange.rng, StdRng::seed_from_u64(77));
    exchange.seed_rng(77);
    assert_eq!(exchange.rng, StdRng::seed_from_u64(77));
}
