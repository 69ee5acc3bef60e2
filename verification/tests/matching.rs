use exchange_backtester::exchange::matching::{
    AggressiveOrderType, Diagnostic, DiagnosticKind, MatchingEngine,
};
use exchange_backtester::exchange::trades::history::OrderBookDiff;
use exchange_backtester::exchange::types::{OrderBookEntry, OrderBookLevel};
use exchange_backtester::history::types::{HistoryEventBody, OrderOrigin};
use exchange_backtester::message::{
    CancellationReason, DiscardingReason, ExchangeReply, InabilityToCancelReason, TraderRequest,
};
use exchange_backtester::order::{LimitOrder, MarketOrder};
use exchange_backtester::types::{DateTime, Direction, OrderID, Price, Size};

fn shown(side: &Vec<OrderBookLevel>) -> Vec<(i64, u64)> {
    side.iter().map(|level| (level.price.0, level.get_ob_level_size().0)).collect()
}

fn entries(side: &Vec<OrderBookLevel>) -> Vec<(i64, Vec<(u64, u64, OrderOrigin)>)> {
    side.iter()
        .map(|level| {
            (
                level.price.0,
                level.queue.iter().map(|e| (e.order_id.0, e.size.0, e.from)).collect(),
            )
        })
        .collect()
}

fn engine(debug: bool, trade_updates_book: bool, record_trades: bool) -> MatchingEngine {
    let mut engine = MatchingEngine::new(debug, trade_updates_book, record_trades, DateTime(0));
    engine.open_session();
    engine
}

/// Bids 100x5 and 99x2, asks 101x3, all from the tape.
fn open_book() -> MatchingEngine {
    let mut engine = engine(false, false, false);
    engine.handle_prl_event(Size(5), Direction::Buy, Price(100), OrderID(1));
    engine.handle_prl_event(Size(2), Direction::Buy, Price(99), OrderID(2));
    engine.handle_prl_event(Size(3), Direction::Sell, Price(101), OrderID(3));
    engine
}

fn pending_ids(engine: &MatchingEngine) -> Vec<u64> {
    let mut ids: Vec<u64> = engine.trader_pending_limit_orders.keys().copied().collect();
    ids.sort();
    ids
}

fn history_ids(engine: &MatchingEngine) -> Vec<u64> {
    let mut ids: Vec<u64> = engine.history_order_ids.iter().copied().collect();
    ids.sort();
    ids
}

fn count_entries(engine: &MatchingEngine, id: u64, from: OrderOrigin) -> usize {
    engine
        .bids
        .iter()
        .chain(engine.asks.iter())
        .flat_map(|level| level.queue.iter())
        .filter(|entry| entry.order_id.0 == id && entry.from == from)
        .count()
}

#[test]
fn new_engine_is_closed_and_empty() {
    let engine = MatchingEngine::new(true, false, true, DateTime(7));
    assert!(engine.exchange_closed);
    assert!(engine.bids.is_empty() && engine.asks.is_empty());
    assert!(engine.replies.is_empty() && engine.diagnostics.is_empty());
    assert_eq!(engine.current_dt, DateTime(7));
    assert!(engine.debug && !engine.trade_updates_book && engine.record_trades);
}

#[test]
fn market_buy_larger_than_the_asks_is_partly_executed_and_waits() {
    let mut engine = open_book();
    engine.current_dt = DateTime(10);
    engine.submit_market_order(MarketOrder::new(OrderID(7), Size(4), Direction::Buy));
    assert_eq!(
        engine.replies,
        vec![
            ExchangeReply::OrderAccepted(OrderID(7)),
            ExchangeReply::OrderPartiallyExecuted(OrderID(7), Size(3), Price(101)),
        ]
    );
    assert_eq!(
        engine.trader_pending_market_orders,
        vec![MarketOrder::new(OrderID(7), Size(1), Direction::Buy)]
    );
    assert_eq!(shown(&engine.bids), vec![(100, 5), (99, 2)]);
    assert_eq!(shown(&engine.asks), vec![]);
    assert_eq!(history_ids(&engine), vec![1, 2]);
}

#[test]
fn crossing_limit_buy_executes_what_it_crosses_and_rests_with_the_remainder() {
    let mut engine = open_book();
    engine.submit_limit_order(LimitOrder::new(OrderID(7), Size(4), Direction::Buy, Price(101)));
    assert_eq!(
        engine.replies,
        vec![
            ExchangeReply::OrderAccepted(OrderID(7)),
            ExchangeReply::OrderPartiallyExecuted(OrderID(7), Size(3), Price(101)),
        ]
    );
    assert_eq!(shown(&engine.bids), vec![(101, 1), (100, 5), (99, 2)]);
    assert_eq!(shown(&engine.asks), vec![]);
    assert_eq!(
        engine.trader_pending_limit_orders.get(&7),
        Some(&(Price(101), Direction::Buy))
    );
    assert!(engine.trader_pending_market_orders.is_empty());
}

#[test]
fn tape_limit_that_crosses_a_resting_sell_of_the_trader_executes_against_it() {
    let mut engine = engine(false, false, false);
    engine.submit_limit_order(LimitOrder::new(OrderID(11), Size(50), Direction::Sell, Price(200)));
    assert_eq!(engine.replies, vec![ExchangeReply::OrderAccepted(OrderID(11))]);
    engine.replies.clear();
    engine.handle_history_event(HistoryEventBody::PRL(
        Size(30),
        Direction::Buy,
        Price(205),
        OrderID(500),
    ));
    assert_eq!(
        engine.replies,
        vec![ExchangeReply::OrderPartiallyExecuted(OrderID(11), Size(30), Price(200))]
    );
    assert_eq!(
        entries(&engine.asks),
        vec![(200, vec![(11, 20, OrderOrigin::Trader)])]
    );
    assert_eq!(shown(&engine.bids), vec![]);
    assert_eq!(history_ids(&engine), Vec::<u64>::new());
}

#[test]
fn session_close_cancels_open_orders_in_ascending_order_of_identifiers() {
    let mut engine = engine(false, false, false);
    engine.submit_market_order(MarketOrder::new(OrderID(3), Size(4), Direction::Buy));
    engine.submit_limit_order(LimitOrder::new(OrderID(2), Size(5), Direction::Buy, Price(91)));
    engine.submit_limit_order(LimitOrder::new(OrderID(1), Size(5), Direction::Buy, Price(90)));
    assert_eq!(engine.trader_pending_market_orders.len(), 1);
    assert_eq!(pending_ids(&engine), vec![1, 2]);
    engine.replies.clear();
    engine.close_session();
    assert_eq!(
        engine.replies,
        vec![
            ExchangeReply::OrderCancelled(OrderID(1), CancellationReason::ExchangeClosed),
            ExchangeReply::OrderCancelled(OrderID(2), CancellationReason::ExchangeClosed),
            ExchangeReply::OrderCancelled(OrderID(3), CancellationReason::ExchangeClosed),
        ]
    );
    assert!(engine.bids.is_empty() && engine.asks.is_empty());
    assert!(engine.trader_pending_market_orders.is_empty());
    assert!(engine.trader_pending_limit_orders.is_empty());
    assert!(engine.trader_submitted_orders.is_empty());
    assert!(engine.history_order_ids.is_empty());
    assert!(engine.exchange_closed);
}

#[test]
fn session_close_sorts_cancellations_whatever_the_order_in_the_book() {
    let mut engine = engine(false, false, false);
    for (id, price) in [(9u64, 95i64), (4, 97), (6, 96)] {
        engine.submit_limit_order(LimitOrder::new(
            OrderID(id),
            Size(1),
            Direction::Buy,
            Price(price),
        ));
    }
    engine.submit_market_order(MarketOrder::new(OrderID(5), Size(2), Direction::Buy));
    engine.replies.clear();
    engine.cleanup(true);
    let ids: Vec<u64> = engine.replies.iter().map(|reply| reply.order_id().0).collect();
    assert_eq!(ids, vec![4, 5, 6, 9]);
}

#[test]
fn identifiers_are_free_again_after_the_session_has_ended() {
    let mut engine = engine(false, false, false);
    engine.submit_limit_order(LimitOrder::new(OrderID(1), Size(5), Direction::Buy, Price(90)));
    engine.close_session();
    engine.open_session();
    engine.replies.clear();
    engine.submit_limit_order(LimitOrder::new(OrderID(1), Size(5), Direction::Buy, Price(90)));
    assert_eq!(engine.replies, vec![ExchangeReply::OrderAccepted(OrderID(1))]);
}

#[test]
fn opening_clears_the_book_and_keeps_what_the_trader_was_told() {
    let mut engine = MatchingEngine::new(false, false, false, DateTime(0));
    engine.cleanup(false);
    assert!(engine.exchange_closed);
    engine.open_session();
    assert!(!engine.exchange_closed);
    assert!(engine.bids.is_empty() && engine.asks.is_empty());
    assert!(engine.replies.is_empty());
}

#[test]
fn placement_while_closed_is_discarded_whatever_the_size_and_the_identifier() {
    let mut engine = MatchingEngine::new(false, false, false, DateTime(0));
    engine.submit_limit_order(LimitOrder::new(OrderID(1), Size(0), Direction::Buy, Price(90)));
    engine.submit_limit_order(LimitOrder::new(OrderID(1), Size(3), Direction::Buy, Price(90)));
    engine.submit_market_order(MarketOrder::new(OrderID(1), Size(3), Direction::Buy));
    engine.submit_market_order(MarketOrder::new(OrderID(2), Size(0), Direction::Sell));
    let closed =
        |id| ExchangeReply::OrderPlacementDiscarded(OrderID(id), DiscardingReason::ExchangeClosed);
    assert_eq!(engine.replies, vec![closed(1), closed(1), closed(1), closed(2)]);
    assert!(engine.bids.is_empty() && engine.asks.is_empty());
    assert!(engine.trader_submitted_orders.is_empty());
    assert!(engine.trader_pending_market_orders.is_empty());
}

#[test]
fn zero_size_placement_is_discarded_while_open() {
    let mut engine = open_book();
    engine.submit_limit_order(LimitOrder::new(OrderID(7), Size(0), Direction::Buy, Price(101)));
    engine.submit_market_order(MarketOrder::new(OrderID(8), Size(0), Direction::Buy));
    assert_eq!(
        engine.replies,
        vec![
            ExchangeReply::OrderPlacementDiscarded(OrderID(7), DiscardingReason::ZeroSize),
            ExchangeReply::OrderPlacementDiscarded(OrderID(8), DiscardingReason::ZeroSize),
        ]
    );
    assert_eq!(shown(&engine.asks), vec![(101, 3)]);
    assert!(engine.trader_submitted_orders.is_empty());
}

#[test]
fn duplicate_identifier_is_discarded() {
    let mut engine = open_book();
    engine.submit_limit_order(LimitOrder::new(OrderID(7), Size(1), Direction::Buy, Price(98)));
    engine.submit_limit_order(LimitOrder::new(OrderID(7), Size(1), Direction::Buy, Price(97)));
    engine.submit_market_order(MarketOrder::new(OrderID(7), Size(1), Direction::Buy));
    let duplicate = ExchangeReply::OrderPlacementDiscarded(
        OrderID(7),
        DiscardingReason::OrderWithSuchIDAlreadySubmitted,
    );
    assert_eq!(
        engine.replies,
        vec![ExchangeReply::OrderAccepted(OrderID(7)), duplicate, duplicate]
    );
    assert_eq!(shown(&engine.bids), vec![(100, 5), (99, 2), (98, 1)]);
    assert_eq!(shown(&engine.asks), vec![(101, 3)]);
}

#[test]
fn identifier_of_an_executed_order_stays_taken_for_the_session() {
    let mut engine = open_book();
    engine.submit_market_order(MarketOrder::new(OrderID(7), Size(1), Direction::Buy));
    engine.submit_market_order(MarketOrder::new(OrderID(7), Size(1), Direction::Buy));
    assert_eq!(
        engine.replies,
        vec![
            ExchangeReply::OrderAccepted(OrderID(7)),
            ExchangeReply::OrderExecuted(OrderID(7), Size(1), Price(101)),
            ExchangeReply::OrderPlacementDiscarded(
                OrderID(7),
                DiscardingReason::OrderWithSuchIDAlreadySubmitted
            ),
        ]
    );
}

#[test]
fn tape_trade_larger_than_the_liquidity_is_dropped_without_a_note_when_notes_are_off() {
    let mut engine = open_book();
    engine.handle_trd_event(Size(10), Direction::Buy);
    assert!(engine.replies.is_empty());
    assert!(engine.diagnostics.is_empty());
    assert!(engine.trader_pending_market_orders.is_empty());
    // The tape's own orders are only passed through: the tape takes them out itself.
    assert_eq!(shown(&engine.asks), vec![(101, 3)]);
    assert_eq!(shown(&engine.bids), vec![(100, 5), (99, 2)]);
}

#[test]
fn tape_trade_larger_than_the_liquidity_is_noted_when_notes_are_on() {
    let mut engine = engine(true, false, false);
    engine.current_dt = DateTime(55);
    engine.handle_prl_event(Size(3), Direction::Sell, Price(101), OrderID(3));
    engine.handle_trd_event(Size(10), Direction::Buy);
    assert!(engine.replies.is_empty());
    assert_eq!(
        engine.diagnostics,
        vec![Diagnostic {
            datetime: DateTime(55),
            kind: DiagnosticKind::TradeNotFullyExecuted(Size(7)),
        }]
    );
}

#[test]
fn tape_trade_debits_the_tape_orders_where_trades_update_the_book() {
    let mut engine = engine(false, true, false);
    engine.handle_prl_event(Size(3), Direction::Sell, Price(101), OrderID(3));
    engine.handle_prl_event(Size(4), Direction::Sell, Price(102), OrderID(4));
    engine.handle_trd_event(Size(5), Direction::Buy);
    assert_eq!(
        entries(&engine.asks),
        vec![(102, vec![(4, 2, OrderOrigin::History)])]
    );
    assert_eq!(history_ids(&engine), vec![4]);
}

#[test]
fn tape_trade_executes_resting_orders_of_the_trader_under_either_policy() {
    for policy in [false, true] {
        let mut engine = engine(false, policy, false);
        engine.handle_prl_event(Size(3), Direction::Sell, Price(101), OrderID(3));
        engine.submit_limit_order(LimitOrder::new(
            OrderID(7),
            Size(2),
            Direction::Sell,
            Price(101),
        ));
        engine.replies.clear();
        engine.handle_trd_event(Size(4), Direction::Buy);
        assert_eq!(
            engine.replies,
            vec![ExchangeReply::OrderPartiallyExecuted(OrderID(7), Size(1), Price(101))]
        );
        let expected = if policy {
            vec![(101, vec![(7, 1, OrderOrigin::Trader)])]
        } else {
            vec![(101, vec![(3, 3, OrderOrigin::History), (7, 1, OrderOrigin::Trader)])]
        };
        assert_eq!(entries(&engine.asks), expected);
    }
}

#[test]
fn market_order_walks_levels_in_price_then_time_priority() {
    let mut engine = engine(false, false, true);
    engine.current_dt = DateTime(9);
    engine.handle_prl_event(Size(2), Direction::Sell, Price(102), OrderID(30));
    engine.handle_prl_event(Size(1), Direction::Sell, Price(101), OrderID(31));
    engine.submit_limit_order(LimitOrder::new(OrderID(5), Size(2), Direction::Sell, Price(101)));
    engine.handle_prl_event(Size(4), Direction::Sell, Price(101), OrderID(32));
    engine.replies.clear();
    engine.submit_market_order(MarketOrder::new(OrderID(6), Size(6), Direction::Buy));
    assert_eq!(
        engine.replies,
        vec![
            ExchangeReply::OrderAccepted(OrderID(6)),
            ExchangeReply::OrderPartiallyExecuted(OrderID(6), Size(1), Price(101)),
            ExchangeReply::OrderPartiallyExecuted(OrderID(6), Size(2), Price(101)),
            ExchangeReply::OrderExecuted(OrderID(5), Size(2), Price(101)),
            ExchangeReply::OrderExecuted(OrderID(6), Size(3), Price(101)),
        ]
    );
    assert_eq!(
        entries(&engine.asks),
        vec![
            (101, vec![(32, 1, OrderOrigin::History)]),
            (102, vec![(30, 2, OrderOrigin::History)]),
        ]
    );
    let trade = |size| OrderBookDiff {
        datetime: DateTime(9),
        price: Price(101),
        size: Size(size),
        direction: Direction::Buy,
    };
    assert_eq!(engine.executed_trades.0, vec![trade(1), trade(2), trade(3)]);
    assert_eq!(pending_ids(&engine), Vec::<u64>::new());
    assert_eq!(history_ids(&engine), vec![30, 32]);
}

#[test]
fn market_order_that_takes_exactly_one_entry_removes_it_and_its_level() {
    let mut engine = open_book();
    engine.submit_market_order(MarketOrder::new(OrderID(7), Size(3), Direction::Buy));
    assert_eq!(
        engine.replies,
        vec![
            ExchangeReply::OrderAccepted(OrderID(7)),
            ExchangeReply::OrderExecuted(OrderID(7), Size(3), Price(101)),
        ]
    );
    assert!(engine.asks.is_empty());
    assert!(engine.trader_pending_market_orders.is_empty());
    assert_eq!(history_ids(&engine), vec![1, 2]);
}

#[test]
fn waiting_market_order_is_served_by_the_next_limit_on_the_other_side() {
    let mut engine = engine(false, false, true);
    engine.submit_market_order(MarketOrder::new(OrderID(1), Size(5), Direction::Buy));
    engine.submit_market_order(MarketOrder::new(OrderID(2), Size(2), Direction::Sell));
    engine.replies.clear();
    engine.current_dt = DateTime(3);
    // A sell of the tape for 3 at 50 meets the waiting buy and is used up by it.
    engine.handle_prl_event(Size(3), Direction::Sell, Price(50), OrderID(90));
    assert_eq!(
        engine.replies,
        vec![ExchangeReply::OrderPartiallyExecuted(OrderID(1), Size(3), Price(50))]
    );
    assert_eq!(
        engine.trader_pending_market_orders,
        vec![
            MarketOrder::new(OrderID(1), Size(2), Direction::Buy),
            MarketOrder::new(OrderID(2), Size(2), Direction::Sell),
        ]
    );
    assert!(engine.asks.is_empty());
    assert!(engine.history_order_ids.is_empty());
    assert_eq!(
        engine.executed_trades.0,
        vec![OrderBookDiff {
            datetime: DateTime(3),
            price: Price(50),
            size: Size(3),
            direction: Direction::Buy,
        }]
    );
    // A limit of the trader for 4 at 51 uses up the rest of the waiting buy and rests with 2.
    engine.replies.clear();
    engine.submit_limit_order(LimitOrder::new(OrderID(3), Size(4), Direction::Sell, Price(51)));
    assert_eq!(
        engine.replies,
        vec![
            ExchangeReply::OrderAccepted(OrderID(3)),
            ExchangeReply::OrderExecuted(OrderID(1), Size(2), Price(51)),
            ExchangeReply::OrderPartiallyExecuted(OrderID(3), Size(2), Price(51)),
        ]
    );
    assert_eq!(
        engine.trader_pending_market_orders,
        vec![MarketOrder::new(OrderID(2), Size(2), Direction::Sell)]
    );
    assert_eq!(entries(&engine.asks), vec![(51, vec![(3, 2, OrderOrigin::Trader)])]);
}

#[test]
fn limit_that_a_waiting_market_order_uses_up_never_rests() {
    let mut engine = engine(false, false, false);
    engine.submit_market_order(MarketOrder::new(OrderID(1), Size(5), Direction::Buy));
    engine.replies.clear();
    engine.submit_limit_order(LimitOrder::new(OrderID(2), Size(5), Direction::Sell, Price(70)));
    assert_eq!(
        engine.replies,
        vec![
            ExchangeReply::OrderAccepted(OrderID(2)),
            ExchangeReply::OrderExecuted(OrderID(1), Size(5), Price(70)),
            ExchangeReply::OrderExecuted(OrderID(2), Size(5), Price(70)),
        ]
    );
    assert!(engine.asks.is_empty());
    assert!(engine.trader_pending_market_orders.is_empty());
    assert!(engine.trader_pending_limit_orders.is_empty());
}

#[test]
fn limit_that_crosses_more_than_its_size_executes_like_a_market_order() {
    let mut engine = open_book();
    engine.submit_limit_order(LimitOrder::new(OrderID(7), Size(2), Direction::Buy, Price(105)));
    assert_eq!(
        engine.replies,
        vec![
            ExchangeReply::OrderAccepted(OrderID(7)),
            ExchangeReply::OrderExecuted(OrderID(7), Size(2), Price(101)),
        ]
    );
    assert_eq!(shown(&engine.asks), vec![(101, 1)]);
    assert_eq!(shown(&engine.bids), vec![(100, 5), (99, 2)]);
    assert!(engine.trader_pending_limit_orders.is_empty());
}

#[test]
fn limits_rest_best_price_first_and_oldest_first_at_a_price() {
    let mut engine = engine(false, false, false);
    engine.submit_limit_order(LimitOrder::new(OrderID(1), Size(1), Direction::Buy, Price(10)));
    engine.submit_limit_order(LimitOrder::new(OrderID(2), Size(2), Direction::Buy, Price(12)));
    engine.submit_limit_order(LimitOrder::new(OrderID(3), Size(3), Direction::Buy, Price(11)));
    engine.handle_prl_event(Size(4), Direction::Buy, Price(12), OrderID(4));
    engine.submit_limit_order(LimitOrder::new(OrderID(5), Size(5), Direction::Sell, Price(20)));
    engine.submit_limit_order(LimitOrder::new(OrderID(6), Size(6), Direction::Sell, Price(18)));
    engine.submit_limit_order(LimitOrder::new(OrderID(8), Size(8), Direction::Sell, Price(19)));
    assert_eq!(
        entries(&engine.bids),
        vec![
            (12, vec![(2, 2, OrderOrigin::Trader), (4, 4, OrderOrigin::History)]),
            (11, vec![(3, 3, OrderOrigin::Trader)]),
            (10, vec![(1, 1, OrderOrigin::Trader)]),
        ]
    );
    assert_eq!(shown(&engine.asks), vec![(18, 6), (19, 8), (20, 5)]);
}

#[test]
fn place_then_cancel_leaves_the_book_as_it_was() {
    let mut engine = open_book();
    let bids_before = entries(&engine.bids);
    let asks_before = entries(&engine.asks);
    for (id, direction, price) in [
        (7u64, Direction::Buy, 100i64),
        (8, Direction::Buy, 98),
        (9, Direction::Sell, 101),
        (10, Direction::Sell, 150),
    ] {
        engine.submit_limit_order(LimitOrder::new(OrderID(id), Size(4), direction, Price(price)));
        engine.cancel_limit_order(OrderID(id));
        assert_eq!(entries(&engine.bids), bids_before);
        assert_eq!(entries(&engine.asks), asks_before);
        assert!(engine.trader_pending_limit_orders.is_empty());
    }
    assert_eq!(
        engine.replies[..2],
        [
            ExchangeReply::OrderAccepted(OrderID(7)),
            ExchangeReply::OrderCancelled(OrderID(7), CancellationReason::TraderRequested),
        ]
    );
}

#[test]
fn cancelling_a_limit_says_why_it_cannot_be_done() {
    let mut engine = open_book();
    engine.cancel_limit_order(OrderID(7));
    engine.submit_limit_order(LimitOrder::new(OrderID(7), Size(3), Direction::Buy, Price(101)));
    engine.cancel_limit_order(OrderID(7));
    engine.submit_limit_order(LimitOrder::new(OrderID(8), Size(3), Direction::Buy, Price(50)));
    engine.cancel_limit_order(OrderID(8));
    engine.cancel_limit_order(OrderID(8));
    engine.close_session();
    engine.cancel_limit_order(OrderID(8));
    let cannot = |id, reason| ExchangeReply::CannotCancelOrder(OrderID(id), reason);
    assert_eq!(
        engine.replies,
        vec![
            cannot(7, InabilityToCancelReason::OrderHasNotBeenSubmitted),
            ExchangeReply::OrderAccepted(OrderID(7)),
            ExchangeReply::OrderExecuted(OrderID(7), Size(3), Price(101)),
            cannot(7, InabilityToCancelReason::OrderAlreadyExecuted),
            ExchangeReply::OrderAccepted(OrderID(8)),
            ExchangeReply::OrderCancelled(OrderID(8), CancellationReason::TraderRequested),
            cannot(8, InabilityToCancelReason::OrderAlreadyExecuted),
            cannot(8, InabilityToCancelReason::ExchangeClosed),
        ]
    );
}

#[test]
fn cancelling_a_market_order_takes_it_out_of_the_waiting_orders() {
    let mut engine = engine(false, false, false);
    engine.cancel_market_order(OrderID(1));
    engine.submit_market_order(MarketOrder::new(OrderID(1), Size(5), Direction::Buy));
    engine.submit_market_order(MarketOrder::new(OrderID(2), Size(6), Direction::Buy));
    engine.cancel_market_order(OrderID(1));
    engine.cancel_market_order(OrderID(1));
    assert_eq!(
        engine.trader_pending_market_orders,
        vec![MarketOrder::new(OrderID(2), Size(6), Direction::Buy)]
    );
    engine.close_session();
    engine.cancel_market_order(OrderID(2));
    let cannot = |id, reason| ExchangeReply::CannotCancelOrder(OrderID(id), reason);
    assert_eq!(
        engine.replies,
        vec![
            cannot(1, InabilityToCancelReason::OrderHasNotBeenSubmitted),
            ExchangeReply::OrderAccepted(OrderID(1)),
            ExchangeReply::OrderAccepted(OrderID(2)),
            ExchangeReply::OrderCancelled(OrderID(1), CancellationReason::TraderRequested),
            cannot(1, InabilityToCancelReason::OrderAlreadyExecuted),
            ExchangeReply::OrderCancelled(OrderID(2), CancellationReason::ExchangeClosed),
            cannot(2, InabilityToCancelReason::ExchangeClosed),
        ]
    );
}

#[test]
fn requests_are_handed_to_the_operation_that_they_ask_for() {
    let mut engine = open_book();
    engine.handle_trader_request(TraderRequest::PlaceLimitOrder(LimitOrder::new(
        OrderID(1),
        Size(1),
        Direction::Buy,
        Price(98),
    )));
    engine.handle_trader_request(TraderRequest::PlaceMarketOrder(MarketOrder::new(
        OrderID(2),
        Size(9),
        Direction::Buy,
    )));
    engine.handle_trader_request(TraderRequest::CancelMarketOrder(OrderID(2)));
    engine.handle_trader_request(TraderRequest::CancelLimitOrder(OrderID(1)));
    assert_eq!(
        engine.replies,
        vec![
            ExchangeReply::OrderAccepted(OrderID(1)),
            ExchangeReply::OrderAccepted(OrderID(2)),
            ExchangeReply::OrderPartiallyExecuted(OrderID(2), Size(3), Price(101)),
            ExchangeReply::OrderCancelled(OrderID(2), CancellationReason::TraderRequested),
            ExchangeReply::OrderCancelled(OrderID(1), CancellationReason::TraderRequested),
        ]
    );
    assert_eq!(shown(&engine.bids), vec![(100, 5), (99, 2)]);
}

#[test]
fn tape_changes_insert_update_and_remove_orders() {
    let mut engine = engine(true, false, false);
    engine.handle_prl_event(Size(5), Direction::Buy, Price(100), OrderID(1));
    engine.handle_prl_event(Size(6), Direction::Buy, Price(100), OrderID(2));
    engine.handle_prl_event(Size(2), Direction::Buy, Price(100), OrderID(1));
    assert_eq!(
        entries(&engine.bids),
        vec![(100, vec![(1, 2, OrderOrigin::History), (2, 6, OrderOrigin::History)])]
    );
    engine.handle_prl_event(Size(0), Direction::Buy, Price(100), OrderID(1));
    assert_eq!(entries(&engine.bids), vec![(100, vec![(2, 6, OrderOrigin::History)])]);
    assert_eq!(history_ids(&engine), vec![2]);
    engine.handle_prl_event(Size(0), Direction::Buy, Price(100), OrderID(2));
    assert!(engine.bids.is_empty());
    assert!(engine.history_order_ids.is_empty());
    assert!(engine.diagnostics.is_empty());
}

#[test]
fn tape_changes_that_do_not_fit_the_book_are_noted_and_change_nothing() {
    let mut engine = engine(true, false, false);
    engine.current_dt = DateTime(5);
    engine.handle_prl_event(Size(5), Direction::Buy, Price(100), OrderID(1));
    // Known order, but not at this price.
    engine.handle_prl_event(Size(3), Direction::Buy, Price(99), OrderID(1));
    // Removal at a price at which it does not rest, and of an order that never was.
    engine.handle_prl_event(Size(0), Direction::Buy, Price(99), OrderID(1));
    engine.handle_prl_event(Size(0), Direction::Sell, Price(100), OrderID(8));
    let note = |kind| Diagnostic { datetime: DateTime(5), kind };
    assert_eq!(
        engine.diagnostics,
        vec![
            note(DiagnosticKind::OrderToUpdateNotFound(OrderID(1), Price(99))),
            note(DiagnosticKind::OrderToRemoveNotFound(OrderID(1), Price(99))),
            note(DiagnosticKind::OrderToRemoveNotFound(OrderID(8), Price(100))),
        ]
    );
    assert_eq!(entries(&engine.bids), vec![(100, vec![(1, 5, OrderOrigin::History)])]);
    assert_eq!(history_ids(&engine), vec![1]);
}

#[test]
fn removal_of_an_order_that_was_not_tracked_is_noted() {
    let mut engine = engine(true, false, false);
    engine.bids.push(OrderBookLevel {
        price: Price(100),
        queue: vec![OrderBookEntry {
            order_id: OrderID(1),
            size: Size(5),
            from: OrderOrigin::History,
        }],
    });
    engine.remove_prl_entry(Direction::Buy, Price(100), OrderID(1));
    assert!(engine.bids.is_empty());
    assert_eq!(
        engine.diagnostics,
        vec![Diagnostic {
            datetime: DateTime(0),
            kind: DiagnosticKind::RemovedOrderWasNotTracked(OrderID(1)),
        }]
    );
}

#[test]
fn no_notes_are_made_when_notes_are_off() {
    let mut engine = engine(false, false, false);
    engine.handle_prl_event(Size(0), Direction::Sell, Price(100), OrderID(8));
    engine.update_traded_prl_entry(Size(2), Direction::Sell, Price(100), OrderID(8));
    engine.handle_trd_event(Size(1), Direction::Sell);
    assert!(engine.diagnostics.is_empty());
}

#[test]
fn tape_events_have_no_effect_while_the_venue_is_closed() {
    let mut engine = MatchingEngine::new(true, true, true, DateTime(0));
    engine.handle_history_event(HistoryEventBody::PRL(
        Size(5),
        Direction::Buy,
        Price(100),
        OrderID(1),
    ));
    engine.handle_history_event(HistoryEventBody::TRD(Size(5), Direction::Buy));
    assert!(engine.bids.is_empty() && engine.asks.is_empty());
    assert!(engine.history_order_ids.is_empty());
    assert!(engine.diagnostics.is_empty());
    assert!(engine.executed_trades.0.is_empty());
}

#[test]
fn tape_limit_that_crosses_tape_orders_rests_beside_them_unless_trades_update_the_book() {
    let mut passing = engine(false, false, false);
    passing.handle_prl_event(Size(3), Direction::Sell, Price(101), OrderID(3));
    passing.handle_prl_event(Size(5), Direction::Buy, Price(101), OrderID(4));
    assert_eq!(shown(&passing.asks), vec![(101, 3)]);
    assert_eq!(shown(&passing.bids), vec![(101, 2)]);
    let mut taking = engine(false, true, false);
    taking.handle_prl_event(Size(3), Direction::Sell, Price(101), OrderID(3));
    taking.handle_prl_event(Size(5), Direction::Buy, Price(101), OrderID(4));
    assert_eq!(shown(&taking.asks), vec![]);
    assert_eq!(shown(&taking.bids), vec![(101, 2)]);
    assert_eq!(history_ids(&taking), vec![4]);
}

#[test]
fn every_pending_limit_has_one_entry_where_the_engine_has_noted_it() {
    let mut engine = open_book();
    engine.submit_limit_order(LimitOrder::new(OrderID(7), Size(9), Direction::Buy, Price(101)));
    engine.submit_limit_order(LimitOrder::new(OrderID(8), Size(2), Direction::Sell, Price(103)));
    engine.submit_limit_order(LimitOrder::new(OrderID(9), Size(2), Direction::Sell, Price(103)));
    engine.handle_trd_event(Size(3), Direction::Sell);
    engine.cancel_limit_order(OrderID(9));
    assert_eq!(pending_ids(&engine), vec![7, 8]);
    for (id, (price, direction)) in engine.trader_pending_limit_orders.iter() {
        let side = match direction {
            Direction::Buy => &engine.bids,
            Direction::Sell => &engine.asks,
        };
        let at_price: usize = side
            .iter()
            .filter(|level| level.price == *price)
            .flat_map(|level| level.queue.iter())
            .filter(|entry| entry.order_id.0 == *id && entry.from == OrderOrigin::Trader)
            .count();
        assert_eq!(at_price, 1);
        assert_eq!(count_entries(&engine, *id, OrderOrigin::Trader), 1);
    }
    assert_eq!(count_entries(&engine, 9, OrderOrigin::Trader), 0);
}

#[test]
fn every_known_tape_order_has_one_entry() {
    let mut engine = open_book();
    engine.submit_market_order(MarketOrder::new(OrderID(7), Size(2), Direction::Sell));
    engine.handle_prl_event(Size(0), Direction::Buy, Price(99), OrderID(2));
    engine.handle_prl_event(Size(4), Direction::Sell, Price(102), OrderID(4));
    assert_eq!(history_ids(&engine), vec![1, 3, 4]);
    for id in history_ids(&engine) {
        assert_eq!(count_entries(&engine, id, OrderOrigin::History), 1);
    }
    assert_eq!(count_entries(&engine, 2, OrderOrigin::History), 0);
}

#[test]
fn best_bid_stays_below_best_ask_where_trades_update_the_book() {
    let mut engine = engine(false, true, false);
    let tape = [
        (5u64, Direction::Buy, 100i64, 1u64),
        (3, Direction::Sell, 101, 2),
        (4, Direction::Buy, 101, 3),
        (6, Direction::Sell, 99, 4),
        (2, Direction::Sell, 100, 5),
        (9, Direction::Buy, 104, 6),
    ];
    for (size, direction, price, id) in tape {
        engine.handle_prl_event(Size(size), direction, Price(price), OrderID(id));
        engine.submit_limit_order(LimitOrder::new(
            OrderID(100 + id),
            Size(2),
            direction,
            Price(price + 1),
        ));
        if let (Some(bid), Some(ask)) = (engine.bids.first(), engine.asks.first()) {
            assert!(bid.price.0 < ask.price.0);
        }
    }
}

#[test]
fn no_more_is_reported_as_executed_than_was_placed() {
    let mut engine = open_book();
    engine.submit_limit_order(LimitOrder::new(OrderID(7), Size(6), Direction::Buy, Price(101)));
    engine.handle_trd_event(Size(2), Direction::Sell);
    engine.handle_prl_event(Size(9), Direction::Sell, Price(90), OrderID(40));
    engine.cancel_limit_order(OrderID(7));
    let executed: u64 = engine
        .replies
        .iter()
        .filter(|reply| reply.order_id() == OrderID(7))
        .map(|reply| match reply {
            ExchangeReply::OrderPartiallyExecuted(_, size, _) => size.0,
            ExchangeReply::OrderExecuted(_, size, _) => size.0,
            _ => 0,
        })
        .sum();
    assert_eq!(executed, 6);
    assert_eq!(
        engine.replies,
        vec![
            ExchangeReply::OrderAccepted(OrderID(7)),
            ExchangeReply::OrderPartiallyExecuted(OrderID(7), Size(3), Price(101)),
            ExchangeReply::OrderPartiallyExecuted(OrderID(7), Size(2), Price(101)),
            ExchangeReply::OrderExecuted(OrderID(7), Size(1), Price(101)),
            ExchangeReply::CannotCancelOrder(
                OrderID(7),
                InabilityToCancelReason::OrderAlreadyExecuted
            ),
        ]
    );
}

#[test]
fn nothing_is_executed_of_an_order_after_it_was_reported_as_executed() {
    let mut engine = open_book();
    engine.submit_limit_order(LimitOrder::new(OrderID(7), Size(2), Direction::Sell, Price(101)));
    engine.submit_market_order(MarketOrder::new(OrderID(8), Size(5), Direction::Buy));
    engine.handle_trd_event(Size(9), Direction::Buy);
    engine.handle_prl_event(Size(9), Direction::Buy, Price(120), OrderID(41));
    for id in [7u64, 8] {
        let about: Vec<&ExchangeReply> = engine
            .replies
            .iter()
            .filter(|reply| reply.order_id() == OrderID(id))
            .filter(|reply| {
                !matches!(
                    reply,
                    ExchangeReply::OrderCancelled(..) | ExchangeReply::CannotCancelOrder(..)
                )
            })
            .collect();
        for pair in about.windows(2) {
            if matches!(pair[0], ExchangeReply::OrderExecuted(..)) {
                assert!(!matches!(
                    pair[1],
                    ExchangeReply::OrderExecuted(..) | ExchangeReply::OrderPartiallyExecuted(..)
                ));
            }
        }
        assert!(matches!(about.last(), Some(ExchangeReply::OrderExecuted(..))));
    }
}

#[test]
fn kinds_of_aggressors_differ_in_whose_orders_they_debit() {
    let passing = MatchingEngine::new(false, false, false, DateTime(0));
    let taking = MatchingEngine::new(false, true, false, DateTime(0));
    let kinds = [
        AggressiveOrderType::TraderMarketOrder,
        AggressiveOrderType::HistoryMarketOrder,
        AggressiveOrderType::TraderIntersectingLimitOrder,
        AggressiveOrderType::HistoryIntersectingLimitOrder,
    ];
    let of_trader = [true, false, true, false];
    for (kind, trader) in kinds.into_iter().zip(of_trader) {
        assert_eq!(MatchingEngine::is_trader_aggressive_order(kind), trader);
        assert_eq!(passing.react_with_history_limit_orders(kind), trader);
        assert!(taking.react_with_history_limit_orders(kind));
    }
}

#[test]
fn size_of_a_level_is_capped_at_the_largest_size() {
    let level = OrderBookLevel {
        price: Price(1),
        queue: vec![
            OrderBookEntry { order_id: OrderID(1), size: Size(u64::MAX - 1), from: OrderOrigin::History },
            OrderBookEntry { order_id: OrderID(2), size: Size(5), from: OrderOrigin::History },
        ],
    };
    assert_eq!(level.get_ob_level_size(), Size(u64::MAX));
    let small = OrderBookLevel {
        price: Price(1),
        queue: vec![
            OrderBookEntry { order_id: OrderID(1), size: Size(7), from: OrderOrigin::History },
            OrderBookEntry { order_id: OrderID(2), size: Size(5), from: OrderOrigin::Trader },
        ],
    };
    assert_eq!(small.get_ob_level_size(), Size(12));
}

#[test]
fn tape_limit_that_crosses_orders_of_the_trader_only_leaves_no_crossed_book() {
    let mut engine = engine(false, false, false);
    engine.submit_limit_order(LimitOrder::new(OrderID(11), Size(3), Direction::Sell, Price(100)));
    engine.submit_limit_order(LimitOrder::new(OrderID(12), Size(2), Direction::Sell, Price(101)));
    engine.handle_prl_event(Size(4), Direction::Sell, Price(103), OrderID(3));
    engine.replies.clear();
    engine.handle_prl_event(Size(10), Direction::Buy, Price(101), OrderID(500));
    assert_eq!(
        engine.replies,
        vec![
            ExchangeReply::OrderExecuted(OrderID(11), Size(3), Price(100)),
            ExchangeReply::OrderExecuted(OrderID(12), Size(2), Price(101)),
        ]
    );
    assert_eq!(entries(&engine.bids), vec![(101, vec![(500, 5, OrderOrigin::History)])]);
    assert_eq!(entries(&engine.asks), vec![(103, vec![(3, 4, OrderOrigin::History)])]);
    assert_eq!(pending_ids(&engine), Vec::<u64>::new());
    assert_eq!(history_ids(&engine), vec![3, 500]);
}

#[test]
fn resting_order_keeps_its_place_with_what_is_left_of_it() {
    let mut engine = engine(false, false, false);
    engine.handle_prl_event(Size(4), Direction::Sell, Price(100), OrderID(1));
    engine.submit_limit_order(LimitOrder::new(OrderID(7), Size(5), Direction::Sell, Price(100)));
    engine.submit_limit_order(LimitOrder::new(OrderID(8), Size(2), Direction::Sell, Price(100)));
    engine.replies.clear();
    engine.handle_trd_event(Size(6), Direction::Buy);
    assert_eq!(
        engine.replies,
        vec![ExchangeReply::OrderPartiallyExecuted(OrderID(7), Size(2), Price(100))]
    );
    assert_eq!(
        entries(&engine.asks),
        vec![(
            100,
            vec![
                (1, 4, OrderOrigin::History),
                (7, 3, OrderOrigin::Trader),
                (8, 2, OrderOrigin::Trader),
            ]
        )]
    );
    engine.replies.clear();
    engine.handle_trd_event(Size(8), Direction::Buy);
    assert_eq!(
        engine.replies,
        vec![
            ExchangeReply::OrderExecuted(OrderID(7), Size(3), Price(100)),
            ExchangeReply::OrderPartiallyExecuted(OrderID(8), Size(1), Price(100)),
        ]
    );
    assert_eq!(
        entries(&engine.asks),
        vec![(100, vec![(1, 4, OrderOrigin::History), (8, 1, OrderOrigin::Trader)])]
    );
    assert_eq!(pending_ids(&engine), vec![8]);
}

#[test]
fn tape_limit_under_the_identifier_of_a_pending_limit_leaves_the_pending_limits_alone() {
    let mut engine = engine(false, false, false);
    engine.submit_limit_order(LimitOrder::new(OrderID(7), Size(5), Direction::Buy, Price(99)));
    engine.handle_prl_event(Size(4), Direction::Sell, Price(105), OrderID(7));
    assert_eq!(pending_ids(&engine), vec![7]);
    assert_eq!(
        engine.trader_pending_limit_orders.get(&7),
        Some(&(Price(99), Direction::Buy))
    );
    assert_eq!(count_entries(&engine, 7, OrderOrigin::Trader), 1);
    assert_eq!(count_entries(&engine, 7, OrderOrigin::History), 1);
    assert_eq!(entries(&engine.bids), vec![(99, vec![(7, 5, OrderOrigin::Trader)])]);
    assert_eq!(entries(&engine.asks), vec![(105, vec![(7, 4, OrderOrigin::History)])]);
}

#[test]
fn tape_limit_that_uses_up_an_order_of_the_same_identifier_reports_it_once() {
    let mut engine = engine(false, false, false);
    engine.submit_limit_order(LimitOrder::new(OrderID(7), Size(3), Direction::Sell, Price(100)));
    engine.replies.clear();
    engine.handle_prl_event(Size(5), Direction::Buy, Price(100), OrderID(7));
    assert_eq!(
        engine.replies,
        vec![ExchangeReply::OrderExecuted(OrderID(7), Size(3), Price(100))]
    );
    assert_eq!(count_entries(&engine, 7, OrderOrigin::Trader), 0);
    assert_eq!(pending_ids(&engine), Vec::<u64>::new());
    assert!(engine.trader_pending_market_orders.is_empty());
    assert_eq!(entries(&engine.bids), vec![(100, vec![(7, 2, OrderOrigin::History)])]);
    assert_eq!(entries(&engine.asks), vec![]);
}
