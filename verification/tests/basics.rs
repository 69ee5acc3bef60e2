use exchange_backtester::exchange::book::{
    collect_orders_of, consume_book_side, crossing_size, find_entry, find_level, price_crosses,
    price_is_better, remove_entry, resize_entry, rest_on_side, snapshot_side, Fill,
};
use exchange_backtester::exchange::matching::{prematch_pending, sort_ascending, Pairing};
use exchange_backtester::exchange::trades::history::{OrderBookDiff, TradesHistory};
use exchange_backtester::exchange::types::{OrderBookEntry, OrderBookLevel};
use exchange_backtester::history::types::OrderOrigin;
use exchange_backtester::message::{CancellationReason, ExchangeReply};
use exchange_backtester::order::{LimitOrder, MarketOrder};
use exchange_backtester::types::{DateTime, Direction, NanoSeconds, OrderID, Price, Size};

fn entry(id: u64, size: u64, from: OrderOrigin) -> OrderBookEntry {
    OrderBookEntry { order_id: OrderID(id), size: Size(size), from }
}

fn level(price: i64, queue: Vec<OrderBookEntry>) -> OrderBookLevel {
    OrderBookLevel { price: Price(price), queue }
}

fn asks() -> Vec<OrderBookLevel> {
    vec![
        level(101, vec![entry(1, 3, OrderOrigin::History), entry(2, 2, OrderOrigin::Trader)]),
        level(102, vec![entry(3, 4, OrderOrigin::History)]),
        level(104, vec![entry(4, 1, OrderOrigin::Trader), entry(5, 6, OrderOrigin::History)]),
    ]
}

fn shape(side: &Vec<OrderBookLevel>) -> Vec<(i64, Vec<(u64, u64)>)> {
    side.iter()
        .map(|level| (level.price.0, level.queue.iter().map(|e| (e.order_id.0, e.size.0)).collect()))
        .collect()
}

#[test]
fn directions_and_orders() {
    assert_eq!(Direction::Buy.opposite(), Direction::Sell);
    assert_eq!(Direction::Sell.opposite(), Direction::Buy);
    let market = MarketOrder::new(OrderID(1), Size(2), Direction::Sell);
    assert_eq!(
        (market.get_order_id(), market.get_order_size(), market.get_order_direction()),
        (OrderID(1), Size(2), Direction::Sell)
    );
    let limit = LimitOrder::new(OrderID(3), Size(4), Direction::Buy, Price(-5));
    assert_eq!(
        (
            limit.get_order_id(),
            limit.get_order_size(),
            limit.get_order_direction(),
            limit.get_price()
        ),
        (OrderID(3), Size(4), Direction::Buy, Price(-5))
    );
    assert_eq!(ExchangeReply::OrderAccepted(OrderID(9)).order_id(), OrderID(9));
    assert_eq!(
        ExchangeReply::OrderCancelled(OrderID(8), CancellationReason::TraderRequested).order_id(),
        OrderID(8)
    );
    assert_eq!(NanoSeconds::new(5).map(|ns| ns.get()), Some(5));
    assert!(NanoSeconds::new(0).is_none());
}

#[test]
fn executions_are_buffered_until_they_are_handed_out() {
    let trade = |at| OrderBookDiff {
        datetime: DateTime(at),
        price: Price(1),
        size: Size(2),
        direction: Direction::Buy,
    };
    let mut trades = TradesHistory::new();
    assert_eq!(trades.yield_trade_info(), vec![]);
    trades.push(trade(1));
    trades.push(trade(2));
    assert_eq!(trades.yield_trade_info(), vec![trade(1), trade(2)]);
    assert_eq!(trades.yield_trade_info(), vec![]);
    trades.push(trade(3));
    assert_eq!(trades.yield_trade_info(), vec![trade(3)]);
}

#[test]
fn prices_are_compared_by_side() {
    assert!(price_is_better(Price(5), Price(4), Direction::Buy));
    assert!(!price_is_better(Price(4), Price(4), Direction::Buy));
    assert!(price_is_better(Price(3), Price(4), Direction::Sell));
    assert!(!price_is_better(Price(5), Price(4), Direction::Sell));
    assert!(price_crosses(Price(4), Price(4), Direction::Buy));
    assert!(price_crosses(Price(3), Price(4), Direction::Buy));
    assert!(!price_crosses(Price(5), Price(4), Direction::Buy));
    assert!(price_crosses(Price(5), Price(4), Direction::Sell));
    assert!(!price_crosses(Price(3), Price(4), Direction::Sell));
}

#[test]
fn crossing_size_is_the_volume_of_the_levels_that_a_limit_crosses() {
    let asks = asks();
    assert_eq!(crossing_size(&asks, Price(100), Direction::Buy), Size(0));
    assert_eq!(crossing_size(&asks, Price(101), Direction::Buy), Size(5));
    assert_eq!(crossing_size(&asks, Price(103), Direction::Buy), Size(9));
    assert_eq!(crossing_size(&asks, Price(104), Direction::Buy), Size(16));
    assert_eq!(crossing_size(&vec![], Price(104), Direction::Buy), Size(0));
    let bids = vec![level(99, vec![entry(1, u64::MAX, OrderOrigin::History)]), level(98, vec![entry(2, 7, OrderOrigin::History)])];
    assert_eq!(crossing_size(&bids, Price(99), Direction::Sell), Size(u64::MAX));
    assert_eq!(crossing_size(&bids, Price(98), Direction::Sell), Size(u64::MAX));
    assert_eq!(crossing_size(&bids, Price(100), Direction::Sell), Size(0));
}

#[test]
fn aggressor_takes_from_a_side_in_price_then_time_priority() {
    let fill = |id, from, price, size, resting_done, aggressor_done| Fill {
        order_id: OrderID(id),
        from,
        price: Price(price),
        size: Size(size),
        resting_done,
        aggressor_done,
    };
    // Debiting the tape: entries leave as they are used up.
    let mut side = asks();
    let mut fills = Vec::new();
    assert_eq!(consume_book_side(&mut side, 7, true, &mut fills), 0);
    assert_eq!(shape(&side), vec![(102, vec![(3, 2)]), (104, vec![(4, 1), (5, 6)])]);
    assert_eq!(
        fills,
        vec![
            fill(1, OrderOrigin::History, 101, 3, true, false),
            fill(2, OrderOrigin::Trader, 101, 2, true, false),
            fill(3, OrderOrigin::History, 102, 2, false, true),
        ]
    );
    // Passing the tape: only the trader's entries are debited.
    let mut side = asks();
    let mut fills = Vec::new();
    assert_eq!(consume_book_side(&mut side, 9, false, &mut fills), 0);
    assert_eq!(shape(&side), vec![(101, vec![(1, 3)]), (102, vec![(3, 4)]), (104, vec![(4, 1), (5, 6)])]);
    assert_eq!(fills.len(), 3);
    assert_eq!(fills[2], fill(3, OrderOrigin::History, 102, 4, true, true));
    // More than the side can serve.
    let mut side = asks();
    let mut fills = Vec::new();
    assert_eq!(consume_book_side(&mut side, 20, true, &mut fills), 4);
    assert!(side.is_empty());
    assert_eq!(fills.len(), 5);
    assert!(fills.iter().all(|fill| fill.resting_done && !fill.aggressor_done));
    // Nothing to take, nothing taken.
    let mut side = asks();
    let mut fills = Vec::new();
    assert_eq!(consume_book_side(&mut side, 0, true, &mut fills), 0);
    assert_eq!(shape(&side), shape(&asks()));
    assert!(fills.is_empty());
}

#[test]
fn orders_rest_leave_and_change_size_at_their_price() {
    let mut side = asks();
    rest_on_side(&mut side, Direction::Sell, Price(103), entry(9, 5, OrderOrigin::Trader));
    rest_on_side(&mut side, Direction::Sell, Price(102), entry(10, 1, OrderOrigin::Trader));
    rest_on_side(&mut side, Direction::Sell, Price(100), entry(11, 1, OrderOrigin::Trader));
    rest_on_side(&mut side, Direction::Sell, Price(200), entry(12, 1, OrderOrigin::Trader));
    assert_eq!(
        shape(&side),
        vec![
            (100, vec![(11, 1)]),
            (101, vec![(1, 3), (2, 2)]),
            (102, vec![(3, 4), (10, 1)]),
            (103, vec![(9, 5)]),
            (104, vec![(4, 1), (5, 6)]),
            (200, vec![(12, 1)]),
        ]
    );
    assert_eq!(find_level(&side, Price(103)), 3);
    assert_eq!(find_level(&side, Price(105)), 6);
    assert_eq!(find_entry(&side[1].queue, OrderID(2), OrderOrigin::Trader), 1);
    assert_eq!(find_entry(&side[1].queue, OrderID(2), OrderOrigin::History), 2);
    assert!(!remove_entry(&mut side, Price(101), OrderID(3), OrderOrigin::History));
    assert!(!remove_entry(&mut side, Price(101), OrderID(1), OrderOrigin::Trader));
    assert!(remove_entry(&mut side, Price(101), OrderID(1), OrderOrigin::History));
    assert!(remove_entry(&mut side, Price(103), OrderID(9), OrderOrigin::Trader));
    assert!(resize_entry(&mut side, Price(104), OrderID(5), OrderOrigin::History, Size(2)));
    assert!(!resize_entry(&mut side, Price(104), OrderID(6), OrderOrigin::History, Size(2)));
    assert_eq!(
        shape(&side),
        vec![
            (100, vec![(11, 1)]),
            (101, vec![(2, 2)]),
            (102, vec![(3, 4), (10, 1)]),
            (104, vec![(4, 1), (5, 2)]),
            (200, vec![(12, 1)]),
        ]
    );
    let mut bids = Vec::new();
    for price in [10, 12, 11, 12] {
        rest_on_side(&mut bids, Direction::Buy, Price(price), entry(price as u64, 1, OrderOrigin::History));
    }
    assert_eq!(shape(&bids), vec![(12, vec![(12, 1), (12, 1)]), (11, vec![(11, 1)]), (10, vec![(10, 1)])]);
}

#[test]
fn snapshot_shows_the_best_levels_with_their_volumes() {
    let show = |depth| -> Vec<(i64, u64)> {
        snapshot_side(&asks(), depth).iter().map(|(price, size)| (price.0, size.0)).collect()
    };
    assert_eq!(show(0), vec![]);
    assert_eq!(show(2), vec![(101, 5), (102, 4)]);
    assert_eq!(show(3), vec![(101, 5), (102, 4), (104, 7)]);
    assert_eq!(show(usize::MAX), vec![(101, 5), (102, 4), (104, 7)]);
    let mut found = vec![OrderID(0)];
    collect_orders_of(&asks(), OrderOrigin::Trader, &mut found);
    assert_eq!(found, vec![OrderID(0), OrderID(2), OrderID(4)]);
    collect_orders_of(&asks(), OrderOrigin::History, &mut found);
    assert_eq!(found.len(), 6);
}

#[test]
fn identifiers_are_sorted_with_repetitions_kept() {
    let ids: Vec<OrderID> = [5u64, 1, 9, 1, 0, 7, 5].into_iter().map(OrderID).collect();
    let sorted: Vec<u64> = sort_ascending(&ids).into_iter().map(|id| id.0).collect();
    assert_eq!(sorted, vec![0, 1, 1, 5, 5, 7, 9]);
    assert_eq!(sort_ascending(&vec![]), vec![]);
}

#[test]
fn limit_meets_the_waiting_market_orders_of_the_other_direction() {
    let mut pending = vec![
        MarketOrder::new(OrderID(1), Size(2), Direction::Buy),
        MarketOrder::new(OrderID(2), Size(3), Direction::Sell),
        MarketOrder::new(OrderID(3), Size(4), Direction::Buy),
    ];
    let mut pairings = Vec::new();
    assert_eq!(prematch_pending(&mut pending, Direction::Sell, 5, &mut pairings), 0);
    assert_eq!(
        pending,
        vec![
            MarketOrder::new(OrderID(2), Size(3), Direction::Sell),
            MarketOrder::new(OrderID(3), Size(1), Direction::Buy),
        ]
    );
    assert_eq!(
        pairings,
        vec![
            Pairing {
                order_id: OrderID(1),
                direction: Direction::Buy,
                size: Size(2),
                pending_done: true,
                order_done: false,
            },
            Pairing {
                order_id: OrderID(3),
                direction: Direction::Buy,
                size: Size(3),
                pending_done: false,
                order_done: true,
            },
        ]
    );
    let mut pairings = Vec::new();
    assert_eq!(prematch_pending(&mut pending, Direction::Sell, 9, &mut pairings), 8);
    assert_eq!(pending, vec![MarketOrder::new(OrderID(2), Size(3), Direction::Sell)]);
    assert_eq!(pairings.len(), 1);
    assert!(pairings[0].pending_done && !pairings[0].order_done);
}
