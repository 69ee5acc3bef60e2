//! What holds of the engine between events, whatever the trader and the tape do.
//!
//! [`consistent`] gathers the invariants of the book and of what the engine
//! knows about the orders in it. The laws below say that a new engine is
//! consistent, that every operation keeps an engine consistent, and what a
//! consistent engine guarantees about a single order.

use vstd::prelude::*;
use crate::exchange::book::{
    consume_side, crossed_levels, crosses, crossing_volume, is_better, place_on_side, side_holds,
    Fill,
};
use crate::exchange::book_laws::{
    crossed_are_debited, fill_counts, fills_taken, law_place_then_remove, lemma_consume_side_best,
    lemma_consume_side_counts, lemma_consume_side_takes_crossed, lemma_consume_side_wf,
    lemma_counted_is_held, lemma_place_best, lemma_place_counts, lemma_place_wf, lemma_remove_best,
    lemma_remove_counts, lemma_remove_wf, lemma_resize_best, lemma_resize_counts, lemma_resize_wf,
    level_counts, side_count, side_wf,
};
use crate::exchange::matching::{
    accept, aggress, apply_fills, apply_pairings, ascending, cancel_limit, cleanup, close_session,
    cross_and_rest, crossing_kind, handle_history, handle_request, handle_trd, insert_limit,
    market_kind, open_session, placement_refusal, prematch, remove_prl, rest_order, submit_limit,
    submit_market, takes_history, tape_trade, update_prl, AggressiveOrderType, Diagnostic,
    DiagnosticKind, EngineView, Pairing,
};
use crate::exchange::resting::{lemma_aggress_limits_rest, lemma_rest_limits_rest};
use crate::exchange::sums::{
    first_index, lemma_first_index_found, lemma_sum_insert, lemma_sum_monotone, sum_over,
};
use crate::exchange::types::{LevelView, OrderBookEntry};
use crate::history::types::{HistoryEventBody, OrderOrigin};
use crate::message::{DiscardingReason, ExchangeReply, TraderRequest};
use crate::order::{LimitOrder, MarketOrder};
use crate::types::{Direction, OrderID, Price, Size};

verus! {

/// The number of entries that the given order of the given owner has in the book.
pub open spec fn entries_of(state: EngineView, order_id: OrderID, from: OrderOrigin) -> nat {
    side_count(state.bids, None, order_id, from) + side_count(state.asks, None, order_id, from)
}

/// Whether both sides are in order: bids strictly descending, asks strictly
/// ascending, no level empty, no entry without lots.
pub open spec fn book_in_order(state: EngineView) -> bool {
    side_wf(state.bids, Direction::Buy) && side_wf(state.asks, Direction::Sell)
}

/// Whether the orders of the tape that the engine knows are exactly those
/// that rest in the book, each with one entry.
pub open spec fn history_tracked(state: EngineView) -> bool {
    forall|raw: u64|
        #[trigger] entries_of(state, OrderID(raw), OrderOrigin::History)
            == if state.history_order_ids.contains(raw) {
            1nat
        } else {
            0nat
        }
}

/// Whether the pending limits of the trader are exactly the trader's orders
/// that rest in the book, each with one entry, which stands on the side and
/// at the price that the engine has noted for it.
pub open spec fn limits_tracked(state: EngineView) -> bool {
    forall|raw: u64|
        if state.pending_limits.contains_key(raw) {
            &&& #[trigger] entries_of(state, OrderID(raw), OrderOrigin::Trader) == 1
            &&& side_count(
                state.side(state.pending_limits[raw].1),
                Some(state.pending_limits[raw].0),
                OrderID(raw),
                OrderOrigin::Trader,
            ) == 1
            &&& state.submitted.contains(raw)
        } else {
            entries_of(state, OrderID(raw), OrderOrigin::Trader) == 0
        }
}

/// Whether nothing rests, waits or is remembered.
pub open spec fn quiet(state: EngineView) -> bool {
    &&& state.bids.len() == 0
    &&& state.asks.len() == 0
    &&& state.history_order_ids == Set::<u64>::empty()
    &&& state.pending_markets.len() == 0
    &&& state.pending_limits == Map::<u64, (Price, Direction)>::empty()
    &&& state.submitted == Set::<u64>::empty()
}

/// The invariants of the engine.
pub open spec fn consistent(state: EngineView) -> bool {
    &&& book_in_order(state)
    &&& history_tracked(state)
    &&& limits_tracked(state)
    &&& state.closed ==> quiet(state)
}

/// Accounting for fills touches nothing but the trades, the replies and what
/// the engine knows of the orders that the fills took out of the book.
pub proof fn lemma_apply_fills(
    state: EngineView,
    fills: Seq<Fill>,
    order: MarketOrder,
    kind: AggressiveOrderType,
)
    ensures
        ({
            let after = apply_fills(state, fills, order, kind);
            let take_history = takes_history(kind, state.trade_updates_book);
            &&& after.bids == state.bids
            &&& after.asks == state.asks
            &&& after.submitted == state.submitted
            &&& after.pending_markets == state.pending_markets
            &&& after.diagnostics == state.diagnostics
            &&& after.closed == state.closed
            &&& after.now == state.now
            &&& after.debug == state.debug
            &&& after.trade_updates_book == state.trade_updates_book
            &&& after.record_trades == state.record_trades
            &&& forall|raw: u64|
                #[trigger] after.history_order_ids.contains(raw) <==> state.history_order_ids.contains(
                    raw,
                ) && fills_taken(fills, None, OrderID(raw), OrderOrigin::History, take_history) == 0
            &&& forall|raw: u64|
                #[trigger] after.pending_limits.contains_key(raw)
                    <==> state.pending_limits.contains_key(raw) && fills_taken(
                    fills,
                    None,
                    OrderID(raw),
                    OrderOrigin::Trader,
                    take_history,
                ) == 0
            &&& forall|raw: u64|
                #[trigger] after.pending_limits.contains_key(raw) ==> after.pending_limits[raw]
                    == state.pending_limits[raw]
        }),
    decreases fills.len(),
{
    if fills.len() > 0 {
        lemma_apply_fills(state, fills.drop_last(), order, kind);
    }
}

/// An aggressor keeps the engine consistent.
pub proof fn lemma_aggress_consistent(state: EngineView, order: MarketOrder, kind: AggressiveOrderType)
    requires
        consistent(state),
        !state.closed,
    ensures
        consistent(aggress(state, order, kind)),
{
    let opposite = order.direction.spec_opposite();
    let take_history = takes_history(kind, state.trade_updates_book);
    let outcome = consume_side(state.side(opposite), order.size.0, take_history);
    let emptied = state.with_side(opposite, outcome.levels);
    let accounted = apply_fills(emptied, outcome.fills, order, kind);
    let after = aggress(state, order, kind);
    lemma_apply_fills(emptied, outcome.fills, order, kind);
    lemma_consume_side_wf(state.side(opposite), order.size.0, take_history, opposite);
    assert(after.bids == accounted.bids && after.asks == accounted.asks);
    assert(after.history_order_ids == accounted.history_order_ids);
    assert(after.pending_limits == accounted.pending_limits);
    assert(after.submitted == accounted.submitted);
    assert forall|raw: u64|
        #[trigger] entries_of(after, OrderID(raw), OrderOrigin::History)
            == if after.history_order_ids.contains(raw) {
            1nat
        } else {
            0nat
        } by {
        lemma_consume_side_counts(
            state.side(opposite),
            order.size.0,
            take_history,
            None,
            OrderID(raw),
            OrderOrigin::History,
        );
        assert(entries_of(state, OrderID(raw), OrderOrigin::History)
            == if state.history_order_ids.contains(raw) {
            1nat
        } else {
            0nat
        });
    }
    lemma_aggress_limits_rest(state, order, kind);
    assert forall|raw: u64| #[trigger]
        after.pending_limits.contains_key(raw) implies after.submitted.contains(raw) by {
        assert(entries_of(state, OrderID(raw), OrderOrigin::Trader) >= 0);
    }
    assert(limits_tracked(after));
}

/// The fills that took an order out of the book at one price are among those that took it out at all.
pub proof fn lemma_fills_taken_at_most(
    fills: Seq<Fill>,
    at: Option<Price>,
    order_id: OrderID,
    from: OrderOrigin,
    take_history: bool,
)
    ensures
        fills_taken(fills, at, order_id, from, take_history) <= fills_taken(
            fills,
            None,
            order_id,
            from,
            take_history,
        ),
{
    lemma_sum_monotone(
        fills,
        fill_counts(at, order_id, from, take_history),
        fill_counts(None, order_id, from, take_history),
    );
}

/// Whether two states have the same book and know the same about the orders in it.
pub open spec fn same_book(a: EngineView, b: EngineView) -> bool {
    &&& a.bids == b.bids
    &&& a.asks == b.asks
    &&& a.history_order_ids == b.history_order_ids
    &&& a.pending_limits == b.pending_limits
    &&& a.submitted == b.submitted
    &&& a.closed == b.closed
    &&& a.pending_markets.len() == 0 ==> b.pending_markets.len() == 0
}

/// Consistency speaks of the book and of what the engine knows about the orders in it, of nothing else.
pub proof fn lemma_same_book_consistent(a: EngineView, b: EngineView)
    requires
        same_book(a, b),
        consistent(a),
    ensures
        consistent(b),
{
    assert forall|raw: u64|
        #[trigger] entries_of(b, OrderID(raw), OrderOrigin::History)
            == if b.history_order_ids.contains(raw) {
            1nat
        } else {
            0nat
        } by {
        assert(entries_of(a, OrderID(raw), OrderOrigin::History) == entries_of(
            b,
            OrderID(raw),
            OrderOrigin::History,
        ));
    }
    assert forall|raw: u64|
        if b.pending_limits.contains_key(raw) {
            &&& #[trigger] entries_of(b, OrderID(raw), OrderOrigin::Trader) == 1
            &&& side_count(
                b.side(b.pending_limits[raw].1),
                Some(b.pending_limits[raw].0),
                OrderID(raw),
                OrderOrigin::Trader,
            ) == 1
            &&& b.submitted.contains(raw)
        } else {
            entries_of(b, OrderID(raw), OrderOrigin::Trader) == 0
        } by {
        assert(entries_of(a, OrderID(raw), OrderOrigin::Trader) == entries_of(
            b,
            OrderID(raw),
            OrderOrigin::Trader,
        ));
        assert(a.side(a.pending_limits[raw].1) == b.side(b.pending_limits[raw].1));
    }
}

/// Accounting for pairings touches nothing but the trades and the replies.
pub proof fn lemma_apply_pairings(
    state: EngineView,
    pairings: Seq<Pairing>,
    order: LimitOrder,
    origin: OrderOrigin,
)
    ensures
        same_book(state, apply_pairings(state, pairings, order, origin)),
        apply_pairings(state, pairings, order, origin).pending_markets == state.pending_markets,
        apply_pairings(state, pairings, order, origin).diagnostics == state.diagnostics,
        apply_pairings(state, pairings, order, origin).now == state.now,
        apply_pairings(state, pairings, order, origin).debug == state.debug,
        apply_pairings(state, pairings, order, origin).trade_updates_book
            == state.trade_updates_book,
        apply_pairings(state, pairings, order, origin).record_trades == state.record_trades,
    decreases pairings.len(),
{
    if pairings.len() > 0 {
        lemma_apply_pairings(state, pairings.drop_last(), order, origin);
    }
}

/// An aggressor leaves alone what the trader submitted, and brings no order into the book.
pub proof fn lemma_aggress_frame(state: EngineView, order: MarketOrder, kind: AggressiveOrderType)
    ensures
        ({
            let after = aggress(state, order, kind);
            &&& after.submitted == state.submitted
            &&& after.closed == state.closed
            &&& after.now == state.now
            &&& after.debug == state.debug
            &&& after.trade_updates_book == state.trade_updates_book
            &&& after.record_trades == state.record_trades
            &&& after.side(order.direction) == state.side(order.direction)
            &&& after.side(order.direction.spec_opposite()) == consume_side(
                state.side(order.direction.spec_opposite()),
                order.size.0,
                takes_history(kind, state.trade_updates_book),
            ).levels
            &&& forall|raw: u64|
                #[trigger] after.history_order_ids.contains(raw)
                    ==> state.history_order_ids.contains(raw)
            &&& forall|raw: u64|
                #[trigger] after.pending_limits.contains_key(raw)
                    ==> state.pending_limits.contains_key(raw)
        }),
{
    let opposite = order.direction.spec_opposite();
    let take_history = takes_history(kind, state.trade_updates_book);
    let outcome = consume_side(state.side(opposite), order.size.0, take_history);
    let emptied = state.with_side(opposite, outcome.levels);
    lemma_apply_fills(emptied, outcome.fills, order, kind);
}

/// An order with lots that the engine does not know yet keeps the engine
/// consistent when it comes to rest.
pub proof fn lemma_rest_consistent(
    state: EngineView,
    order_id: OrderID,
    size: Size,
    direction: Direction,
    price: Price,
    origin: OrderOrigin,
)
    requires
        consistent(state),
        !state.closed,
        size.0 > 0,
        origin == OrderOrigin::History ==> !state.history_order_ids.contains(order_id.0),
        origin == OrderOrigin::Trader ==> !state.pending_limits.contains_key(order_id.0)
            && state.submitted.contains(order_id.0),
    ensures
        consistent(rest_order(state, order_id, size, direction, price, origin)),
{
    let entry = OrderBookEntry { order_id, size, from: origin };
    let after = rest_order(state, order_id, size, direction, price, origin);
    lemma_place_wf(state.side(direction), direction, price, entry);
    assert forall|raw: u64|
        #[trigger] entries_of(after, OrderID(raw), OrderOrigin::History)
            == if after.history_order_ids.contains(raw) {
            1nat
        } else {
            0nat
        } by {
        lemma_place_counts(
            state.side(direction),
            direction,
            price,
            entry,
            None,
            OrderID(raw),
            OrderOrigin::History,
        );
        assert(entries_of(state, OrderID(raw), OrderOrigin::History)
            == if state.history_order_ids.contains(raw) {
            1nat
        } else {
            0nat
        });
    }
    lemma_rest_limits_rest(state, order_id, size, direction, price, origin);
    assert forall|raw: u64| #[trigger]
        after.pending_limits.contains_key(raw) implies after.submitted.contains(raw) by {
        assert(entries_of(state, OrderID(raw), OrderOrigin::Trader) >= 0);
    }
    assert(limits_tracked(after));
}

/// A limit with lots that the engine does not know yet keeps the engine
/// consistent, whatever it crosses.
pub proof fn lemma_cross_and_rest_consistent(
    state: EngineView,
    order: LimitOrder,
    origin: OrderOrigin,
    amount: u64,
)
    requires
        consistent(state),
        !state.closed,
        origin == OrderOrigin::History ==> !state.history_order_ids.contains(order.order_id.0),
        origin == OrderOrigin::Trader ==> !state.pending_limits.contains_key(order.order_id.0)
            && state.submitted.contains(order.order_id.0),
    ensures
        consistent(cross_and_rest(state, order, origin, amount)),
{
    let crossing = crossing_volume(
        state.side(order.direction.spec_opposite()),
        order.price,
        order.direction,
    );
    if amount == 0 {
    } else if crossing >= amount {
        lemma_aggress_consistent(
            state,
            MarketOrder { order_id: order.order_id, size: Size(amount), direction: order.direction },
            market_kind(origin),
        );
    } else {
        let part = MarketOrder {
            order_id: order.order_id,
            size: Size(crossing as u64),
            direction: order.direction,
        };
        let crossed = if crossing == 0 {
            state
        } else {
            aggress(state, part, crossing_kind(origin))
        };
        if crossing != 0 {
            lemma_aggress_consistent(state, part, crossing_kind(origin));
            lemma_aggress_frame(state, part, crossing_kind(origin));
        }
        lemma_rest_consistent(
            crossed,
            order.order_id,
            Size((amount - crossing) as u64),
            order.direction,
            order.price,
            origin,
        );
    }
}

/// A limit that the engine does not know yet keeps the engine consistent.
pub proof fn lemma_insert_limit_consistent(state: EngineView, order: LimitOrder, origin: OrderOrigin)
    requires
        consistent(state),
        !state.closed,
        origin == OrderOrigin::History ==> !state.history_order_ids.contains(order.order_id.0),
        origin == OrderOrigin::Trader ==> !state.pending_limits.contains_key(order.order_id.0)
            && state.submitted.contains(order.order_id.0),
    ensures
        consistent(insert_limit(state, order, origin)),
{
    let met = prematch(state.pending_markets, order.direction, order.size.0);
    let unpaired = EngineView { pending_markets: met.pending, ..state };
    let paired = apply_pairings(unpaired, met.pairings, order, origin);
    lemma_apply_pairings(unpaired, met.pairings, order, origin);
    lemma_same_book_consistent(state, paired);
    lemma_cross_and_rest_consistent(paired, order, origin, met.remaining);
}

/// An order of the tape that leaves keeps the engine consistent.
pub proof fn lemma_remove_prl_consistent(
    state: EngineView,
    direction: Direction,
    price: Price,
    order_id: OrderID,
)
    requires
        consistent(state),
    ensures
        consistent(remove_prl(state, direction, price, order_id)),
{
    let after = remove_prl(state, direction, price, order_id);
    if side_holds(state.side(direction), price, order_id, OrderOrigin::History) {
        lemma_remove_wf(state.side(direction), direction, price, order_id, OrderOrigin::History);
        assert forall|raw: u64|
            #[trigger] entries_of(after, OrderID(raw), OrderOrigin::History)
                == if after.history_order_ids.contains(raw) {
                1nat
            } else {
                0nat
            } by {
            lemma_remove_counts(
                state.side(direction),
                price,
                order_id,
                OrderOrigin::History,
                None,
                OrderID(raw),
                OrderOrigin::History,
            );
            assert(entries_of(state, OrderID(raw), OrderOrigin::History)
                == if state.history_order_ids.contains(raw) {
                1nat
            } else {
                0nat
            });
        }
        assert forall|raw: u64|
            if after.pending_limits.contains_key(raw) {
                &&& #[trigger] entries_of(after, OrderID(raw), OrderOrigin::Trader) == 1
                &&& side_count(
                    after.side(after.pending_limits[raw].1),
                    Some(after.pending_limits[raw].0),
                    OrderID(raw),
                    OrderOrigin::Trader,
                ) == 1
                &&& after.submitted.contains(raw)
            } else {
                entries_of(after, OrderID(raw), OrderOrigin::Trader) == 0
            } by {
            lemma_remove_counts(
                state.side(direction),
                price,
                order_id,
                OrderOrigin::History,
                None,
                OrderID(raw),
                OrderOrigin::Trader,
            );
            assert(entries_of(state, OrderID(raw), OrderOrigin::Trader)
                == if state.pending_limits.contains_key(raw) {
                1nat
            } else {
                0nat
            });
            if after.pending_limits.contains_key(raw) {
                lemma_remove_counts(
                    state.side(direction),
                    price,
                    order_id,
                    OrderOrigin::History,
                    Some(after.pending_limits[raw].0),
                    OrderID(raw),
                    OrderOrigin::Trader,
                );
            }
        }
    } else {
        lemma_same_book_consistent(state, after);
    }
}

/// A new size, not zero, for an order of the tape keeps the engine consistent.
pub proof fn lemma_update_prl_consistent(
    state: EngineView,
    size: Size,
    direction: Direction,
    price: Price,
    order_id: OrderID,
)
    requires
        consistent(state),
        size.0 > 0,
    ensures
        consistent(update_prl(state, size, direction, price, order_id)),
{
    let after = update_prl(state, size, direction, price, order_id);
    if side_holds(state.side(direction), price, order_id, OrderOrigin::History) {
        lemma_resize_wf(
            state.side(direction),
            direction,
            price,
            order_id,
            OrderOrigin::History,
            size,
        );
        assert forall|raw: u64|
            #[trigger] entries_of(after, OrderID(raw), OrderOrigin::History)
                == if after.history_order_ids.contains(raw) {
                1nat
            } else {
                0nat
            } by {
            lemma_resize_counts(
                state.side(direction),
                price,
                order_id,
                OrderOrigin::History,
                size,
                None,
                OrderID(raw),
                OrderOrigin::History,
            );
            assert(entries_of(state, OrderID(raw), OrderOrigin::History)
                == if state.history_order_ids.contains(raw) {
                1nat
            } else {
                0nat
            });
        }
        assert forall|raw: u64|
            if after.pending_limits.contains_key(raw) {
                &&& #[trigger] entries_of(after, OrderID(raw), OrderOrigin::Trader) == 1
                &&& side_count(
                    after.side(after.pending_limits[raw].1),
                    Some(after.pending_limits[raw].0),
                    OrderID(raw),
                    OrderOrigin::Trader,
                ) == 1
                &&& after.submitted.contains(raw)
            } else {
                entries_of(after, OrderID(raw), OrderOrigin::Trader) == 0
            } by {
            lemma_resize_counts(
                state.side(direction),
                price,
                order_id,
                OrderOrigin::History,
                size,
                None,
                OrderID(raw),
                OrderOrigin::Trader,
            );
            assert(entries_of(state, OrderID(raw), OrderOrigin::Trader)
                == if state.pending_limits.contains_key(raw) {
                1nat
            } else {
                0nat
            });
            if after.pending_limits.contains_key(raw) {
                lemma_resize_counts(
                    state.side(direction),
                    price,
                    order_id,
                    OrderOrigin::History,
                    size,
                    Some(after.pending_limits[raw].0),
                    OrderID(raw),
                    OrderOrigin::Trader,
                );
            }
        }
    } else {
        lemma_same_book_consistent(state, after);
    }
}

/// Every event of the tape keeps the engine consistent.
pub proof fn lemma_history_keeps_consistent(state: EngineView, event: HistoryEventBody)
    requires
        consistent(state),
    ensures
        consistent(handle_history(state, event)),
{
    if !state.closed {
        match event {
            HistoryEventBody::PRL(size, direction, price, order_id) => {
                if size.0 == 0 {
                    lemma_remove_prl_consistent(state, direction, price, order_id);
                } else if state.history_order_ids.contains(order_id.0) {
                    lemma_update_prl_consistent(state, size, direction, price, order_id);
                } else {
                    lemma_insert_limit_consistent(
                        state,
                        LimitOrder { order_id, size, direction, price },
                        OrderOrigin::History,
                    );
                }
            },
            HistoryEventBody::TRD(size, direction) => {
                lemma_aggress_consistent(
                    state,
                    tape_trade(size, direction),
                    AggressiveOrderType::HistoryMarketOrder,
                );
            },
        }
    }
}

/// Every request of the trader keeps the engine consistent.
pub proof fn lemma_request_keeps_consistent(state: EngineView, request: TraderRequest)
    requires
        consistent(state),
    ensures
        consistent(handle_request(state, request)),
{
    let after = handle_request(state, request);
    match request {
        TraderRequest::PlaceLimitOrder(order) => {
            if placement_refusal(state, order.order_id, order.size) is None {
                let accepted = accept(state, order.order_id);
                lemma_accept_consistent(state, order.order_id);
                assert(entries_of(state, order.order_id, OrderOrigin::Trader) >= 0);
                lemma_insert_limit_consistent(accepted, order, OrderOrigin::Trader);
            } else {
                lemma_same_book_consistent(state, after);
            }
        },
        TraderRequest::PlaceMarketOrder(order) => {
            if placement_refusal(state, order.order_id, order.size) is None {
                lemma_accept_consistent(state, order.order_id);
                lemma_aggress_consistent(
                    accept(state, order.order_id),
                    order,
                    AggressiveOrderType::TraderMarketOrder,
                );
            } else {
                lemma_same_book_consistent(state, after);
            }
        },
        TraderRequest::CancelLimitOrder(order_id) => {
            lemma_cancel_limit_consistent(state, order_id);
        },
        TraderRequest::CancelMarketOrder(order_id) => {
            lemma_same_book_consistent(state, after);
        },
    }
}

/// Accepting a placement keeps the engine consistent.
pub proof fn lemma_accept_consistent(state: EngineView, order_id: OrderID)
    requires
        consistent(state),
        !state.closed,
    ensures
        consistent(accept(state, order_id)),
        !state.submitted.contains(order_id.0) ==> !accept(state, order_id).pending_limits.contains_key(
            order_id.0,
        ),
        accept(state, order_id).submitted.contains(order_id.0),
{
    let after = accept(state, order_id);
    assert forall|raw: u64|
        #[trigger] entries_of(after, OrderID(raw), OrderOrigin::History)
            == if after.history_order_ids.contains(raw) {
            1nat
        } else {
            0nat
        } by {
        assert(entries_of(state, OrderID(raw), OrderOrigin::History) == entries_of(
            after,
            OrderID(raw),
            OrderOrigin::History,
        ));
    }
    assert forall|raw: u64|
        if after.pending_limits.contains_key(raw) {
            &&& #[trigger] entries_of(after, OrderID(raw), OrderOrigin::Trader) == 1
            &&& side_count(
                after.side(after.pending_limits[raw].1),
                Some(after.pending_limits[raw].0),
                OrderID(raw),
                OrderOrigin::Trader,
            ) == 1
            &&& after.submitted.contains(raw)
        } else {
            entries_of(after, OrderID(raw), OrderOrigin::Trader) == 0
        } by {
        assert(entries_of(state, OrderID(raw), OrderOrigin::Trader) == entries_of(
            after,
            OrderID(raw),
            OrderOrigin::Trader,
        ));
        assert(state.side(state.pending_limits[raw].1) == after.side(after.pending_limits[raw].1));
    }
    if !state.submitted.contains(order_id.0) {
        assert(entries_of(state, OrderID(order_id.0), OrderOrigin::Trader) >= 0);
    }
}

/// Cancelling a limit keeps the engine consistent.
pub proof fn lemma_cancel_limit_consistent(state: EngineView, order_id: OrderID)
    requires
        consistent(state),
    ensures
        consistent(cancel_limit(state, order_id)),
{
    let after = cancel_limit(state, order_id);
    if !state.closed && state.submitted.contains(order_id.0) && state.pending_limits.contains_key(
        order_id.0,
    ) {
        let (price, direction) = state.pending_limits[order_id.0];
        assert(entries_of(state, OrderID(order_id.0), OrderOrigin::Trader) == 1);
        lemma_counted_is_held(
            state.side(direction),
            direction,
            price,
            order_id,
            OrderOrigin::Trader,
        );
        lemma_remove_wf(state.side(direction), direction, price, order_id, OrderOrigin::Trader);
        assert forall|raw: u64|
            #[trigger] entries_of(after, OrderID(raw), OrderOrigin::History)
                == if after.history_order_ids.contains(raw) {
                1nat
            } else {
                0nat
            } by {
            lemma_remove_counts(
                state.side(direction),
                price,
                order_id,
                OrderOrigin::Trader,
                None,
                OrderID(raw),
                OrderOrigin::History,
            );
            assert(entries_of(state, OrderID(raw), OrderOrigin::History)
                == if state.history_order_ids.contains(raw) {
                1nat
            } else {
                0nat
            });
        }
        assert forall|raw: u64|
            if after.pending_limits.contains_key(raw) {
                &&& #[trigger] entries_of(after, OrderID(raw), OrderOrigin::Trader) == 1
                &&& side_count(
                    after.side(after.pending_limits[raw].1),
                    Some(after.pending_limits[raw].0),
                    OrderID(raw),
                    OrderOrigin::Trader,
                ) == 1
                &&& after.submitted.contains(raw)
            } else {
                entries_of(after, OrderID(raw), OrderOrigin::Trader) == 0
            } by {
            lemma_remove_counts(
                state.side(direction),
                price,
                order_id,
                OrderOrigin::Trader,
                None,
                OrderID(raw),
                OrderOrigin::Trader,
            );
            assert(entries_of(state, OrderID(raw), OrderOrigin::Trader)
                == if state.pending_limits.contains_key(raw) {
                1nat
            } else {
                0nat
            });
            if after.pending_limits.contains_key(raw) {
                lemma_remove_counts(
                    state.side(direction),
                    price,
                    order_id,
                    OrderOrigin::Trader,
                    Some(after.pending_limits[raw].0),
                    OrderID(raw),
                    OrderOrigin::Trader,
                );
            }
        }
    } else {
        lemma_same_book_consistent(state, after);
    }
}

/// An engine without a book, and with nothing noted of orders in it, is
/// consistent where it is open or quiet.
pub proof fn lemma_empty_book_consistent(state: EngineView)
    requires
        state.bids.len() == 0,
        state.asks.len() == 0,
        state.history_order_ids == Set::<u64>::empty(),
        state.pending_limits == Map::<u64, (Price, Direction)>::empty(),
        state.closed ==> quiet(state),
    ensures
        consistent(state),
{
}

/// Opening the venue leaves a consistent engine, if the venue was closed.
pub proof fn lemma_open_session_consistent(state: EngineView)
    requires
        consistent(state),
        state.closed,
    ensures
        consistent(open_session(state)),
        !open_session(state).closed,
{
    lemma_empty_book_consistent(open_session(state));
}

/// Closing the venue leaves a consistent engine in which nothing rests, waits or is remembered.
pub proof fn lemma_close_session_consistent(state: EngineView)
    ensures
        consistent(close_session(state)),
        quiet(close_session(state)),
        close_session(state).closed,
{
    lemma_empty_book_consistent(close_session(state));
}

/// A new engine is consistent.
pub proof fn lemma_new_engine_consistent(state: EngineView)
    requires
        quiet(state),
    ensures
        consistent(state),
{
    lemma_empty_book_consistent(state);
}

/// A pending limit of the trader has exactly one entry in the book, and it
/// is found on the side and at the price that the engine has noted for it.
pub proof fn law_pending_limit_rests_once(state: EngineView, order_id: OrderID)
    requires
        consistent(state),
        state.pending_limits.contains_key(order_id.0),
    ensures
        entries_of(state, order_id, OrderOrigin::Trader) == 1,
        side_count(
            state.side(state.pending_limits[order_id.0].1),
            Some(state.pending_limits[order_id.0].0),
            order_id,
            OrderOrigin::Trader,
        ) == 1,
        side_holds(
            state.side(state.pending_limits[order_id.0].1),
            state.pending_limits[order_id.0].0,
            order_id,
            OrderOrigin::Trader,
        ),
{
    let (price, direction) = state.pending_limits[order_id.0];
    assert(entries_of(state, OrderID(order_id.0), OrderOrigin::Trader) == 1);
    lemma_counted_is_held(state.side(direction), direction, price, order_id, OrderOrigin::Trader);
}

/// An order of the trader that is no pending limit has no entry in the book.
pub proof fn law_only_pending_limits_rest(state: EngineView, order_id: OrderID)
    requires
        consistent(state),
        !state.pending_limits.contains_key(order_id.0),
    ensures
        entries_of(state, order_id, OrderOrigin::Trader) == 0,
{
    assert(entries_of(state, OrderID(order_id.0), OrderOrigin::Trader) == 0);
}

/// An order of the tape that the engine knows has exactly one entry in the
/// book, and one that it does not know has none.
pub proof fn law_history_order_rests_once(state: EngineView, order_id: OrderID)
    requires
        consistent(state),
    ensures
        entries_of(state, order_id, OrderOrigin::History) == if state.history_order_ids.contains(
            order_id.0,
        ) {
            1nat
        } else {
            0nat
        },
{
    assert(entries_of(state, OrderID(order_id.0), OrderOrigin::History)
        == if state.history_order_ids.contains(order_id.0) {
        1nat
    } else {
        0nat
    });
}

/// Whether the best bid is below the best ask, where there are both.
pub open spec fn uncrossed(state: EngineView) -> bool {
    state.bids.len() > 0 && state.asks.len() > 0 ==> state.bids[0].price.0 < state.asks[0].price.0
}

/// An aggressor leaves no crossed book behind.
pub proof fn lemma_aggress_uncrossed(state: EngineView, order: MarketOrder, kind: AggressiveOrderType)
    requires
        book_in_order(state),
        uncrossed(state),
    ensures
        uncrossed(aggress(state, order, kind)),
{
    let opposite = order.direction.spec_opposite();
    lemma_aggress_frame(state, order, kind);
    lemma_consume_side_best(
        state.side(opposite),
        order.size.0,
        takes_history(kind, state.trade_updates_book),
        opposite,
    );
}

/// Whether a limit of the given origin debits every order that its price
/// crosses. A limit of the trader does, and one of the tape where trades
/// update the book; any other limit of the tape does where the levels that it
/// crosses hold no order of the tape.
pub open spec fn debits_what_it_crosses(
    state: EngineView,
    order: LimitOrder,
    origin: OrderOrigin,
) -> bool {
    crossed_are_debited(
        state.side(order.direction.spec_opposite()),
        order.price,
        order.direction,
        takes_history(crossing_kind(origin), state.trade_updates_book),
    )
}

/// A limit that debits whatever it crosses leaves no crossed book behind.
pub proof fn lemma_cross_and_rest_uncrossed(
    state: EngineView,
    order: LimitOrder,
    origin: OrderOrigin,
    amount: u64,
)
    requires
        book_in_order(state),
        uncrossed(state),
        debits_what_it_crosses(state, order, origin),
    ensures
        uncrossed(cross_and_rest(state, order, origin, amount)),
{
    let opposite = order.direction.spec_opposite();
    let facing = state.side(opposite);
    let crossing = crossing_volume(facing, order.price, order.direction);
    if amount == 0 {
    } else if crossing >= amount {
        lemma_aggress_uncrossed(
            state,
            MarketOrder { order_id: order.order_id, size: Size(amount), direction: order.direction },
            market_kind(origin),
        );
    } else {
        let part = MarketOrder {
            order_id: order.order_id,
            size: Size(crossing as u64),
            direction: order.direction,
        };
        let crossed = if crossing == 0 {
            state
        } else {
            aggress(state, part, crossing_kind(origin))
        };
        let through = crossed_levels(facing, order.price, order.direction);
        lemma_consume_side_takes_crossed(
            facing,
            order.price,
            order.direction,
            opposite,
            crossing as u64,
            takes_history(crossing_kind(origin), state.trade_updates_book),
        );
        lemma_first_index_found(
            facing,
            |level: LevelView| !crosses(level.price, order.price, order.direction),
        );
        if crossing != 0 {
            lemma_aggress_frame(state, part, crossing_kind(origin));
        } else {
            assert(facing.skip(0) =~= facing);
        }
        assert(crossed.side(opposite) == facing.skip(through));
        assert(crossed.side(order.direction) == state.side(order.direction));
        let entry = OrderBookEntry {
            order_id: order.order_id,
            size: Size((amount - crossing) as u64),
            from: origin,
        };
        lemma_place_best(state.side(order.direction), order.direction, order.price, entry);
        let after = cross_and_rest(state, order, origin, amount);
        assert(after.side(opposite) == facing.skip(through));
        assert(after.side(order.direction) == place_on_side(
            state.side(order.direction),
            order.direction,
            order.price,
            entry,
        ));
        if facing.skip(through).len() > 0 {
            assert(facing.skip(through)[0] == facing[through]);
            if through > 0 {
                assert(is_better(facing[0].price, facing[through].price, opposite));
            }
        }
    }
}

/// A limit that debits whatever it crosses leaves no crossed book behind:
/// any limit of the trader, any limit of the tape where trades update the
/// book, and elsewhere a limit of the tape that crosses no order of the tape.
pub proof fn lemma_insert_limit_uncrossed(state: EngineView, order: LimitOrder, origin: OrderOrigin)
    requires
        book_in_order(state),
        uncrossed(state),
        debits_what_it_crosses(state, order, origin),
    ensures
        uncrossed(insert_limit(state, order, origin)),
{
    let met = prematch(state.pending_markets, order.direction, order.size.0);
    let unpaired = EngineView { pending_markets: met.pending, ..state };
    let paired = apply_pairings(unpaired, met.pairings, order, origin);
    lemma_apply_pairings(unpaired, met.pairings, order, origin);
    assert(paired.side(order.direction.spec_opposite()) == state.side(
        order.direction.spec_opposite(),
    ));
    lemma_cross_and_rest_uncrossed(paired, order, origin, met.remaining);
}

/// No request of the trader crosses a book that was in order and not crossed.
pub proof fn law_request_keeps_uncrossed(state: EngineView, request: TraderRequest)
    requires
        book_in_order(state),
        uncrossed(state),
    ensures
        uncrossed(handle_request(state, request)),
{
    match request {
        TraderRequest::PlaceLimitOrder(order) => {
            if placement_refusal(state, order.order_id, order.size) is None {
                lemma_insert_limit_uncrossed(
                    accept(state, order.order_id),
                    order,
                    OrderOrigin::Trader,
                );
            }
        },
        TraderRequest::PlaceMarketOrder(order) => {
            if placement_refusal(state, order.order_id, order.size) is None {
                lemma_aggress_uncrossed(
                    accept(state, order.order_id),
                    order,
                    AggressiveOrderType::TraderMarketOrder,
                );
            }
        },
        TraderRequest::CancelLimitOrder(order_id) => {
            if !state.closed && state.submitted.contains(order_id.0)
                && state.pending_limits.contains_key(order_id.0) {
                let (price, direction) = state.pending_limits[order_id.0];
                lemma_remove_best(
                    state.side(direction),
                    direction,
                    price,
                    order_id,
                    OrderOrigin::Trader,
                );
            }
        },
        TraderRequest::CancelMarketOrder(order_id) => {},
    }
}

/// No event of the tape crosses a book that was in order and not crossed,
/// but for one: where trades do not update the book, a new limit of the tape
/// whose price crosses an order of the tape comes to rest beside it, and the
/// book stays crossed until the tape takes that order out. A new limit of the
/// tape that crosses orders of the trader only is covered.
pub proof fn law_history_keeps_uncrossed(state: EngineView, event: HistoryEventBody)
    requires
        book_in_order(state),
        uncrossed(state),
        event matches HistoryEventBody::PRL(size, direction, price, order_id) ==> size.0 == 0
            || state.history_order_ids.contains(order_id.0) || crossed_are_debited(
            state.side(direction.spec_opposite()),
            price,
            direction,
            state.trade_updates_book,
        ),
    ensures
        uncrossed(handle_history(state, event)),
{
    if !state.closed {
        match event {
            HistoryEventBody::PRL(size, direction, price, order_id) => {
                if size.0 == 0 {
                    lemma_remove_best(
                        state.side(direction),
                        direction,
                        price,
                        order_id,
                        OrderOrigin::History,
                    );
                } else if state.history_order_ids.contains(order_id.0) {
                    lemma_resize_best(
                        state.side(direction),
                        price,
                        order_id,
                        OrderOrigin::History,
                        size,
                    );
                } else {
                    lemma_insert_limit_uncrossed(
                        state,
                        LimitOrder { order_id, size, direction, price },
                        OrderOrigin::History,
                    );
                }
            },
            HistoryEventBody::TRD(size, direction) => {
                lemma_aggress_uncrossed(
                    state,
                    tape_trade(size, direction),
                    AggressiveOrderType::HistoryMarketOrder,
                );
            },
        }
    }
}

/// A session boundary leaves no crossed book behind: it leaves no book.
pub proof fn law_session_boundary_uncrossed(state: EngineView, end_of_trades: bool)
    ensures
        uncrossed(cleanup(state, end_of_trades)),
        uncrossed(open_session(state)),
        uncrossed(close_session(state)),
{
}

/// A request of the trader changes neither the clock nor what the engine is set to do.
pub proof fn lemma_request_frame(state: EngineView, request: TraderRequest)
    ensures
        ({
            let after = handle_request(state, request);
            &&& after.now == state.now
            &&& after.debug == state.debug
            &&& after.trade_updates_book == state.trade_updates_book
            &&& after.record_trades == state.record_trades
            &&& after.closed == state.closed
        }),
{
    match request {
        TraderRequest::PlaceLimitOrder(order) => {
            if placement_refusal(state, order.order_id, order.size) is None {
                lemma_insert_limit_frame(accept(state, order.order_id), order, OrderOrigin::Trader);
            }
        },
        TraderRequest::PlaceMarketOrder(order) => {
            if placement_refusal(state, order.order_id, order.size) is None {
                lemma_aggress_frame(
                    accept(state, order.order_id),
                    order,
                    AggressiveOrderType::TraderMarketOrder,
                );
            }
        },
        TraderRequest::CancelLimitOrder(order_id) => {},
        TraderRequest::CancelMarketOrder(order_id) => {},
    }
}

/// A limit that arrives changes neither the clock nor what the engine is set to do.
pub proof fn lemma_insert_limit_frame(state: EngineView, order: LimitOrder, origin: OrderOrigin)
    ensures
        ({
            let after = insert_limit(state, order, origin);
            &&& after.now == state.now
            &&& after.debug == state.debug
            &&& after.trade_updates_book == state.trade_updates_book
            &&& after.record_trades == state.record_trades
            &&& after.closed == state.closed
            &&& after.submitted == state.submitted
        }),
{
    let met = prematch(state.pending_markets, order.direction, order.size.0);
    let unpaired = EngineView { pending_markets: met.pending, ..state };
    let paired = apply_pairings(unpaired, met.pairings, order, origin);
    lemma_apply_pairings(unpaired, met.pairings, order, origin);
    let crossing = crossing_volume(
        paired.side(order.direction.spec_opposite()),
        order.price,
        order.direction,
    );
    let amount = met.remaining;
    if amount == 0 {
    } else if crossing >= amount {
        lemma_aggress_frame(
            paired,
            MarketOrder { order_id: order.order_id, size: Size(amount), direction: order.direction },
            market_kind(origin),
        );
    } else if crossing != 0 {
        lemma_aggress_frame(
            paired,
            MarketOrder {
                order_id: order.order_id,
                size: Size(crossing as u64),
                direction: order.direction,
            },
            crossing_kind(origin),
        );
    }
}

/// An event of the tape changes neither the clock nor what the engine is set to do.
pub proof fn lemma_history_frame(state: EngineView, event: HistoryEventBody)
    ensures
        ({
            let after = handle_history(state, event);
            &&& after.now == state.now
            &&& after.debug == state.debug
            &&& after.trade_updates_book == state.trade_updates_book
            &&& after.record_trades == state.record_trades
            &&& after.closed == state.closed
            &&& after.submitted == state.submitted
        }),
{
    if !state.closed {
        match event {
            HistoryEventBody::PRL(size, direction, price, order_id) => {
                if size.0 == 0 {
                } else if state.history_order_ids.contains(order_id.0) {
                } else {
                    lemma_insert_limit_frame(
                        state,
                        LimitOrder { order_id, size, direction, price },
                        OrderOrigin::History,
                    );
                }
            },
            HistoryEventBody::TRD(size, direction) => {
                lemma_aggress_frame(
                    state,
                    tape_trade(size, direction),
                    AggressiveOrderType::HistoryMarketOrder,
                );
            },
        }
    }
}

/// A limit of the trader that meets no waiting market order and crosses
/// nothing, and is cancelled before anything else happens, leaves the book
/// and what the engine knows of the orders in it as they were.
pub proof fn law_place_then_cancel(state: EngineView, order: LimitOrder)
    requires
        consistent(state),
        placement_refusal(state, order.order_id, order.size) is None,
        state.pending_markets.len() == 0,
        crossing_volume(
            state.side(order.direction.spec_opposite()),
            order.price,
            order.direction,
        ) == 0,
    ensures
        ({
            let after = cancel_limit(submit_limit(state, order), order.order_id);
            &&& after.bids == state.bids
            &&& after.asks == state.asks
            &&& after.history_order_ids == state.history_order_ids
            &&& after.pending_limits == state.pending_limits
            &&& after.pending_markets == state.pending_markets
        }),
{
    let accepted = accept(state, order.order_id);
    let placed = submit_limit(state, order);
    let entry = OrderBookEntry { order_id: order.order_id, size: order.size, from: OrderOrigin::Trader };
    let own = state.side(order.direction);
    assert(entries_of(state, OrderID(order.order_id.0), OrderOrigin::Trader) == 0);
    lemma_sum_monotone(
        own,
        level_counts(Some(order.price), order.order_id, OrderOrigin::Trader),
        level_counts(None, order.order_id, OrderOrigin::Trader),
    );
    law_place_then_remove(own, order.direction, order.price, entry);
    assert(placed == rest_order(
        accepted,
        order.order_id,
        order.size,
        order.direction,
        order.price,
        OrderOrigin::Trader,
    ));
    let after = cancel_limit(placed, order.order_id);
    assert(after.pending_limits =~= state.pending_limits);
}

/// While the venue is closed, every placement is discarded because the
/// venue is closed, whatever its size and its identifier, and nothing else
/// changes.
pub proof fn law_closed_venue_discards(state: EngineView, limit: LimitOrder, market: MarketOrder)
    requires
        state.closed,
    ensures
        submit_limit(state, limit) == state.with_reply(
            ExchangeReply::OrderPlacementDiscarded(limit.order_id, DiscardingReason::ExchangeClosed),
        ),
        submit_market(state, market) == state.with_reply(
            ExchangeReply::OrderPlacementDiscarded(
                market.order_id,
                DiscardingReason::ExchangeClosed,
            ),
        ),
{
}

/// While the venue is open, every placement of size zero is discarded
/// because of its size, whatever its identifier, and nothing else changes.
pub proof fn law_zero_size_is_discarded(state: EngineView, limit: LimitOrder, market: MarketOrder)
    requires
        !state.closed,
        limit.size.0 == 0,
        market.size.0 == 0,
    ensures
        submit_limit(state, limit) == state.with_reply(
            ExchangeReply::OrderPlacementDiscarded(limit.order_id, DiscardingReason::ZeroSize),
        ),
        submit_market(state, market) == state.with_reply(
            ExchangeReply::OrderPlacementDiscarded(market.order_id, DiscardingReason::ZeroSize),
        ),
{
}

/// While the venue is open, every placement with lots under an identifier
/// that the trader has used in this session is discarded because of its
/// identifier, and nothing else changes.
pub proof fn law_duplicate_is_discarded(state: EngineView, limit: LimitOrder, market: MarketOrder)
    requires
        !state.closed,
        limit.size.0 > 0,
        market.size.0 > 0,
        state.submitted.contains(limit.order_id.0),
        state.submitted.contains(market.order_id.0),
    ensures
        submit_limit(state, limit) == state.with_reply(
            ExchangeReply::OrderPlacementDiscarded(
                limit.order_id,
                DiscardingReason::OrderWithSuchIDAlreadySubmitted,
            ),
        ),
        submit_market(state, market) == state.with_reply(
            ExchangeReply::OrderPlacementDiscarded(
                market.order_id,
                DiscardingReason::OrderWithSuchIDAlreadySubmitted,
            ),
        ),
{
}

/// What a trade of the tape finds no liquidity for is dropped: no order
/// waits for it, and the trader is told nothing about it. In debug mode one
/// note is made of the lots that are left, and none otherwise.
pub proof fn law_unfilled_tape_trade_is_dropped(state: EngineView, size: Size, direction: Direction)
    ensures
        ({
            let after = handle_trd(state, size, direction);
            let outcome = consume_side(
                state.side(direction.spec_opposite()),
                size.0,
                state.trade_updates_book,
            );
            &&& after.pending_markets == state.pending_markets
            &&& after.submitted == state.submitted
            &&& after.replies == apply_fills(
                state.with_side(direction.spec_opposite(), outcome.levels),
                outcome.fills,
                tape_trade(size, direction),
                AggressiveOrderType::HistoryMarketOrder,
            ).replies
            &&& after.diagnostics == if state.debug && outcome.remaining > 0 {
                state.diagnostics.push(
                    Diagnostic {
                        datetime: state.now,
                        kind: DiagnosticKind::TradeNotFullyExecuted(Size(outcome.remaining)),
                    },
                )
            } else {
                state.diagnostics
            }
        }),
{
    let opposite = direction.spec_opposite();
    let outcome = consume_side(state.side(opposite), size.0, state.trade_updates_book);
    lemma_apply_fills(
        state.with_side(opposite, outcome.levels),
        outcome.fills,
        tape_trade(size, direction),
        AggressiveOrderType::HistoryMarketOrder,
    );
}

/// One for the given identifier, zero for any other.
pub open spec fn id_counts(order_id: OrderID) -> spec_fn(OrderID) -> nat {
    |other: OrderID|
        if other == order_id {
            1nat
        } else {
            0nat
        }
}

/// Whether no identifier is larger than one behind it.
pub open spec fn ids_ascend(ids: Seq<OrderID>) -> bool {
    forall|i: int, j: int| 0 <= i < j < ids.len() ==> (#[trigger] ids[i]).0 <= (#[trigger] ids[j]).0
}

/// The identifiers in ascending order are the same identifiers, each as
/// often as before, and none is larger than one behind it.
pub proof fn law_ascending_sorts(ids: Seq<OrderID>, order_id: OrderID)
    ensures
        ids_ascend(ascending(ids)),
        ascending(ids).len() == ids.len(),
        sum_over(ascending(ids), id_counts(order_id)) == sum_over(ids, id_counts(order_id)),
    decreases ids.len(),
{
    if ids.len() > 0 {
        let front = ascending(ids.drop_last());
        let last = ids.last();
        let larger = |other: OrderID| other.0 > last.0;
        law_ascending_sorts(ids.drop_last(), order_id);
        lemma_first_index_found(front, larger);
        let at = first_index(front, larger);
        let sorted = ascending(ids);
        lemma_sum_insert(front, at, last, id_counts(order_id));
        assert forall|i: int, j: int| 0 <= i < j < sorted.len() implies (#[trigger] sorted[i]).0 <= (
        #[trigger] sorted[j]).0 by {
            if j == at {
                assert(sorted[i] == front[i]);
                assert(!larger(front[i]));
            } else if i == at {
                assert(sorted[j] == front[j - 1]);
                assert(larger(front[at]));
            } else {
                let i0 = if i < at {
                    i
                } else {
                    i - 1
                };
                let j0 = if j < at {
                    j
                } else {
                    j - 1
                };
                assert(sorted[i] == front[i0]);
                assert(sorted[j] == front[j0]);
            }
        }
    }
}

} // verus!
