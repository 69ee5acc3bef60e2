//! The pending limits of the trader and the entries that stand for them in
//! the book, over an arriving limit.
//!
//! [`limits_rest`] is the part of the engine's invariants that ties the
//! pending limits to the book. The law below says that any limit keeps it,
//! whoever sent the limit and whatever else the engine knows of its identifier.

use vstd::prelude::*;
use crate::exchange::book::{consume_side, crossing_volume};
use crate::exchange::book_laws::{
    lemma_consume_side_counts, lemma_place_counts, level_counts, side_count,
};
use crate::exchange::laws::{
    entries_of, lemma_apply_fills, lemma_apply_pairings, lemma_fills_taken_at_most,
};
use crate::exchange::matching::{
    aggress, apply_pairings, cross_and_rest, crossing_kind, insert_limit, market_kind, prematch,
    rest_order, takes_history, AggressiveOrderType, EngineView,
};
use crate::exchange::sums::lemma_sum_monotone;
use crate::exchange::types::OrderBookEntry;
use crate::history::types::OrderOrigin;
use crate::order::{LimitOrder, MarketOrder};
use crate::types::{Direction, OrderID, Price, Size};

verus! {

/// Whether the pending limits of the trader are exactly the trader's orders
/// that rest in the book: each has one entry, on the side and at the price
/// that the engine has noted for it, and no other order of the trader has any.
pub open spec fn limits_rest(state: EngineView) -> bool {
    forall|raw: u64|
        if state.pending_limits.contains_key(raw) {
            &&& #[trigger] entries_of(state, OrderID(raw), OrderOrigin::Trader) == 1
            &&& side_count(
                state.side(state.pending_limits[raw].1),
                Some(state.pending_limits[raw].0),
                OrderID(raw),
                OrderOrigin::Trader,
            ) == 1
        } else {
            entries_of(state, OrderID(raw), OrderOrigin::Trader) == 0
        }
}

/// Whether every pending limit of `after` was one of `before`, noted with
/// the same side and price, but possibly for the limit `arrived` that came
/// to rest on the given side at the given price.
pub open spec fn limits_kept(
    before: EngineView,
    after: EngineView,
    arrived: Option<(OrderID, Price, Direction)>,
) -> bool {
    forall|raw: u64| #[trigger]
        after.pending_limits.contains_key(raw) ==> (before.pending_limits.contains_key(raw)
            && after.pending_limits[raw] == before.pending_limits[raw]) || (arrived matches Some(
            (order_id, price, direction),
        ) && raw == order_id.0 && after.pending_limits[raw] == (price, direction))
}

/// An aggressor keeps the pending limits matched with their entries, and
/// notes no new one.
pub proof fn lemma_aggress_limits_rest(state: EngineView, order: MarketOrder, kind: AggressiveOrderType)
    requires
        limits_rest(state),
    ensures
        limits_rest(aggress(state, order, kind)),
        limits_kept(state, aggress(state, order, kind), None),
{
    let opposite = order.direction.spec_opposite();
    let take_history = takes_history(kind, state.trade_updates_book);
    let outcome = consume_side(state.side(opposite), order.size.0, take_history);
    let emptied = state.with_side(opposite, outcome.levels);
    let after = aggress(state, order, kind);
    lemma_apply_fills(emptied, outcome.fills, order, kind);
    assert forall|raw: u64|
        if after.pending_limits.contains_key(raw) {
            &&& #[trigger] entries_of(after, OrderID(raw), OrderOrigin::Trader) == 1
            &&& side_count(
                after.side(after.pending_limits[raw].1),
                Some(after.pending_limits[raw].0),
                OrderID(raw),
                OrderOrigin::Trader,
            ) == 1
        } else {
            entries_of(after, OrderID(raw), OrderOrigin::Trader) == 0
        } by {
        let order_id = OrderID(raw);
        lemma_consume_side_counts(
            state.side(opposite),
            order.size.0,
            take_history,
            None,
            order_id,
            OrderOrigin::Trader,
        );
        assert(entries_of(state, order_id, OrderOrigin::Trader) == if state.pending_limits.contains_key(
            raw,
        ) {
            1nat
        } else {
            0nat
        });
        if after.pending_limits.contains_key(raw) {
            let (price, direction) = state.pending_limits[raw];
            lemma_consume_side_counts(
                state.side(opposite),
                order.size.0,
                take_history,
                Some(price),
                order_id,
                OrderOrigin::Trader,
            );
            lemma_fills_taken_at_most(
                outcome.fills,
                Some(price),
                order_id,
                OrderOrigin::Trader,
                take_history,
            );
        }
    }
}

/// An order that comes to rest keeps the pending limits matched with their
/// entries; one of the trader is noted where it rests.
pub proof fn lemma_rest_limits_rest(
    state: EngineView,
    order_id: OrderID,
    size: Size,
    direction: Direction,
    price: Price,
    origin: OrderOrigin,
)
    requires
        limits_rest(state),
        origin == OrderOrigin::Trader ==> !state.pending_limits.contains_key(order_id.0),
    ensures
        limits_rest(rest_order(state, order_id, size, direction, price, origin)),
        limits_kept(
            state,
            rest_order(state, order_id, size, direction, price, origin),
            if origin == OrderOrigin::Trader {
                Some((order_id, price, direction))
            } else {
                None
            },
        ),
        origin == OrderOrigin::Trader ==> rest_order(
            state,
            order_id,
            size,
            direction,
            price,
            origin,
        ).pending_limits.contains_key(order_id.0),
{
    let entry = OrderBookEntry { order_id, size, from: origin };
    let after = rest_order(state, order_id, size, direction, price, origin);
    assert forall|raw: u64|
        if after.pending_limits.contains_key(raw) {
            &&& #[trigger] entries_of(after, OrderID(raw), OrderOrigin::Trader) == 1
            &&& side_count(
                after.side(after.pending_limits[raw].1),
                Some(after.pending_limits[raw].0),
                OrderID(raw),
                OrderOrigin::Trader,
            ) == 1
        } else {
            entries_of(after, OrderID(raw), OrderOrigin::Trader) == 0
        } by {
        lemma_place_counts(
            state.side(direction),
            direction,
            price,
            entry,
            None,
            OrderID(raw),
            OrderOrigin::Trader,
        );
        assert(entries_of(state, OrderID(raw), OrderOrigin::Trader)
            == if state.pending_limits.contains_key(raw) {
            1nat
        } else {
            0nat
        });
        if after.pending_limits.contains_key(raw) {
            let (noted_price, noted_direction) = after.pending_limits[raw];
            if noted_direction == direction {
                lemma_place_counts(
                    state.side(direction),
                    direction,
                    price,
                    entry,
                    Some(noted_price),
                    OrderID(raw),
                    OrderOrigin::Trader,
                );
            }
            if raw == order_id.0 && origin == OrderOrigin::Trader {
                lemma_sum_monotone(
                    state.side(direction),
                    level_counts(Some(price), order_id, OrderOrigin::Trader),
                    level_counts(None, order_id, OrderOrigin::Trader),
                );
            }
        }
    }
}

/// What is left of a limit after the waiting market orders had their part
/// keeps the pending limits matched with their entries.
pub proof fn lemma_cross_and_rest_limits_rest(
    state: EngineView,
    order: LimitOrder,
    origin: OrderOrigin,
    amount: u64,
)
    requires
        limits_rest(state),
        origin == OrderOrigin::Trader ==> !state.pending_limits.contains_key(order.order_id.0),
    ensures
        limits_rest(cross_and_rest(state, order, origin, amount)),
        limits_kept(
            state,
            cross_and_rest(state, order, origin, amount),
            if origin == OrderOrigin::Trader {
                Some((order.order_id, order.price, order.direction))
            } else {
                None
            },
        ),
{
    let crossing = crossing_volume(
        state.side(order.direction.spec_opposite()),
        order.price,
        order.direction,
    );
    if amount == 0 {
    } else if crossing >= amount {
        lemma_aggress_limits_rest(
            state,
            MarketOrder { order_id: order.order_id, size: Size(amount), direction: order.direction },
            market_kind(origin),
        );
    } else {
        let part = MarketOrder {
            order_id: order.order_id,
            size: Size(crossing as u64),
            direction: order.direction,
        };
        let crossed = if crossing == 0 {
            state
        } else {
            aggress(state, part, crossing_kind(origin))
        };
        if crossing != 0 {
            lemma_aggress_limits_rest(state, part, crossing_kind(origin));
        }
        lemma_rest_limits_rest(
            crossed,
            order.order_id,
            Size((amount - crossing) as u64),
            order.direction,
            order.price,
            origin,
        );
    }
}

/// The pending limits of the trader stay matched with their entries over any
/// limit that arrives, of the trader or of the tape, whatever it crosses. A
/// limit of the trader that is noted afterwards is noted with its own side
/// and price; a limit of the tape adds no pending limit. A pending limit that
/// is no longer noted has no entry left, so it was executed in full.
pub proof fn law_limit_keeps_pending_limits(state: EngineView, order: LimitOrder, origin: OrderOrigin)
    requires
        limits_rest(state),
        origin == OrderOrigin::Trader ==> !state.pending_limits.contains_key(order.order_id.0),
    ensures
        limits_rest(insert_limit(state, order, origin)),
        limits_kept(
            state,
            insert_limit(state, order, origin),
            if origin == OrderOrigin::Trader {
                Some((order.order_id, order.price, order.direction))
            } else {
                None
            },
        ),
        forall|raw: u64|
            state.pending_limits.contains_key(raw) && !insert_limit(
                state,
                order,
                origin,
            ).pending_limits.contains_key(raw) ==> #[trigger] entries_of(
                insert_limit(state, order, origin),
                OrderID(raw),
                OrderOrigin::Trader,
            ) == 0,
{
    let met = prematch(state.pending_markets, order.direction, order.size.0);
    let unpaired = EngineView { pending_markets: met.pending, ..state };
    let paired = apply_pairings(unpaired, met.pairings, order, origin);
    lemma_apply_pairings(unpaired, met.pairings, order, origin);
    assert(limits_rest(paired)) by {
        assert forall|raw: u64|
            if paired.pending_limits.contains_key(raw) {
                &&& #[trigger] entries_of(paired, OrderID(raw), OrderOrigin::Trader) == 1
                &&& side_count(
                    paired.side(paired.pending_limits[raw].1),
                    Some(paired.pending_limits[raw].0),
                    OrderID(raw),
                    OrderOrigin::Trader,
                ) == 1
            } else {
                entries_of(paired, OrderID(raw), OrderOrigin::Trader) == 0
            } by {
            assert(entries_of(state, OrderID(raw), OrderOrigin::Trader) == entries_of(
                paired,
                OrderID(raw),
                OrderOrigin::Trader,
            ));
            assert(state.side(state.pending_limits[raw].1) == paired.side(
                paired.pending_limits[raw].1,
            ));
        }
    }
    lemma_cross_and_rest_limits_rest(paired, order, origin, met.remaining);
    let after = insert_limit(state, order, origin);
    assert forall|raw: u64|
        state.pending_limits.contains_key(raw) && !after.pending_limits.contains_key(
            raw,
        ) implies #[trigger] entries_of(after, OrderID(raw), OrderOrigin::Trader) == 0 by {}
}

} // verus!
