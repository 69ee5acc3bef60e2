//! The account of every order of the trader: what the trader was told that
//! was executed of it, and what is still open of it. Nothing is reported as
//! executed that was not open.

use vstd::prelude::*;
use crate::exchange::book::{
    consume_queue, consume_side, crossing_volume, entry_of, is_better, is_debited, level_at,
    remove_from_side, resize_on_side, rest_position, side_holds, Fill,
};
use crate::exchange::book_laws::{fills_volume, lemma_consume_side_volume};
use crate::exchange::laws::{lemma_apply_fills, lemma_apply_pairings};
use crate::exchange::matching::{
    accept, aggress, apply_fills, apply_pairings, cancellations, cleanup, close_session,
    crossing_kind, fill_replies, handle_history, handle_request, insert_limit, is_trader_aggressor,
    market_kind, open_session, pairing_replies, pending_market_at, placement_refusal, prematch,
    rest_order, takes_history, tape_trade, AggressiveOrderType, EngineView, Pairing,
};
use crate::exchange::sums::{
    lemma_first_index_found, lemma_sum_concat, lemma_sum_first, lemma_sum_insert, lemma_sum_one,
    lemma_sum_remove, lemma_sum_update, lemma_sum_zero, sum_over,
};
use crate::exchange::types::{LevelView, OrderBookEntry};
use crate::history::types::{HistoryEventBody, OrderOrigin};
use crate::message::{ExchangeReply, TraderRequest};
use crate::order::{LimitOrder, MarketOrder};
use crate::types::{Direction, OrderID, Price, Size};

verus! {

/// The lots of an entry, if it is the given order of the trader.
pub open spec fn entry_lots_of(order_id: OrderID) -> spec_fn(OrderBookEntry) -> nat {
    |entry: OrderBookEntry|
        if entry.order_id == order_id && entry.from == OrderOrigin::Trader {
            entry.size.0 as nat
        } else {
            0nat
        }
}

/// The lots that the given order of the trader has in a queue.
pub open spec fn queue_lots_of(queue: Seq<OrderBookEntry>, order_id: OrderID) -> nat {
    sum_over(queue, entry_lots_of(order_id))
}

/// The lots that the given order of the trader has in a level.
pub open spec fn level_lots_of(order_id: OrderID) -> spec_fn(LevelView) -> nat {
    |level: LevelView| queue_lots_of(level.queue, order_id)
}

/// The lots that the given order of the trader has on a side.
pub open spec fn side_lots_of(levels: Seq<LevelView>, order_id: OrderID) -> nat {
    sum_over(levels, level_lots_of(order_id))
}

/// The lots of a waiting market order, if it is the given order.
pub open spec fn market_lots_of(order_id: OrderID) -> spec_fn(MarketOrder) -> nat {
    |order: MarketOrder|
        if order.order_id == order_id {
            order.size.0 as nat
        } else {
            0nat
        }
}

/// The lots with which the given order waits as a market order.
pub open spec fn waiting_lots_of(pending: Seq<MarketOrder>, order_id: OrderID) -> nat {
    sum_over(pending, market_lots_of(order_id))
}

/// The lots of the given order of the trader that are still open: those
/// that rest in the book and those that wait for liquidity.
pub open spec fn open_lots(state: EngineView, order_id: OrderID) -> nat {
    side_lots_of(state.bids, order_id) + side_lots_of(state.asks, order_id) + waiting_lots_of(
        state.pending_markets,
        order_id,
    )
}

/// The lots that a reply reports as executed, if it is about the given order.
pub open spec fn reply_lots_of(order_id: OrderID) -> spec_fn(ExchangeReply) -> nat {
    |reply: ExchangeReply|
        if reply.spec_order_id() == order_id {
            reply.spec_executed_size()
        } else {
            0nat
        }
}

/// The lots of the given order that the replies report as executed.
pub open spec fn reported(replies: Seq<ExchangeReply>, order_id: OrderID) -> nat {
    sum_over(replies, reply_lots_of(order_id))
}

/// The lots of a fill, if the resting order is the given order of the trader.
pub open spec fn fill_lots_of(order_id: OrderID) -> spec_fn(Fill) -> nat {
    |fill: Fill|
        if fill.order_id == order_id && fill.from == OrderOrigin::Trader {
            fill.size.0 as nat
        } else {
            0nat
        }
}

/// The lots of the given resting order of the trader that the fills executed.
pub open spec fn fills_lots_of(fills: Seq<Fill>, order_id: OrderID) -> nat {
    sum_over(fills, fill_lots_of(order_id))
}

/// The lots of a pairing, if the market order that waited is the given order.
pub open spec fn pairing_lots_of(order_id: OrderID) -> spec_fn(Pairing) -> nat {
    |pairing: Pairing|
        if pairing.order_id == order_id {
            pairing.size.0 as nat
        } else {
            0nat
        }
}

/// The lots of the given waiting market order that the pairings executed.
pub open spec fn pairings_lots_of(pairings: Seq<Pairing>, order_id: OrderID) -> nat {
    sum_over(pairings, pairing_lots_of(order_id))
}

/// The lots of a pairing.
pub open spec fn pairing_lots() -> spec_fn(Pairing) -> nat {
    |pairing: Pairing| pairing.size.0 as nat
}

/// The lots that the pairings executed.
pub open spec fn pairings_volume(pairings: Seq<Pairing>) -> nat {
    sum_over(pairings, pairing_lots())
}

/// What the account of an order shows: the lots reported as executed and the lots still open.
pub open spec fn account(state: EngineView, order_id: OrderID) -> nat {
    reported(state.replies, order_id) + open_lots(state, order_id)
}

/// What an aggressor executes of an order of the trader in a queue is what the order loses there.
pub proof fn lemma_consume_queue_lots(
    queue: Seq<OrderBookEntry>,
    price: Price,
    amount: u64,
    take_history: bool,
    order_id: OrderID,
)
    ensures
        ({
            let outcome = consume_queue(queue, price, amount, take_history);
            queue_lots_of(outcome.queue, order_id) + fills_lots_of(outcome.fills, order_id)
                == queue_lots_of(queue, order_id)
        }),
    decreases queue.len(),
{
    let outcome = consume_queue(queue, price, amount, take_history);
    let lots = entry_lots_of(order_id);
    let filled = fill_lots_of(order_id);
    if queue.len() == 0 || amount == 0 {
    } else {
        let entry = queue[0];
        lemma_sum_first(queue, lots);
        let fill = outcome.fills[0];
        lemma_sum_one(fill, filled);
        if amount < entry.size.0 {
            assert(outcome.fills =~= seq![fill]);
            if is_debited(entry, take_history) {
                lemma_sum_update(queue, 0, outcome.queue[0], lots);
                assert(outcome.queue =~= queue.update(0, outcome.queue[0]));
            }
        } else {
            let rest = consume_queue(
                queue.drop_first(),
                price,
                (amount - entry.size.0) as u64,
                take_history,
            );
            lemma_consume_queue_lots(
                queue.drop_first(),
                price,
                (amount - entry.size.0) as u64,
                take_history,
                order_id,
            );
            assert(outcome.fills =~= seq![fill] + rest.fills);
            lemma_sum_concat(seq![fill], rest.fills, filled);
            if !is_debited(entry, take_history) {
                lemma_sum_concat(seq![entry], rest.queue, lots);
                lemma_sum_one(entry, lots);
            }
        }
    }
}

/// What an aggressor executes of an order of the trader on a side is what the order loses there.
pub proof fn lemma_consume_side_lots(
    levels: Seq<LevelView>,
    amount: u64,
    take_history: bool,
    order_id: OrderID,
)
    ensures
        ({
            let outcome = consume_side(levels, amount, take_history);
            side_lots_of(outcome.levels, order_id) + fills_lots_of(outcome.fills, order_id)
                == side_lots_of(levels, order_id)
        }),
    decreases levels.len(),
{
    let outcome = consume_side(levels, amount, take_history);
    let lots = level_lots_of(order_id);
    let filled = fill_lots_of(order_id);
    if levels.len() == 0 || amount == 0 {
    } else {
        let first = consume_queue(levels[0].queue, levels[0].price, amount, take_history);
        let rest = consume_side(levels.drop_first(), first.remaining, take_history);
        lemma_consume_queue_lots(levels[0].queue, levels[0].price, amount, take_history, order_id);
        lemma_consume_side_lots(levels.drop_first(), first.remaining, take_history, order_id);
        lemma_sum_first(levels, lots);
        lemma_sum_concat(first.fills, rest.fills, filled);
        if first.queue.len() != 0 {
            let kept = LevelView { price: levels[0].price, queue: first.queue };
            lemma_sum_concat(seq![kept], rest.levels, lots);
            lemma_sum_one(kept, lots);
        }
    }
}

/// What the replies about a run of fills report of an order: the lots of
/// every fill if the order is the aggressor and the trader's, and the lots of
/// the fills against it if it rested.
pub proof fn lemma_apply_fills_reported(
    state: EngineView,
    fills: Seq<Fill>,
    order: MarketOrder,
    kind: AggressiveOrderType,
    order_id: OrderID,
)
    ensures
        reported(apply_fills(state, fills, order, kind).replies, order_id) == reported(
            state.replies,
            order_id,
        ) + fills_lots_of(fills, order_id) + if is_trader_aggressor(kind) && order.order_id
            == order_id {
            fills_volume(fills)
        } else {
            0nat
        },
    decreases fills.len(),
{
    if fills.len() > 0 {
        let before = apply_fills(state, fills.drop_last(), order, kind);
        lemma_apply_fills_reported(state, fills.drop_last(), order, kind, order_id);
        let told = fill_replies(fills.last(), order.order_id, kind);
        lemma_sum_concat(before.replies, told, reply_lots_of(order_id));
        lemma_fill_replies_reported(fills.last(), order.order_id, kind, order_id);
    }
}

/// What the replies about one fill report of an order.
pub proof fn lemma_fill_replies_reported(
    fill: Fill,
    aggressor: OrderID,
    kind: AggressiveOrderType,
    order_id: OrderID,
)
    ensures
        reported(fill_replies(fill, aggressor, kind), order_id) == fill_lots_of(order_id)(fill)
            + if is_trader_aggressor(kind) && aggressor == order_id {
            fill.size.0 as nat
        } else {
            0nat
        },
{
    let weight = reply_lots_of(order_id);
    let to_aggressor = if kind == AggressiveOrderType::TraderMarketOrder && fill.aggressor_done {
        seq![ExchangeReply::OrderExecuted(aggressor, fill.size, fill.price)]
    } else if is_trader_aggressor(kind) {
        seq![ExchangeReply::OrderPartiallyExecuted(aggressor, fill.size, fill.price)]
    } else {
        Seq::empty()
    };
    let to_resting = if fill.from != OrderOrigin::Trader {
        Seq::empty()
    } else if fill.resting_done {
        seq![ExchangeReply::OrderExecuted(fill.order_id, fill.size, fill.price)]
    } else {
        seq![ExchangeReply::OrderPartiallyExecuted(fill.order_id, fill.size, fill.price)]
    };
    lemma_sum_concat(to_aggressor, to_resting, weight);
    if to_aggressor.len() > 0 {
        lemma_sum_one(to_aggressor[0], weight);
        assert(to_aggressor =~= seq![to_aggressor[0]]);
    }
    if to_resting.len() > 0 {
        lemma_sum_one(to_resting[0], weight);
        assert(to_resting =~= seq![to_resting[0]]);
    }
}

/// An aggressor adds to the account of no order but its own, and to its own
/// no more than its lots, if it is the trader's.
pub proof fn lemma_aggress_account(
    state: EngineView,
    order: MarketOrder,
    kind: AggressiveOrderType,
    order_id: OrderID,
)
    ensures
        account(aggress(state, order, kind), order_id) <= account(state, order_id)
            + if is_trader_aggressor(kind) && order.order_id == order_id {
            order.size.0 as nat
        } else {
            0nat
        },
{
    let opposite = order.direction.spec_opposite();
    let take_history = takes_history(kind, state.trade_updates_book);
    let outcome = consume_side(state.side(opposite), order.size.0, take_history);
    let emptied = state.with_side(opposite, outcome.levels);
    let accounted = apply_fills(emptied, outcome.fills, order, kind);
    let after = aggress(state, order, kind);
    lemma_consume_side_lots(state.side(opposite), order.size.0, take_history, order_id);
    lemma_consume_side_volume(state.side(opposite), order.size.0, take_history);
    lemma_apply_fills(emptied, outcome.fills, order, kind);
    lemma_apply_fills_reported(emptied, outcome.fills, order, kind, order_id);
    assert(after.replies == accounted.replies);
    assert(after.bids == accounted.bids && after.asks == accounted.asks);
    if outcome.remaining > 0 && kind == AggressiveOrderType::TraderMarketOrder {
        let waiting = MarketOrder {
            order_id: order.order_id,
            size: Size(outcome.remaining),
            direction: order.direction,
        };
        assert(after.pending_markets == state.pending_markets.push(waiting));
        assert(after.pending_markets.drop_last() =~= state.pending_markets);
    } else {
        assert(after.pending_markets == state.pending_markets);
    }
}

/// What a limit executes of a waiting market order is what the market order
/// loses, and what it executes in all is what it loses itself.
pub proof fn lemma_prematch_lots(
    pending: Seq<MarketOrder>,
    incoming: Direction,
    amount: u64,
    order_id: OrderID,
)
    ensures
        ({
            let outcome = prematch(pending, incoming, amount);
            &&& waiting_lots_of(outcome.pending, order_id) + pairings_lots_of(
                outcome.pairings,
                order_id,
            ) == waiting_lots_of(pending, order_id)
            &&& pairings_volume(outcome.pairings) + outcome.remaining == amount
        }),
    decreases pending.len(),
{
    let outcome = prematch(pending, incoming, amount);
    let lots = market_lots_of(order_id);
    let paired = pairing_lots_of(order_id);
    if pending.len() == 0 || amount == 0 {
    } else {
        let waiting = pending[0];
        lemma_sum_first(pending, lots);
        if waiting.direction == incoming {
            let rest = prematch(pending.drop_first(), incoming, amount);
            lemma_prematch_lots(pending.drop_first(), incoming, amount, order_id);
            lemma_sum_concat(seq![waiting], rest.pending, lots);
            lemma_sum_one(waiting, lots);
        } else if amount < waiting.size.0 {
            let pairing = outcome.pairings[0];
            assert(outcome.pairings =~= seq![pairing]);
            lemma_sum_one(pairing, paired);
            lemma_sum_one(pairing, pairing_lots());
            lemma_sum_update(pending, 0, outcome.pending[0], lots);
            assert(outcome.pending =~= pending.update(0, outcome.pending[0]));
        } else {
            let rest = prematch(
                pending.drop_first(),
                incoming,
                (amount - waiting.size.0) as u64,
            );
            lemma_prematch_lots(
                pending.drop_first(),
                incoming,
                (amount - waiting.size.0) as u64,
                order_id,
            );
            let pairing = outcome.pairings[0];
            assert(outcome.pairings =~= seq![pairing] + rest.pairings);
            lemma_sum_concat(seq![pairing], rest.pairings, paired);
            lemma_sum_concat(seq![pairing], rest.pairings, pairing_lots());
            lemma_sum_one(pairing, paired);
            lemma_sum_one(pairing, pairing_lots());
        }
    }
}

/// What the replies about a run of pairings report of an order.
pub proof fn lemma_apply_pairings_reported(
    state: EngineView,
    pairings: Seq<Pairing>,
    order: LimitOrder,
    origin: OrderOrigin,
    order_id: OrderID,
)
    ensures
        reported(apply_pairings(state, pairings, order, origin).replies, order_id) == reported(
            state.replies,
            order_id,
        ) + pairings_lots_of(pairings, order_id) + if origin == OrderOrigin::Trader
            && order.order_id == order_id {
            pairings_volume(pairings)
        } else {
            0nat
        },
    decreases pairings.len(),
{
    if pairings.len() > 0 {
        let before = apply_pairings(state, pairings.drop_last(), order, origin);
        lemma_apply_pairings_reported(state, pairings.drop_last(), order, origin, order_id);
        let pairing = pairings.last();
        let told = pairing_replies(pairing, order, origin);
        let weight = reply_lots_of(order_id);
        lemma_sum_concat(before.replies, told, weight);
        let to_pending = told[0];
        if origin != OrderOrigin::Trader {
            assert(told =~= seq![to_pending]);
            lemma_sum_one(to_pending, weight);
        } else {
            let to_order = told[1];
            assert(told =~= seq![to_pending] + seq![to_order]);
            lemma_sum_concat(seq![to_pending], seq![to_order], weight);
            lemma_sum_one(to_pending, weight);
            lemma_sum_one(to_order, weight);
        }
    }
}

/// An order that comes to rest adds its lots to its account, if it is the
/// trader's, and nothing to any other.
pub proof fn lemma_rest_account(
    state: EngineView,
    resting_id: OrderID,
    size: Size,
    direction: Direction,
    price: Price,
    origin: OrderOrigin,
    order_id: OrderID,
)
    ensures
        account(rest_order(state, resting_id, size, direction, price, origin), order_id) == account(
            state,
            order_id,
        ) + if origin == OrderOrigin::Trader && resting_id == order_id {
            size.0 as nat
        } else {
            0nat
        },
{
    let entry = OrderBookEntry { order_id: resting_id, size, from: origin };
    let levels = state.side(direction);
    let lots = level_lots_of(order_id);
    let position = rest_position(levels, direction, price);
    lemma_first_index_found(levels, |level: LevelView| !is_better(level.price, price, direction));
    if position < levels.len() && levels[position].price == price {
        let grown = LevelView { price, queue: levels[position].queue.push(entry) };
        lemma_sum_update(levels, position, grown, lots);
        assert(grown.queue.drop_last() =~= levels[position].queue);
    } else {
        let fresh = LevelView { price, queue: seq![entry] };
        lemma_sum_insert(levels, position, fresh, lots);
        lemma_sum_one(entry, entry_lots_of(order_id));
    }
}

/// A limit adds to the account of no order but its own, and to its own no
/// more than its lots, if it is the trader's.
pub proof fn lemma_insert_limit_account(
    state: EngineView,
    order: LimitOrder,
    origin: OrderOrigin,
    order_id: OrderID,
)
    ensures
        account(insert_limit(state, order, origin), order_id) <= account(state, order_id)
            + if origin == OrderOrigin::Trader && order.order_id == order_id {
            order.size.0 as nat
        } else {
            0nat
        },
{
    let met = prematch(state.pending_markets, order.direction, order.size.0);
    let unpaired = EngineView { pending_markets: met.pending, ..state };
    let paired = apply_pairings(unpaired, met.pairings, order, origin);
    lemma_prematch_lots(state.pending_markets, order.direction, order.size.0, order_id);
    lemma_apply_pairings(unpaired, met.pairings, order, origin);
    lemma_apply_pairings_reported(unpaired, met.pairings, order, origin, order_id);
    let amount = met.remaining;
    let crossing = crossing_volume(
        paired.side(order.direction.spec_opposite()),
        order.price,
        order.direction,
    );
    if amount == 0 {
    } else if crossing >= amount {
        lemma_aggress_account(
            paired,
            MarketOrder { order_id: order.order_id, size: Size(amount), direction: order.direction },
            market_kind(origin),
            order_id,
        );
    } else {
        let part = MarketOrder {
            order_id: order.order_id,
            size: Size(crossing as u64),
            direction: order.direction,
        };
        let crossed = if crossing == 0 {
            paired
        } else {
            aggress(paired, part, crossing_kind(origin))
        };
        if crossing != 0 {
            lemma_aggress_account(paired, part, crossing_kind(origin), order_id);
        }
        lemma_rest_account(
            crossed,
            order.order_id,
            Size((amount - crossing) as u64),
            order.direction,
            order.price,
            origin,
            order_id,
        );
    }
}

/// An order that leaves a side takes its lots with it and no others.
pub proof fn lemma_remove_lots(
    levels: Seq<LevelView>,
    price: Price,
    leaving: OrderID,
    from: OrderOrigin,
    order_id: OrderID,
)
    ensures
        side_lots_of(remove_from_side(levels, price, leaving, from), order_id) <= side_lots_of(
            levels,
            order_id,
        ),
        from == OrderOrigin::History ==> side_lots_of(
            remove_from_side(levels, price, leaving, from),
            order_id,
        ) == side_lots_of(levels, order_id),
{
    if side_holds(levels, price, leaving, from) {
        let i = level_at(levels, price);
        let j = entry_of(levels[i].queue, leaving, from);
        lemma_first_index_found(levels, |level: LevelView| level.price == price);
        lemma_first_index_found(
            levels[i].queue,
            |entry: OrderBookEntry| entry.order_id == leaving && entry.from == from,
        );
        let lots = level_lots_of(order_id);
        lemma_sum_remove(levels[i].queue, j, entry_lots_of(order_id));
        if levels[i].queue.len() == 1 {
            lemma_sum_remove(levels, i, lots);
            assert(levels[i].queue.remove(j) =~= Seq::<OrderBookEntry>::empty());
        } else {
            let thinned = LevelView { price: levels[i].price, queue: levels[i].queue.remove(j) };
            lemma_sum_update(levels, i, thinned, lots);
        }
    }
}

/// A new size for an order of the tape changes the lots of no order of the trader.
pub proof fn lemma_resize_lots(
    levels: Seq<LevelView>,
    price: Price,
    resized: OrderID,
    size: Size,
    order_id: OrderID,
)
    ensures
        side_lots_of(
            resize_on_side(levels, price, resized, OrderOrigin::History, size),
            order_id,
        ) == side_lots_of(levels, order_id),
{
    if side_holds(levels, price, resized, OrderOrigin::History) {
        let i = level_at(levels, price);
        let j = entry_of(levels[i].queue, resized, OrderOrigin::History);
        lemma_first_index_found(levels, |level: LevelView| level.price == price);
        lemma_first_index_found(
            levels[i].queue,
            |entry: OrderBookEntry| entry.order_id == resized && entry.from == OrderOrigin::History,
        );
        let entry = OrderBookEntry { order_id: resized, size, from: OrderOrigin::History };
        let changed = LevelView { price: levels[i].price, queue: levels[i].queue.update(j, entry) };
        lemma_sum_update(levels[i].queue, j, entry, entry_lots_of(order_id));
        lemma_sum_update(levels, i, changed, level_lots_of(order_id));
    }
}

/// One more reply that reports nothing as executed changes no account.
pub proof fn lemma_reply_without_lots(
    replies: Seq<ExchangeReply>,
    reply: ExchangeReply,
    order_id: OrderID,
)
    requires
        reply.spec_executed_size() == 0,
    ensures
        reported(replies.push(reply), order_id) == reported(replies, order_id),
{
    assert(replies.push(reply).drop_last() =~= replies);
}

/// The lots that a request of the trader places under the given identifier:
/// the size of the order, if the request places that order and it is accepted.
pub open spec fn placed_lots(state: EngineView, request: TraderRequest, order_id: OrderID) -> nat {
    match request {
        TraderRequest::PlaceLimitOrder(order) => if order.order_id == order_id
            && placement_refusal(state, order.order_id, order.size) is None {
            order.size.0 as nat
        } else {
            0nat
        },
        TraderRequest::PlaceMarketOrder(order) => if order.order_id == order_id
            && placement_refusal(state, order.order_id, order.size) is None {
            order.size.0 as nat
        } else {
            0nat
        },
        _ => 0nat,
    }
}

/// A request of the trader adds to an account no more than the lots that it
/// places: of no order is more reported as executed than was open.
pub proof fn law_request_account(state: EngineView, request: TraderRequest, order_id: OrderID)
    ensures
        account(handle_request(state, request), order_id) <= account(state, order_id)
            + placed_lots(state, request, order_id),
{
    let after = handle_request(state, request);
    match request {
        TraderRequest::PlaceLimitOrder(order) => {
            match placement_refusal(state, order.order_id, order.size) {
                Some(reason) => {
                    lemma_reply_without_lots(
                        state.replies,
                        ExchangeReply::OrderPlacementDiscarded(order.order_id, reason),
                        order_id,
                    );
                },
                None => {
                    lemma_reply_without_lots(
                        state.replies,
                        ExchangeReply::OrderAccepted(order.order_id),
                        order_id,
                    );
                    lemma_insert_limit_account(
                        accept(state, order.order_id),
                        order,
                        OrderOrigin::Trader,
                        order_id,
                    );
                },
            }
        },
        TraderRequest::PlaceMarketOrder(order) => {
            match placement_refusal(state, order.order_id, order.size) {
                Some(reason) => {
                    lemma_reply_without_lots(
                        state.replies,
                        ExchangeReply::OrderPlacementDiscarded(order.order_id, reason),
                        order_id,
                    );
                },
                None => {
                    lemma_reply_without_lots(
                        state.replies,
                        ExchangeReply::OrderAccepted(order.order_id),
                        order_id,
                    );
                    lemma_aggress_account(
                        accept(state, order.order_id),
                        order,
                        AggressiveOrderType::TraderMarketOrder,
                        order_id,
                    );
                },
            }
        },
        TraderRequest::CancelLimitOrder(cancelled) => {
            lemma_reply_without_lots(
                state.replies,
                after.replies.last(),
                order_id,
            );
            assert(after.replies == state.replies.push(after.replies.last()));
            if !state.closed && state.submitted.contains(cancelled.0)
                && state.pending_limits.contains_key(cancelled.0) {
                let (price, direction) = state.pending_limits[cancelled.0];
                lemma_remove_lots(
                    state.side(direction),
                    price,
                    cancelled,
                    OrderOrigin::Trader,
                    order_id,
                );
            }
        },
        TraderRequest::CancelMarketOrder(cancelled) => {
            lemma_reply_without_lots(
                state.replies,
                after.replies.last(),
                order_id,
            );
            assert(after.replies == state.replies.push(after.replies.last()));
            let at = pending_market_at(state.pending_markets, cancelled);
            lemma_first_index_found(
                state.pending_markets,
                |order: MarketOrder| order.order_id == cancelled,
            );
            if !state.closed && state.submitted.contains(cancelled.0) && at
                < state.pending_markets.len() {
                lemma_sum_remove(state.pending_markets, at, market_lots_of(order_id));
            }
        },
    }
}

/// An event of the tape adds to no account: of no order is more reported as
/// executed than was open.
pub proof fn law_history_account(state: EngineView, event: HistoryEventBody, order_id: OrderID)
    ensures
        account(handle_history(state, event), order_id) <= account(state, order_id),
{
    if !state.closed {
        match event {
            HistoryEventBody::PRL(size, direction, price, tape_id) => {
                if size.0 == 0 {
                    lemma_remove_lots(
                        state.side(direction),
                        price,
                        tape_id,
                        OrderOrigin::History,
                        order_id,
                    );
                } else if state.history_order_ids.contains(tape_id.0) {
                    lemma_resize_lots(state.side(direction), price, tape_id, size, order_id);
                } else {
                    lemma_insert_limit_account(
                        state,
                        LimitOrder { order_id: tape_id, size, direction, price },
                        OrderOrigin::History,
                        order_id,
                    );
                }
            },
            HistoryEventBody::TRD(size, direction) => {
                lemma_aggress_account(
                    state,
                    tape_trade(size, direction),
                    AggressiveOrderType::HistoryMarketOrder,
                    order_id,
                );
            },
        }
    }
}

/// Cancellations report nothing as executed.
pub proof fn lemma_cancellations_report_nothing(ids: Seq<OrderID>, order_id: OrderID)
    ensures
        reported(cancellations(ids), order_id) == 0,
{
    lemma_sum_zero(cancellations(ids), reply_lots_of(order_id));
}

/// A session boundary adds to no account.
pub proof fn law_session_account(state: EngineView, end_of_trades: bool, order_id: OrderID)
    ensures
        account(cleanup(state, end_of_trades), order_id) <= account(state, order_id),
        account(open_session(state), order_id) <= account(state, order_id),
        account(close_session(state), order_id) <= account(state, order_id),
{
    let open = crate::exchange::matching::ascending(
        crate::exchange::matching::open_trader_orders(state),
    );
    lemma_cancellations_report_nothing(open, order_id);
    lemma_sum_concat(state.replies, cancellations(open), reply_lots_of(order_id));
}

} // verus!
