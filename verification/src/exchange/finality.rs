//! The last word on an order: once the trader is told that an order is
//! executed, nothing more is executed of it until the trader places an order
//! under its identifier again.

use vstd::prelude::*;
use crate::exchange::flushed;
use crate::exchange::book::{consume_queue, consume_side, crossing_volume, side_holds, Fill};
use crate::exchange::book_laws::{
    entry_counts, fill_counts, fills_taken, lemma_consume_side_counts, lemma_place_counts,
    lemma_remove_counts, lemma_resize_counts, level_counts, queue_count, side_count,
};
use crate::exchange::laws::{
    consistent, entries_of, lemma_accept_consistent, lemma_aggress_consistent, lemma_aggress_frame,
    lemma_apply_fills, lemma_apply_pairings, lemma_cancel_limit_consistent,
    lemma_close_session_consistent, lemma_open_session_consistent, lemma_remove_prl_consistent,
    lemma_rest_consistent, lemma_same_book_consistent, lemma_update_prl_consistent, quiet,
    same_book,
};
use crate::exchange::matching::{
    accept, aggress, apply_fills, apply_pairings, cancellations, close_session, crossing_kind,
    fill_replies, handle_history, handle_request, insert_limit, is_trader_aggressor, market_kind,
    pairing_replies, pending_market_at, placement_refusal, prematch, rest_order, takes_history,
    tape_trade, AggressiveOrderType, EngineView, Pairing,
};
use crate::exchange::resting::{lemma_aggress_limits_rest, limits_rest};
use crate::exchange::runs::{after_all, happen, Happening};
use crate::exchange::sums::{
    lemma_first_index_found, lemma_sum_concat, lemma_sum_first, lemma_sum_monotone, lemma_sum_one,
    lemma_sum_remove, lemma_sum_update, sum_over,
};
use crate::exchange::types::{LevelView, OrderBookEntry};
use crate::history::types::{HistoryEventBody, OrderOrigin};
use crate::message::{ExchangeReply, TraderRequest};
use crate::order::{LimitOrder, MarketOrder};
use crate::types::{Direction, OrderID, Price, Size};

verus! {

/// Whether a reply reports an execution, in part or in full, of the given order.
pub open spec fn is_fill_for(reply: ExchangeReply, order_id: OrderID) -> bool {
    reply.spec_order_id() == order_id && (reply is OrderPartiallyExecuted || reply is OrderExecuted)
}

/// Whether a reply says something of the given order other than about a
/// cancellation: that it is accepted, discarded, or executed in part or in full.
pub open spec fn is_verdict_for(reply: ExchangeReply, order_id: OrderID) -> bool {
    reply.spec_order_id() == order_id && !(reply is OrderCancelled || reply is CannotCancelOrder)
}

/// Whether the last verdict on the given order is that it is executed,
/// where `start` says whether it was so before the replies.
pub open spec fn finished_from(start: bool, replies: Seq<ExchangeReply>, order_id: OrderID) -> bool
    decreases replies.len(),
{
    if replies.len() == 0 {
        start
    } else if is_verdict_for(replies.last(), order_id) {
        replies.last() is OrderExecuted
    } else {
        finished_from(start, replies.drop_last(), order_id)
    }
}

/// Whether no reply reports an execution of the given order while the last
/// verdict on it is that it is executed, where `start` says whether it was
/// so before the replies.
pub open spec fn final_from(start: bool, replies: Seq<ExchangeReply>, order_id: OrderID) -> bool
    decreases replies.len(),
{
    if replies.len() == 0 {
        true
    } else {
        final_from(start, replies.drop_last(), order_id) && !(is_fill_for(
            replies.last(),
            order_id,
        ) && finished_from(start, replies.drop_last(), order_id))
    }
}

/// Whether the last verdict on the given order is that it is executed.
pub open spec fn finished(replies: Seq<ExchangeReply>, order_id: OrderID) -> bool {
    finished_from(false, replies, order_id)
}

/// Whether, after every reply that the given order is executed, the next
/// reply about it that is not about a cancellation reports no execution.
pub open spec fn execution_is_final(replies: Seq<ExchangeReply>, order_id: OrderID) -> bool {
    final_from(false, replies, order_id)
}

/// Replies in two runs are judged as in one.
pub proof fn lemma_final_joined(
    start: bool,
    first: Seq<ExchangeReply>,
    second: Seq<ExchangeReply>,
    order_id: OrderID,
)
    ensures
        finished_from(start, first + second, order_id) == finished_from(
            finished_from(start, first, order_id),
            second,
            order_id,
        ),
        final_from(start, first + second, order_id) == (final_from(start, first, order_id)
            && final_from(finished_from(start, first, order_id), second, order_id)),
    decreases second.len(),
{
    if second.len() == 0 {
        assert(first + second =~= first);
    } else {
        lemma_final_joined(start, first, second.drop_last(), order_id);
        assert((first + second).drop_last() =~= first + second.drop_last());
        assert((first + second).last() == second.last());
    }
}

/// Replies that give no verdict on an order change nothing for it.
pub proof fn lemma_final_silent(start: bool, replies: Seq<ExchangeReply>, order_id: OrderID)
    requires
        forall|i: int| 0 <= i < replies.len() ==> !is_verdict_for(#[trigger] replies[i], order_id),
    ensures
        finished_from(start, replies, order_id) == start,
        final_from(start, replies, order_id),
    decreases replies.len(),
{
    if replies.len() > 0 {
        assert forall|i: int| 0 <= i < replies.drop_last().len() implies !is_verdict_for(
            #[trigger] replies.drop_last()[i],
            order_id,
        ) by {
            assert(replies.drop_last()[i] == replies[i]);
        }
        lemma_final_silent(start, replies.drop_last(), order_id);
        assert(!is_verdict_for(replies[replies.len() - 1], order_id));
    }
}

/// One verdict on an order that was not finished: it is in order, and the
/// order is finished if the verdict is that it is executed.
pub proof fn lemma_final_one(reply: ExchangeReply, order_id: OrderID)
    requires
        is_verdict_for(reply, order_id),
    ensures
        finished_from(false, seq![reply], order_id) == (reply is OrderExecuted),
        final_from(false, seq![reply], order_id),
        !is_fill_for(reply, order_id) ==> final_from(true, seq![reply], order_id) && finished_from(
            true,
            seq![reply],
            order_id,
        ) == false,
{
    let none = seq![reply].drop_last();
    assert(none =~= Seq::<ExchangeReply>::empty());
    assert(seq![reply].last() == reply);
    assert(finished_from(false, none, order_id) == false);
    assert(finished_from(true, none, order_id) == true);
    assert(final_from(false, none, order_id));
    assert(final_from(true, none, order_id));
}

/// What the trader is told about a run of fills.
pub open spec fn replies_of_fills(fills: Seq<Fill>, aggressor: OrderID, kind: AggressiveOrderType) -> Seq<
    ExchangeReply,
>
    decreases fills.len(),
{
    if fills.len() == 0 {
        Seq::empty()
    } else {
        replies_of_fills(fills.drop_last(), aggressor, kind) + fill_replies(
            fills.last(),
            aggressor,
            kind,
        )
    }
}

/// Accounting for fills adds what the trader is told about them to the replies.
pub proof fn lemma_apply_fills_replies(
    state: EngineView,
    fills: Seq<Fill>,
    order: MarketOrder,
    kind: AggressiveOrderType,
)
    ensures
        apply_fills(state, fills, order, kind).replies == state.replies + replies_of_fills(
            fills,
            order.order_id,
            kind,
        ),
    decreases fills.len(),
{
    if fills.len() == 0 {
        assert(state.replies + Seq::<ExchangeReply>::empty() =~= state.replies);
    } else {
        lemma_apply_fills_replies(state, fills.drop_last(), order, kind);
        let front = replies_of_fills(fills.drop_last(), order.order_id, kind);
        let told = fill_replies(fills.last(), order.order_id, kind);
        assert((state.replies + front) + told =~= state.replies + (front + told));
    }
}

/// One for a fill against the given order of the given owner.
pub open spec fn fill_about(order_id: OrderID, from: OrderOrigin) -> spec_fn(Fill) -> nat {
    |fill: Fill|
        if fill.order_id == order_id && fill.from == from {
            1nat
        } else {
            0nat
        }
}

/// The number of fills against the given order of the given owner.
pub open spec fn fills_about(fills: Seq<Fill>, order_id: OrderID, from: OrderOrigin) -> nat {
    sum_over(fills, fill_about(order_id, from))
}

/// Whether no fill but the last used up the aggressor.
pub open spec fn only_last_ends(fills: Seq<Fill>) -> bool {
    forall|k: int| 0 <= k < fills.len() - 1 ==> !(#[trigger] fills[k]).aggressor_done
}

/// An order is filled in a queue no more often than it has entries there,
/// only the last fill can use up the aggressor, and it does if nothing is left of the aggressor.
pub proof fn lemma_consume_queue_fills(
    queue: Seq<OrderBookEntry>,
    price: Price,
    amount: u64,
    take_history: bool,
    order_id: OrderID,
    from: OrderOrigin,
)
    ensures
        ({
            let outcome = consume_queue(queue, price, amount, take_history);
            &&& fills_about(outcome.fills, order_id, from) <= queue_count(queue, order_id, from)
            &&& only_last_ends(outcome.fills)
            &&& outcome.fills.len() > 0 ==> (outcome.fills.last().aggressor_done <==> outcome.remaining
                == 0)
            &&& outcome.fills.len() == 0 ==> outcome.remaining == amount
        }),
    decreases queue.len(),
{
    let outcome = consume_queue(queue, price, amount, take_history);
    let about = fill_about(order_id, from);
    if queue.len() == 0 || amount == 0 {
    } else {
        let entry = queue[0];
        lemma_sum_first(queue, entry_counts(order_id, from));
        let fill = outcome.fills[0];
        lemma_sum_one(fill, about);
        if amount < entry.size.0 {
            assert(outcome.fills =~= seq![fill]);
        } else {
            let left = (amount - entry.size.0) as u64;
            let rest = consume_queue(queue.drop_first(), price, left, take_history);
            lemma_consume_queue_fills(
                queue.drop_first(),
                price,
                left,
                take_history,
                order_id,
                from,
            );
            assert(outcome.fills =~= seq![fill] + rest.fills);
            lemma_sum_concat(seq![fill], rest.fills, about);
            assert forall|k: int| 0 <= k < outcome.fills.len() - 1 implies !(
            #[trigger] outcome.fills[k]).aggressor_done by {
                if k > 0 {
                    assert(outcome.fills[k] == rest.fills[k - 1]);
                } else {
                    assert(rest.fills.len() > 0);
                    assert(left != 0);
                }
            }
            if rest.fills.len() > 0 {
                assert(outcome.fills.last() == rest.fills.last());
            }
        }
    }
}

/// An order is filled on a side no more often than it has entries there,
/// only the last fill can use up the aggressor, and it does if nothing is left of the aggressor.
pub proof fn lemma_consume_side_fills(
    levels: Seq<LevelView>,
    amount: u64,
    take_history: bool,
    order_id: OrderID,
    from: OrderOrigin,
)
    ensures
        ({
            let outcome = consume_side(levels, amount, take_history);
            &&& fills_about(outcome.fills, order_id, from) <= side_count(
                levels,
                None,
                order_id,
                from,
            )
            &&& only_last_ends(outcome.fills)
            &&& outcome.fills.len() > 0 ==> (outcome.fills.last().aggressor_done <==> outcome.remaining
                == 0)
            &&& outcome.fills.len() == 0 ==> outcome.remaining == amount
        }),
    decreases levels.len(),
{
    let outcome = consume_side(levels, amount, take_history);
    let about = fill_about(order_id, from);
    if levels.len() == 0 || amount == 0 {
    } else {
        let first = consume_queue(levels[0].queue, levels[0].price, amount, take_history);
        let rest = consume_side(levels.drop_first(), first.remaining, take_history);
        lemma_consume_queue_fills(
            levels[0].queue,
            levels[0].price,
            amount,
            take_history,
            order_id,
            from,
        );
        lemma_consume_side_fills(
            levels.drop_first(),
            first.remaining,
            take_history,
            order_id,
            from,
        );
        lemma_sum_first(levels, level_counts(None, order_id, from));
        lemma_sum_concat(first.fills, rest.fills, about);
        assert forall|k: int| 0 <= k < outcome.fills.len() - 1 implies !(
        #[trigger] outcome.fills[k]).aggressor_done by {
            if k < first.fills.len() {
                assert(outcome.fills[k] == first.fills[k]);
                if k == first.fills.len() - 1 {
                    assert(rest.fills.len() > 0);
                    assert(first.remaining != 0);
                }
            } else {
                assert(outcome.fills[k] == rest.fills[k - first.fills.len()]);
            }
        }
        if rest.fills.len() > 0 {
            assert(outcome.fills.last() == rest.fills.last());
        } else if first.fills.len() > 0 {
            assert(outcome.fills.last() == first.fills.last());
            assert(outcome.fills =~= first.fills);
        }
    }
}

/// The fills that took an order out of the book are among the fills against it.
pub proof fn lemma_taken_among_fills(
    fills: Seq<Fill>,
    order_id: OrderID,
    from: OrderOrigin,
    take_history: bool,
)
    ensures
        fills_taken(fills, None, order_id, from, take_history) <= fills_about(fills, order_id, from),
{
    lemma_sum_monotone(
        fills,
        fill_counts(None, order_id, from, take_history),
        fill_about(order_id, from),
    );
}

/// What the replies about fills say of a resting order of the trader, or of
/// any order but the aggressor: nothing where no fill is against it; where
/// one fill is against it and it was not finished, one verdict, which
/// finishes it if the fill used it up.
pub proof fn lemma_fills_on_resting(
    start: bool,
    fills: Seq<Fill>,
    aggressor: OrderID,
    kind: AggressiveOrderType,
    order_id: OrderID,
)
    requires
        aggressor != order_id || !is_trader_aggressor(kind),
        fills_about(fills, order_id, OrderOrigin::Trader) <= 1,
    ensures
        ({
            let told = replies_of_fills(fills, aggressor, kind);
            if fills_about(fills, order_id, OrderOrigin::Trader) == 0 {
                finished_from(start, told, order_id) == start && final_from(start, told, order_id)
            } else {
                final_from(false, told, order_id) && finished_from(false, told, order_id) == (
                fills_taken(fills, None, order_id, OrderOrigin::Trader, true) == 1)
            }
        }),
    decreases fills.len(),
{
    let about = fill_about(order_id, OrderOrigin::Trader);
    let taken = fill_counts(None, order_id, OrderOrigin::Trader, true);
    if fills.len() > 0 {
        let front = fills.drop_last();
        let last = fills.last();
        let told_front = replies_of_fills(front, aggressor, kind);
        let told_last = fill_replies(last, aggressor, kind);
        lemma_taken_among_fills(front, order_id, OrderOrigin::Trader, true);
        lemma_fills_on_resting(start, front, aggressor, kind, order_id);
        lemma_fills_on_resting(false, front, aggressor, kind, order_id);
        lemma_final_joined(start, told_front, told_last, order_id);
        lemma_final_joined(false, told_front, told_last, order_id);
        lemma_fill_replies_on_resting(last, aggressor, kind, order_id);
        if about(last) == 0 {
            lemma_final_silent(start, told_last, order_id);
            lemma_final_silent(false, told_last, order_id);
            lemma_final_silent(true, told_last, order_id);
        }
    }
}

/// What the replies about one fill say of an order that is not the
/// aggressor: nothing if the fill is not against it, and one verdict if it is.
pub proof fn lemma_fill_replies_on_resting(
    fill: Fill,
    aggressor: OrderID,
    kind: AggressiveOrderType,
    order_id: OrderID,
)
    requires
        aggressor != order_id || !is_trader_aggressor(kind),
    ensures
        ({
            let told = fill_replies(fill, aggressor, kind);
            if fill.order_id == order_id && fill.from == OrderOrigin::Trader {
                final_from(false, told, order_id) && finished_from(false, told, order_id)
                    == fill.resting_done
            } else {
                forall|i: int| 0 <= i < told.len() ==> !is_verdict_for(#[trigger] told[i], order_id)
            }
        }),
{
    let told = fill_replies(fill, aggressor, kind);
    let to_aggressor = if kind == AggressiveOrderType::TraderMarketOrder && fill.aggressor_done {
        seq![ExchangeReply::OrderExecuted(aggressor, fill.size, fill.price)]
    } else if is_trader_aggressor(kind) {
        seq![ExchangeReply::OrderPartiallyExecuted(aggressor, fill.size, fill.price)]
    } else {
        Seq::empty()
    };
    if fill.order_id == order_id && fill.from == OrderOrigin::Trader {
        let to_resting = told[told.len() - 1];
        assert(told =~= to_aggressor + seq![to_resting]);
        lemma_final_joined(false, to_aggressor, seq![to_resting], order_id);
        lemma_final_silent(false, to_aggressor, order_id);
        lemma_final_one(to_resting, order_id);
    }
}

/// What the replies about fills say of the aggressor, where it is the
/// trader's and rests nowhere: that it is executed in part, fill by fill, and
/// with the last fill that it is executed if it is a market order that this
/// fill used up.
pub proof fn lemma_fills_on_aggressor(
    fills: Seq<Fill>,
    aggressor: OrderID,
    kind: AggressiveOrderType,
)
    requires
        is_trader_aggressor(kind),
        fills_about(fills, aggressor, OrderOrigin::Trader) == 0,
        only_last_ends(fills),
    ensures
        final_from(false, replies_of_fills(fills, aggressor, kind), aggressor),
        finished_from(false, replies_of_fills(fills, aggressor, kind), aggressor) == (fills.len() > 0
            && fills.last().aggressor_done && kind == AggressiveOrderType::TraderMarketOrder),
    decreases fills.len(),
{
    let about = fill_about(aggressor, OrderOrigin::Trader);
    if fills.len() > 0 {
        let front = fills.drop_last();
        let last = fills.last();
        let told_front = replies_of_fills(front, aggressor, kind);
        let told_last = fill_replies(last, aggressor, kind);
        assert forall|k: int| 0 <= k < front.len() - 1 implies !(#[trigger] front[k]).aggressor_done by {
            assert(front[k] == fills[k]);
        }
        if front.len() > 0 {
            assert(front.last() == fills[fills.len() - 2]);
        }
        lemma_fills_on_aggressor(front, aggressor, kind);
        lemma_final_joined(false, told_front, told_last, aggressor);
        let to_aggressor = told_last[0];
        let to_resting = if last.from != OrderOrigin::Trader {
            Seq::<ExchangeReply>::empty()
        } else if last.resting_done {
            seq![ExchangeReply::OrderExecuted(last.order_id, last.size, last.price)]
        } else {
            seq![ExchangeReply::OrderPartiallyExecuted(last.order_id, last.size, last.price)]
        };
        assert(told_last =~= seq![to_aggressor] + to_resting);
        assert(about(last) == 0);
        lemma_final_joined(false, seq![to_aggressor], to_resting, aggressor);
        lemma_final_one(to_aggressor, aggressor);
        lemma_final_silent(to_aggressor is OrderExecuted, to_resting, aggressor);
    }
}

/// What the trader is told about a run of pairings.
pub open spec fn replies_of_pairings(pairings: Seq<Pairing>, order: LimitOrder, origin: OrderOrigin) -> Seq<
    ExchangeReply,
>
    decreases pairings.len(),
{
    if pairings.len() == 0 {
        Seq::empty()
    } else {
        replies_of_pairings(pairings.drop_last(), order, origin) + pairing_replies(
            pairings.last(),
            order,
            origin,
        )
    }
}

/// Accounting for pairings adds what the trader is told about them to the replies.
pub proof fn lemma_apply_pairings_replies(
    state: EngineView,
    pairings: Seq<Pairing>,
    order: LimitOrder,
    origin: OrderOrigin,
)
    ensures
        apply_pairings(state, pairings, order, origin).replies == state.replies
            + replies_of_pairings(pairings, order, origin),
    decreases pairings.len(),
{
    if pairings.len() == 0 {
        assert(state.replies + Seq::<ExchangeReply>::empty() =~= state.replies);
    } else {
        lemma_apply_pairings_replies(state, pairings.drop_last(), order, origin);
        let front = replies_of_pairings(pairings.drop_last(), order, origin);
        let told = pairing_replies(pairings.last(), order, origin);
        assert((state.replies + front) + told =~= state.replies + (front + told));
    }
}

/// One for a waiting market order with the given identifier.
pub open spec fn market_counts(order_id: OrderID) -> spec_fn(MarketOrder) -> nat {
    |order: MarketOrder|
        if order.order_id == order_id {
            1nat
        } else {
            0nat
        }
}

/// The number of waiting market orders with the given identifier.
pub open spec fn waiting_count(pending: Seq<MarketOrder>, order_id: OrderID) -> nat {
    sum_over(pending, market_counts(order_id))
}

/// One for a pairing with the given market order.
pub open spec fn pairing_about(order_id: OrderID) -> spec_fn(Pairing) -> nat {
    |pairing: Pairing|
        if pairing.order_id == order_id {
            1nat
        } else {
            0nat
        }
}

/// The number of pairings with the given market order.
pub open spec fn pairings_about(pairings: Seq<Pairing>, order_id: OrderID) -> nat {
    sum_over(pairings, pairing_about(order_id))
}

/// One for a pairing that used up the given market order.
pub open spec fn pairing_ends(order_id: OrderID) -> spec_fn(Pairing) -> nat {
    |pairing: Pairing|
        if pairing.order_id == order_id && pairing.pending_done {
            1nat
        } else {
            0nat
        }
}

/// The number of pairings that used up the given market order.
pub open spec fn pairings_ending(pairings: Seq<Pairing>, order_id: OrderID) -> nat {
    sum_over(pairings, pairing_ends(order_id))
}

/// Whether no pairing but the last used up the limit.
pub open spec fn only_last_pairing_ends(pairings: Seq<Pairing>) -> bool {
    forall|k: int| 0 <= k < pairings.len() - 1 ==> !(#[trigger] pairings[k]).order_done
}

/// A waiting market order is paired no more often than it waits, it leaves
/// when a pairing uses it up, only the last pairing can use up the limit, and
/// it does if nothing is left of the limit.
pub proof fn lemma_prematch_pairs(
    pending: Seq<MarketOrder>,
    incoming: Direction,
    amount: u64,
    order_id: OrderID,
)
    ensures
        ({
            let outcome = prematch(pending, incoming, amount);
            &&& pairings_about(outcome.pairings, order_id) <= waiting_count(pending, order_id)
            &&& waiting_count(outcome.pending, order_id) + pairings_ending(
                outcome.pairings,
                order_id,
            ) == waiting_count(pending, order_id)
            &&& only_last_pairing_ends(outcome.pairings)
            &&& outcome.pairings.len() > 0 ==> (outcome.pairings.last().order_done
                <==> outcome.remaining == 0)
            &&& outcome.pairings.len() == 0 ==> outcome.remaining == amount
        }),
    decreases pending.len(),
{
    let outcome = prematch(pending, incoming, amount);
    let counts = market_counts(order_id);
    let about = pairing_about(order_id);
    let ends = pairing_ends(order_id);
    if pending.len() == 0 || amount == 0 {
    } else {
        let waiting = pending[0];
        lemma_sum_first(pending, counts);
        if waiting.direction == incoming {
            let rest = prematch(pending.drop_first(), incoming, amount);
            lemma_prematch_pairs(pending.drop_first(), incoming, amount, order_id);
            lemma_sum_concat(seq![waiting], rest.pending, counts);
            lemma_sum_one(waiting, counts);
        } else if amount < waiting.size.0 {
            let pairing = outcome.pairings[0];
            assert(outcome.pairings =~= seq![pairing]);
            lemma_sum_one(pairing, about);
            lemma_sum_one(pairing, ends);
            lemma_sum_update(pending, 0, outcome.pending[0], counts);
            assert(outcome.pending =~= pending.update(0, outcome.pending[0]));
        } else {
            let left = (amount - waiting.size.0) as u64;
            let rest = prematch(pending.drop_first(), incoming, left);
            lemma_prematch_pairs(pending.drop_first(), incoming, left, order_id);
            let pairing = outcome.pairings[0];
            assert(outcome.pairings =~= seq![pairing] + rest.pairings);
            lemma_sum_concat(seq![pairing], rest.pairings, about);
            lemma_sum_concat(seq![pairing], rest.pairings, ends);
            lemma_sum_one(pairing, about);
            lemma_sum_one(pairing, ends);
            assert forall|k: int| 0 <= k < outcome.pairings.len() - 1 implies !(
            #[trigger] outcome.pairings[k]).order_done by {
                if k > 0 {
                    assert(outcome.pairings[k] == rest.pairings[k - 1]);
                } else {
                    assert(rest.pairings.len() > 0);
                    assert(left != 0);
                }
            }
            if rest.pairings.len() > 0 {
                assert(outcome.pairings.last() == rest.pairings.last());
            }
        }
    }
}

/// What the replies about one pairing say of an order that is not the
/// arriving limit of the trader: nothing if the pairing is not with it, and
/// one verdict if it is.
pub proof fn lemma_pairing_replies_on_pending(
    pairing: Pairing,
    order: LimitOrder,
    origin: OrderOrigin,
    order_id: OrderID,
)
    requires
        order.order_id != order_id || origin != OrderOrigin::Trader,
    ensures
        ({
            let told = pairing_replies(pairing, order, origin);
            if pairing.order_id == order_id {
                final_from(false, told, order_id) && finished_from(false, told, order_id)
                    == pairing.pending_done
            } else {
                forall|i: int| 0 <= i < told.len() ==> !is_verdict_for(#[trigger] told[i], order_id)
            }
        }),
{
    let told = pairing_replies(pairing, order, origin);
    if pairing.order_id == order_id {
        let to_pending = told[0];
        let to_order = told.drop_first();
        assert(told =~= seq![to_pending] + to_order);
        lemma_final_joined(false, seq![to_pending], to_order, order_id);
        lemma_final_one(to_pending, order_id);
        lemma_final_silent(to_pending is OrderExecuted, to_order, order_id);
    }
}

/// What the replies about pairings say of a waiting market order, or of any
/// order but the arriving limit of the trader: nothing where no pairing is
/// with it; where one pairing is with it and it was not finished, one
/// verdict, which finishes it if the pairing used it up.
pub proof fn lemma_pairings_on_pending(
    start: bool,
    pairings: Seq<Pairing>,
    order: LimitOrder,
    origin: OrderOrigin,
    order_id: OrderID,
)
    requires
        order.order_id != order_id || origin != OrderOrigin::Trader,
        pairings_about(pairings, order_id) <= 1,
    ensures
        ({
            let told = replies_of_pairings(pairings, order, origin);
            if pairings_about(pairings, order_id) == 0 {
                finished_from(start, told, order_id) == start && final_from(start, told, order_id)
            } else {
                final_from(false, told, order_id) && finished_from(false, told, order_id) == (
                pairings_ending(pairings, order_id) == 1)
            }
        }),
    decreases pairings.len(),
{
    let about = pairing_about(order_id);
    if pairings.len() > 0 {
        let front = pairings.drop_last();
        let last = pairings.last();
        let told_front = replies_of_pairings(front, order, origin);
        let told_last = pairing_replies(last, order, origin);
        lemma_sum_monotone(front, pairing_ends(order_id), about);
        lemma_pairings_on_pending(start, front, order, origin, order_id);
        lemma_pairings_on_pending(false, front, order, origin, order_id);
        lemma_final_joined(start, told_front, told_last, order_id);
        lemma_final_joined(false, told_front, told_last, order_id);
        lemma_pairing_replies_on_pending(last, order, origin, order_id);
        if about(last) == 0 {
            lemma_final_silent(start, told_last, order_id);
            lemma_final_silent(false, told_last, order_id);
            lemma_final_silent(true, told_last, order_id);
        }
    }
}

/// What the replies about pairings say of the arriving limit, where it is
/// the trader's and does not wait as a market order: that it is executed in
/// part, pairing by pairing, and with the last pairing that it is executed if
/// this pairing used it up.
pub proof fn lemma_pairings_on_order(pairings: Seq<Pairing>, order: LimitOrder)
    requires
        pairings_about(pairings, order.order_id) == 0,
        only_last_pairing_ends(pairings),
    ensures
        final_from(
            false,
            replies_of_pairings(pairings, order, OrderOrigin::Trader),
            order.order_id,
        ),
        finished_from(
            false,
            replies_of_pairings(pairings, order, OrderOrigin::Trader),
            order.order_id,
        ) == (pairings.len() > 0 && pairings.last().order_done),
    decreases pairings.len(),
{
    let about = pairing_about(order.order_id);
    if pairings.len() > 0 {
        let front = pairings.drop_last();
        let last = pairings.last();
        let told_front = replies_of_pairings(front, order, OrderOrigin::Trader);
        let told_last = pairing_replies(last, order, OrderOrigin::Trader);
        assert forall|k: int| 0 <= k < front.len() - 1 implies !(#[trigger] front[k]).order_done by {
            assert(front[k] == pairings[k]);
        }
        if front.len() > 0 {
            assert(front.last() == pairings[pairings.len() - 2]);
        }
        lemma_pairings_on_order(front, order);
        lemma_final_joined(false, told_front, told_last, order.order_id);
        let to_pending = told_last[0];
        let to_order = told_last[1];
        assert(told_last =~= seq![to_pending] + seq![to_order]);
        assert(about(last) == 0);
        lemma_final_joined(false, seq![to_pending], seq![to_order], order.order_id);
        lemma_final_silent(false, seq![to_pending], order.order_id);
        lemma_final_one(to_order, order.order_id);
    }
}

/// Whether something of the given order of the trader is still open: it
/// rests in the book or waits for liquidity.
pub open spec fn is_open(state: EngineView, order_id: OrderID) -> bool {
    entries_of(state, order_id, OrderOrigin::Trader) > 0 || waiting_count(
        state.pending_markets,
        order_id,
    ) > 0
}

/// Whether every waiting market order waits once, under an identifier that
/// the trader used in this session and that is no pending limit's.
pub open spec fn markets_tracked(state: EngineView) -> bool {
    forall|raw: u64|
        #[trigger] waiting_count(state.pending_markets, OrderID(raw)) <= 1 && (waiting_count(
            state.pending_markets,
            OrderID(raw),
        ) > 0 ==> state.submitted.contains(raw) && !state.pending_limits.contains_key(raw))
}

/// The invariants of the engine, those of the waiting market orders included.
pub open spec fn tidy(state: EngineView) -> bool {
    consistent(state) && markets_tracked(state)
}

/// Whether the replies so far keep the last word on the given order, and
/// nothing of it is open if the last word is that it is executed.
pub open spec fn sealed(state: EngineView, order_id: OrderID) -> bool {
    execution_is_final(state.replies, order_id) && (finished(state.replies, order_id) ==> !is_open(
        state,
        order_id,
    ))
}

/// Whether an order can be placed: the trader has used its identifier in
/// this session, nothing of it is open, and it is not finished.
pub open spec fn placeable(state: EngineView, order_id: OrderID) -> bool {
    state.submitted.contains(order_id.0) && !is_open(state, order_id) && !finished(
        state.replies,
        order_id,
    )
}

/// For an order of the trader, a fill that uses it up takes it out of the
/// book under either policy.
pub proof fn lemma_taken_of_trader(fills: Seq<Fill>, order_id: OrderID, take_history: bool)
    ensures
        fills_taken(fills, None, order_id, OrderOrigin::Trader, take_history) == fills_taken(
            fills,
            None,
            order_id,
            OrderOrigin::Trader,
            true,
        ),
{
    let either = fill_counts(None, order_id, OrderOrigin::Trader, take_history);
    let always = fill_counts(None, order_id, OrderOrigin::Trader, true);
    lemma_sum_monotone(fills, either, always);
    lemma_sum_monotone(fills, always, either);
}

/// An execution stays final over an aggression, whatever the aggressor is:
/// where the replies so far keep the last word on an order and nothing of it
/// is open once it is executed, the same holds after the aggressor went
/// through the book, and an order that is executed is no pending limit. Of
/// the aggressor this asks nothing, but where the order is the aggressor
/// itself, placed by the trader: then nothing of it is open yet and it is
/// not executed yet.
pub proof fn law_aggression_keeps_execution_final(
    state: EngineView,
    order: MarketOrder,
    kind: AggressiveOrderType,
    order_id: OrderID,
)
    requires
        tidy(state),
        sealed(state, order_id),
        is_trader_aggressor(kind) && order.order_id == order_id ==> !is_open(state, order_id)
            && !finished(state.replies, order_id),
    ensures
        sealed(aggress(state, order, kind), order_id),
        finished(aggress(state, order, kind).replies, order_id) ==> !aggress(
            state,
            order,
            kind,
        ).pending_limits.contains_key(order_id.0),
{
    let opposite = order.direction.spec_opposite();
    let take_history = takes_history(kind, state.trade_updates_book);
    let outcome = consume_side(state.side(opposite), order.size.0, take_history);
    let emptied = state.with_side(opposite, outcome.levels);
    let after = aggress(state, order, kind);
    let told = replies_of_fills(outcome.fills, order.order_id, kind);
    assert(limits_rest(state)) by {
        assert forall|raw: u64|
            if state.pending_limits.contains_key(raw) {
                &&& #[trigger] entries_of(state, OrderID(raw), OrderOrigin::Trader) == 1
                &&& side_count(
                    state.side(state.pending_limits[raw].1),
                    Some(state.pending_limits[raw].0),
                    OrderID(raw),
                    OrderOrigin::Trader,
                ) == 1
            } else {
                entries_of(state, OrderID(raw), OrderOrigin::Trader) == 0
            } by {}
    }
    lemma_aggress_limits_rest(state, order, kind);
    assert(after.pending_limits.contains_key(order_id.0) ==> entries_of(
        after,
        OrderID(order_id.0),
        OrderOrigin::Trader,
    ) == 1);
    lemma_apply_fills(emptied, outcome.fills, order, kind);
    lemma_apply_fills_replies(emptied, outcome.fills, order, kind);
    assert(after.replies == state.replies + told);
    let pushed = outcome.remaining > 0 && kind == AggressiveOrderType::TraderMarketOrder;
    if pushed {
        let waiting = MarketOrder {
            order_id: order.order_id,
            size: Size(outcome.remaining),
            direction: order.direction,
        };
        assert(after.pending_markets == state.pending_markets.push(waiting));
        assert(after.pending_markets.drop_last() =~= state.pending_markets);
    } else {
        assert(after.pending_markets == state.pending_markets);
    }
    lemma_aggress_entries(state, order, kind, order_id);
    lemma_consume_side_fills(
        state.side(opposite),
        order.size.0,
        take_history,
        order_id,
        OrderOrigin::Trader,
    );
    lemma_side_entries_in_book(state, opposite, order_id);
    assert(entries_of(state, OrderID(order_id.0), OrderOrigin::Trader) <= 1);
    assert(waiting_count(state.pending_markets, OrderID(order_id.0)) <= 1);
    lemma_final_joined(false, state.replies, told, order_id);
    lemma_taken_of_trader(outcome.fills, order_id, take_history);
    if order.order_id == order_id && is_trader_aggressor(kind) {
        lemma_fills_on_aggressor(outcome.fills, order.order_id, kind);
    } else {
        lemma_fills_on_resting(
            finished(state.replies, order_id),
            outcome.fills,
            order.order_id,
            kind,
            order_id,
        );
    }
}

/// An aggressor keeps the engine tidy and the last word on every order.
pub proof fn lemma_aggress_final(
    state: EngineView,
    order: MarketOrder,
    kind: AggressiveOrderType,
    order_id: OrderID,
)
    requires
        tidy(state),
        !state.closed,
        sealed(state, order_id),
        is_trader_aggressor(kind) ==> placeable(state, order.order_id),
    ensures
        tidy(aggress(state, order, kind)),
        sealed(aggress(state, order, kind), order_id),
        !aggress(state, order, kind).closed,
        kind != AggressiveOrderType::TraderMarketOrder && !is_open(state, order.order_id)
            && !finished(state.replies, order.order_id) ==> !is_open(
            aggress(state, order, kind),
            order.order_id,
        ) && !finished(aggress(state, order, kind).replies, order.order_id),
{
    let opposite = order.direction.spec_opposite();
    let take_history = takes_history(kind, state.trade_updates_book);
    let outcome = consume_side(state.side(opposite), order.size.0, take_history);
    let emptied = state.with_side(opposite, outcome.levels);
    let after = aggress(state, order, kind);
    let told = replies_of_fills(outcome.fills, order.order_id, kind);
    lemma_aggress_consistent(state, order, kind);
    lemma_aggress_frame(state, order, kind);
    lemma_apply_fills(emptied, outcome.fills, order, kind);
    let pushed = outcome.remaining > 0 && kind == AggressiveOrderType::TraderMarketOrder;
    if pushed {
        let waiting = MarketOrder {
            order_id: order.order_id,
            size: Size(outcome.remaining),
            direction: order.direction,
        };
        assert(after.pending_markets == state.pending_markets.push(waiting));
        assert(after.pending_markets.drop_last() =~= state.pending_markets);
    } else {
        assert(after.pending_markets == state.pending_markets);
    }
    assert forall|raw: u64|
        #[trigger] waiting_count(after.pending_markets, OrderID(raw)) <= 1 && (waiting_count(
            after.pending_markets,
            OrderID(raw),
        ) > 0 ==> after.submitted.contains(raw) && !after.pending_limits.contains_key(raw)) by {
        assert(waiting_count(state.pending_markets, OrderID(raw)) <= 1);
        assert(entries_of(state, OrderID(raw), OrderOrigin::Trader) >= 0);
    }
    law_aggression_keeps_execution_final(state, order, kind, order_id);
    if kind != AggressiveOrderType::TraderMarketOrder && !is_open(state, order.order_id)
        && !finished(state.replies, order.order_id) {
        lemma_apply_fills_replies(emptied, outcome.fills, order, kind);
        assert(after.replies == state.replies + told);
        lemma_aggress_entries(state, order, kind, order.order_id);
        lemma_consume_side_fills(
            state.side(opposite),
            order.size.0,
            take_history,
            order.order_id,
            OrderOrigin::Trader,
        );
        lemma_side_entries_in_book(state, opposite, order.order_id);
        lemma_final_joined(false, state.replies, told, order.order_id);
        if is_trader_aggressor(kind) {
            lemma_fills_on_aggressor(outcome.fills, order.order_id, kind);
        } else {
            lemma_fills_on_resting(false, outcome.fills, order.order_id, kind, order.order_id);
        }
    }
}

/// The entries that an order has on one side are among those that it has in the book.
pub proof fn lemma_side_entries_in_book(state: EngineView, side: Direction, order_id: OrderID)
    ensures
        side_count(state.side(side), None, order_id, OrderOrigin::Trader) <= entries_of(
            state,
            order_id,
            OrderOrigin::Trader,
        ),
{
}

/// What an aggressor leaves of the entries of an order of the trader: what
/// there was, less the fills that used them up.
pub proof fn lemma_aggress_entries(
    state: EngineView,
    order: MarketOrder,
    kind: AggressiveOrderType,
    order_id: OrderID,
)
    ensures
        ({
            let outcome = consume_side(
                state.side(order.direction.spec_opposite()),
                order.size.0,
                takes_history(kind, state.trade_updates_book),
            );
            entries_of(aggress(state, order, kind), order_id, OrderOrigin::Trader) + fills_taken(
                outcome.fills,
                None,
                order_id,
                OrderOrigin::Trader,
                true,
            ) == entries_of(state, order_id, OrderOrigin::Trader)
        }),
{
    let opposite = order.direction.spec_opposite();
    let take_history = takes_history(kind, state.trade_updates_book);
    let outcome = consume_side(state.side(opposite), order.size.0, take_history);
    lemma_aggress_frame(state, order, kind);
    lemma_consume_side_counts(
        state.side(opposite),
        order.size.0,
        take_history,
        None,
        order_id,
        OrderOrigin::Trader,
    );
    lemma_taken_of_trader(outcome.fills, order_id, take_history);
}

/// The waiting market orders that a limit meets keep the engine tidy and the
/// last word on every order.
pub proof fn lemma_pairing_final(
    state: EngineView,
    order: LimitOrder,
    origin: OrderOrigin,
    order_id: OrderID,
)
    requires
        tidy(state),
        !state.closed,
        sealed(state, order_id),
        origin == OrderOrigin::Trader ==> placeable(state, order.order_id),
        origin == OrderOrigin::History ==> !state.history_order_ids.contains(order.order_id.0),
    ensures
        ({
            let met = prematch(state.pending_markets, order.direction, order.size.0);
            let paired = apply_pairings(
                EngineView { pending_markets: met.pending, ..state },
                met.pairings,
                order,
                origin,
            );
            &&& tidy(paired)
            &&& !paired.closed
            &&& sealed(paired, order_id)
            &&& origin == OrderOrigin::History ==> !paired.history_order_ids.contains(
                order.order_id.0,
            )
            &&& origin == OrderOrigin::Trader ==> paired.submitted.contains(order.order_id.0)
                && !is_open(paired, order.order_id) && (met.remaining > 0 ==> !finished(
                paired.replies,
                order.order_id,
            ))
        }),
{
    let met = prematch(state.pending_markets, order.direction, order.size.0);
    let unpaired = EngineView { pending_markets: met.pending, ..state };
    let paired = apply_pairings(unpaired, met.pairings, order, origin);
    let told = replies_of_pairings(met.pairings, order, origin);
    lemma_apply_pairings(unpaired, met.pairings, order, origin);
    lemma_apply_pairings_replies(unpaired, met.pairings, order, origin);
    lemma_same_book_consistent(state, paired);
    assert(paired.pending_markets == met.pending);
    assert forall|raw: u64|
        #[trigger] waiting_count(paired.pending_markets, OrderID(raw)) <= 1 && (waiting_count(
            paired.pending_markets,
            OrderID(raw),
        ) > 0 ==> paired.submitted.contains(raw) && !paired.pending_limits.contains_key(raw)) by {
        lemma_prematch_pairs(state.pending_markets, order.direction, order.size.0, OrderID(raw));
        assert(waiting_count(state.pending_markets, OrderID(raw)) <= 1);
    }
    lemma_prematch_pairs(state.pending_markets, order.direction, order.size.0, order_id);
    lemma_prematch_pairs(state.pending_markets, order.direction, order.size.0, order.order_id);
    assert(waiting_count(state.pending_markets, OrderID(order_id.0)) <= 1);
    assert(entries_of(state, OrderID(order_id.0), OrderOrigin::Trader) >= 0);
    assert(entries_of(paired, order_id, OrderOrigin::Trader) == entries_of(
        state,
        order_id,
        OrderOrigin::Trader,
    ));
    assert(entries_of(paired, order.order_id, OrderOrigin::Trader) == entries_of(
        state,
        order.order_id,
        OrderOrigin::Trader,
    ));
    lemma_final_joined(false, state.replies, told, order_id);
    lemma_final_joined(false, state.replies, told, order.order_id);
    if origin == OrderOrigin::Trader {
        lemma_pairings_on_order(met.pairings, order);
    }
    if order.order_id == order_id && origin == OrderOrigin::Trader {
    } else {
        lemma_pairings_on_pending(
            finished(state.replies, order_id),
            met.pairings,
            order,
            origin,
            order_id,
        );
    }
}

/// An order that comes to rest keeps the engine tidy and the last word on every order.
pub proof fn lemma_rest_final(
    state: EngineView,
    resting_id: OrderID,
    size: Size,
    direction: Direction,
    price: Price,
    origin: OrderOrigin,
    order_id: OrderID,
)
    requires
        tidy(state),
        !state.closed,
        sealed(state, order_id),
        size.0 > 0,
        origin == OrderOrigin::Trader ==> placeable(state, resting_id),
        origin == OrderOrigin::History ==> !state.history_order_ids.contains(resting_id.0),
    ensures
        tidy(rest_order(state, resting_id, size, direction, price, origin)),
        sealed(rest_order(state, resting_id, size, direction, price, origin), order_id),
{
    let after = rest_order(state, resting_id, size, direction, price, origin);
    let entry = OrderBookEntry { order_id: resting_id, size, from: origin };
    assert(entries_of(state, OrderID(resting_id.0), OrderOrigin::Trader) >= 0);
    lemma_rest_consistent(state, resting_id, size, direction, price, origin);
    lemma_place_counts(
        state.side(direction),
        direction,
        price,
        entry,
        None,
        order_id,
        OrderOrigin::Trader,
    );
    assert forall|raw: u64|
        #[trigger] waiting_count(after.pending_markets, OrderID(raw)) <= 1 && (waiting_count(
            after.pending_markets,
            OrderID(raw),
        ) > 0 ==> after.submitted.contains(raw) && !after.pending_limits.contains_key(raw)) by {
        assert(waiting_count(state.pending_markets, OrderID(raw)) <= 1);
    }
}

/// A limit keeps the engine tidy and the last word on every order.
pub proof fn lemma_insert_limit_final(
    state: EngineView,
    order: LimitOrder,
    origin: OrderOrigin,
    order_id: OrderID,
)
    requires
        tidy(state),
        !state.closed,
        sealed(state, order_id),
        origin == OrderOrigin::Trader ==> placeable(state, order.order_id),
        origin == OrderOrigin::History ==> !state.history_order_ids.contains(order.order_id.0),
    ensures
        tidy(insert_limit(state, order, origin)),
        sealed(insert_limit(state, order, origin), order_id),
{
    let met = prematch(state.pending_markets, order.direction, order.size.0);
    let unpaired = EngineView { pending_markets: met.pending, ..state };
    let paired = apply_pairings(unpaired, met.pairings, order, origin);
    lemma_pairing_final(state, order, origin, order_id);
    let amount = met.remaining;
    let crossing = crossing_volume(
        paired.side(order.direction.spec_opposite()),
        order.price,
        order.direction,
    );
    if amount == 0 {
    } else if crossing >= amount {
        lemma_aggress_final(
            paired,
            MarketOrder { order_id: order.order_id, size: Size(amount), direction: order.direction },
            market_kind(origin),
            order_id,
        );
    } else {
        let part = MarketOrder {
            order_id: order.order_id,
            size: Size(crossing as u64),
            direction: order.direction,
        };
        let crossed = if crossing == 0 {
            paired
        } else {
            aggress(paired, part, crossing_kind(origin))
        };
        if crossing != 0 {
            lemma_aggress_final(paired, part, crossing_kind(origin), order_id);
            lemma_aggress_frame(paired, part, crossing_kind(origin));
        }
        lemma_rest_final(
            crossed,
            order.order_id,
            Size((amount - crossing) as u64),
            order.direction,
            order.price,
            origin,
            order_id,
        );
    }
}

/// One more reply keeps the last word on an order if it reports no
/// execution of it; the order is not finished then if the reply is a verdict on it.
pub proof fn lemma_final_pushed(replies: Seq<ExchangeReply>, reply: ExchangeReply, order_id: OrderID)
    requires
        execution_is_final(replies, order_id),
        !is_fill_for(reply, order_id),
    ensures
        execution_is_final(replies.push(reply), order_id),
        finished(replies.push(reply), order_id) == (!is_verdict_for(reply, order_id) && finished(
            replies,
            order_id,
        )),
{
    assert(replies.push(reply).drop_last() =~= replies);
}

/// Accepting a placement under an identifier that the trader has not used
/// in this session makes the order placeable.
pub proof fn lemma_accept_final(state: EngineView, placed: OrderID, order_id: OrderID)
    requires
        tidy(state),
        !state.closed,
        sealed(state, order_id),
        !state.submitted.contains(placed.0),
    ensures
        tidy(accept(state, placed)),
        sealed(accept(state, placed), order_id),
        placeable(accept(state, placed), placed),
        !accept(state, placed).closed,
{
    let after = accept(state, placed);
    let reply = ExchangeReply::OrderAccepted(placed);
    lemma_accept_consistent(state, placed);
    lemma_final_pushed(state.replies, reply, order_id);
    assert(after.replies.drop_last() =~= state.replies);
    assert(entries_of(state, OrderID(placed.0), OrderOrigin::Trader) >= 0);
    assert(waiting_count(state.pending_markets, OrderID(placed.0)) <= 1);
    assert(entries_of(after, placed, OrderOrigin::Trader) == entries_of(
        state,
        placed,
        OrderOrigin::Trader,
    ));
    assert(entries_of(after, order_id, OrderOrigin::Trader) == entries_of(
        state,
        order_id,
        OrderOrigin::Trader,
    ));
    assert forall|raw: u64|
        #[trigger] waiting_count(after.pending_markets, OrderID(raw)) <= 1 && (waiting_count(
            after.pending_markets,
            OrderID(raw),
        ) > 0 ==> after.submitted.contains(raw) && !after.pending_limits.contains_key(raw)) by {
        assert(waiting_count(state.pending_markets, OrderID(raw)) <= 1);
    }
}

/// Every request of the trader keeps the engine tidy and the last word on every order.
pub proof fn lemma_request_final(state: EngineView, request: TraderRequest, order_id: OrderID)
    requires
        tidy(state),
        sealed(state, order_id),
    ensures
        tidy(handle_request(state, request)),
        sealed(handle_request(state, request), order_id),
{
    let after = handle_request(state, request);
    match request {
        TraderRequest::PlaceLimitOrder(order) => {
            match placement_refusal(state, order.order_id, order.size) {
                Some(reason) => {
                    lemma_reply_final(
                        state,
                        ExchangeReply::OrderPlacementDiscarded(order.order_id, reason),
                        order_id,
                    );
                },
                None => {
                    lemma_accept_final(state, order.order_id, order_id);
                    lemma_insert_limit_final(
                        accept(state, order.order_id),
                        order,
                        OrderOrigin::Trader,
                        order_id,
                    );
                },
            }
        },
        TraderRequest::PlaceMarketOrder(order) => {
            match placement_refusal(state, order.order_id, order.size) {
                Some(reason) => {
                    lemma_reply_final(
                        state,
                        ExchangeReply::OrderPlacementDiscarded(order.order_id, reason),
                        order_id,
                    );
                },
                None => {
                    lemma_accept_final(state, order.order_id, order_id);
                    lemma_aggress_final(
                        accept(state, order.order_id),
                        order,
                        AggressiveOrderType::TraderMarketOrder,
                        order_id,
                    );
                },
            }
        },
        TraderRequest::CancelLimitOrder(cancelled) => {
            lemma_cancel_limit_consistent(state, cancelled);
            let reply = after.replies.last();
            assert(after.replies.drop_last() =~= state.replies);
            assert(after.replies =~= state.replies.push(reply));
            lemma_final_pushed(state.replies, reply, order_id);
            assert forall|raw: u64|
                #[trigger] waiting_count(after.pending_markets, OrderID(raw)) <= 1 && (
                waiting_count(after.pending_markets, OrderID(raw)) > 0
                    ==> after.submitted.contains(raw) && !after.pending_limits.contains_key(raw)) by {
                assert(waiting_count(state.pending_markets, OrderID(raw)) <= 1);
            }
            if !state.closed && state.submitted.contains(cancelled.0)
                && state.pending_limits.contains_key(cancelled.0) {
                let (price, direction) = state.pending_limits[cancelled.0];
                if side_holds(state.side(direction), price, cancelled, OrderOrigin::Trader) {
                    lemma_remove_counts(
                        state.side(direction),
                        price,
                        cancelled,
                        OrderOrigin::Trader,
                        None,
                        order_id,
                        OrderOrigin::Trader,
                    );
                }
            }
        },
        TraderRequest::CancelMarketOrder(cancelled) => {
            lemma_same_book_consistent(state, after);
            let reply = after.replies.last();
            assert(after.replies.drop_last() =~= state.replies);
            assert(after.replies =~= state.replies.push(reply));
            lemma_final_pushed(state.replies, reply, order_id);
            let at = pending_market_at(state.pending_markets, cancelled);
            lemma_first_index_found(
                state.pending_markets,
                |order: MarketOrder| order.order_id == cancelled,
            );
            assert forall|raw: u64|
                #[trigger] waiting_count(after.pending_markets, OrderID(raw)) <= 1 && (
                waiting_count(after.pending_markets, OrderID(raw)) > 0
                    ==> after.submitted.contains(raw) && !after.pending_limits.contains_key(raw)) by {
                assert(waiting_count(state.pending_markets, OrderID(raw)) <= 1);
                if !state.closed && state.submitted.contains(cancelled.0) && at
                    < state.pending_markets.len() {
                    lemma_sum_remove(state.pending_markets, at, market_counts(OrderID(raw)));
                }
            }
            if !state.closed && state.submitted.contains(cancelled.0) && at
                < state.pending_markets.len() {
                lemma_sum_remove(state.pending_markets, at, market_counts(order_id));
            }
            assert(entries_of(after, order_id, OrderOrigin::Trader) == entries_of(
                state,
                order_id,
                OrderOrigin::Trader,
            ));
        },
    }
}

/// One more reply that reports no execution, and nothing else, keeps the
/// engine tidy and the last word on every order.
pub proof fn lemma_reply_final(state: EngineView, reply: ExchangeReply, order_id: OrderID)
    requires
        tidy(state),
        sealed(state, order_id),
        !(reply is OrderPartiallyExecuted || reply is OrderExecuted),
    ensures
        tidy(state.with_reply(reply)),
        sealed(state.with_reply(reply), order_id),
{
    let after = state.with_reply(reply);
    lemma_same_book_consistent(state, after);
    lemma_final_pushed(state.replies, reply, order_id);
    assert(entries_of(after, order_id, OrderOrigin::Trader) == entries_of(
        state,
        order_id,
        OrderOrigin::Trader,
    ));
    assert forall|raw: u64|
        #[trigger] waiting_count(after.pending_markets, OrderID(raw)) <= 1 && (waiting_count(
            after.pending_markets,
            OrderID(raw),
        ) > 0 ==> after.submitted.contains(raw) && !after.pending_limits.contains_key(raw)) by {
        assert(waiting_count(state.pending_markets, OrderID(raw)) <= 1);
    }
}

/// A change of the book that tells the trader nothing, moves no order of
/// the trader and no waiting market order, keeps the last word on every order.
pub proof fn lemma_quiet_change_final(state: EngineView, after: EngineView, order_id: OrderID)
    requires
        tidy(state),
        sealed(state, order_id),
        consistent(after),
        after.replies == state.replies,
        after.pending_markets == state.pending_markets,
        after.pending_limits == state.pending_limits,
        after.submitted == state.submitted,
        entries_of(after, order_id, OrderOrigin::Trader) == entries_of(
            state,
            order_id,
            OrderOrigin::Trader,
        ),
    ensures
        tidy(after),
        sealed(after, order_id),
{
    assert forall|raw: u64|
        #[trigger] waiting_count(after.pending_markets, OrderID(raw)) <= 1 && (waiting_count(
            after.pending_markets,
            OrderID(raw),
        ) > 0 ==> after.submitted.contains(raw) && !after.pending_limits.contains_key(raw)) by {
        assert(waiting_count(state.pending_markets, OrderID(raw)) <= 1);
    }
}

/// Every event of the tape keeps the engine tidy and the last word on every order.
pub proof fn lemma_history_final(state: EngineView, event: HistoryEventBody, order_id: OrderID)
    requires
        tidy(state),
        sealed(state, order_id),
    ensures
        tidy(handle_history(state, event)),
        sealed(handle_history(state, event), order_id),
{
    let after = handle_history(state, event);
    if !state.closed {
        match event {
            HistoryEventBody::PRL(size, direction, price, tape_id) => {
                if size.0 == 0 {
                    lemma_remove_prl_consistent(state, direction, price, tape_id);
                    if side_holds(state.side(direction), price, tape_id, OrderOrigin::History) {
                        lemma_remove_counts(
                            state.side(direction),
                            price,
                            tape_id,
                            OrderOrigin::History,
                            None,
                            order_id,
                            OrderOrigin::Trader,
                        );
                    }
                    lemma_quiet_change_final(state, after, order_id);
                } else if state.history_order_ids.contains(tape_id.0) {
                    lemma_update_prl_consistent(state, size, direction, price, tape_id);
                    lemma_resize_counts(
                        state.side(direction),
                        price,
                        tape_id,
                        OrderOrigin::History,
                        size,
                        None,
                        order_id,
                        OrderOrigin::Trader,
                    );
                    lemma_quiet_change_final(state, after, order_id);
                } else {
                    lemma_insert_limit_final(
                        state,
                        LimitOrder { order_id: tape_id, size, direction, price },
                        OrderOrigin::History,
                        order_id,
                    );
                }
            },
            HistoryEventBody::TRD(size, direction) => {
                lemma_aggress_final(
                    state,
                    tape_trade(size, direction),
                    AggressiveOrderType::HistoryMarketOrder,
                    order_id,
                );
            },
        }
    }
}

/// Cancellations give no verdict on any order.
pub proof fn lemma_cancellations_silent(ids: Seq<OrderID>, start: bool, order_id: OrderID)
    ensures
        finished_from(start, cancellations(ids), order_id) == start,
        final_from(start, cancellations(ids), order_id),
{
    lemma_final_silent(start, cancellations(ids), order_id);
}

/// Whatever happens keeps the engine tidy and the last word on every order.
pub proof fn lemma_happening_final(state: EngineView, what: Happening, order_id: OrderID)
    requires
        tidy(state),
        sealed(state, order_id),
    ensures
        tidy(happen(state, what)),
        sealed(happen(state, what), order_id),
{
    let after = happen(state, what);
    match what {
        Happening::Request(request) => lemma_request_final(state, request, order_id),
        Happening::Tape(event) => lemma_history_final(state, event, order_id),
        Happening::Open => {
            if state.closed {
                lemma_open_session_consistent(state);
                lemma_nothing_open(after, order_id);
                assert forall|raw: u64|
                    #[trigger] waiting_count(after.pending_markets, OrderID(raw)) <= 1 && (
                    waiting_count(after.pending_markets, OrderID(raw)) > 0
                        ==> after.submitted.contains(raw) && !after.pending_limits.contains_key(
                        raw,
                    )) by {
                    lemma_nothing_open(after, OrderID(raw));
                }
            }
        },
        Happening::Close => {
            if !state.closed {
                lemma_close_session_consistent(state);
                lemma_nothing_open(after, order_id);
                let open = crate::exchange::matching::ascending(
                    crate::exchange::matching::open_trader_orders(state),
                );
                lemma_cancellations_silent(open, finished(state.replies, order_id), order_id);
                lemma_final_joined(false, state.replies, cancellations(open), order_id);
                assert forall|raw: u64|
                    #[trigger] waiting_count(after.pending_markets, OrderID(raw)) <= 1 && (
                    waiting_count(after.pending_markets, OrderID(raw)) > 0
                        ==> after.submitted.contains(raw) && !after.pending_limits.contains_key(
                        raw,
                    )) by {
                    lemma_nothing_open(after, OrderID(raw));
                }
            }
        },
    }
}

/// In an engine without a book and without waiting market orders, nothing is open.
pub proof fn lemma_nothing_open(state: EngineView, order_id: OrderID)
    requires
        state.bids.len() == 0,
        state.asks.len() == 0,
        state.pending_markets.len() == 0,
    ensures
        !is_open(state, order_id),
        waiting_count(state.pending_markets, order_id) == 0,
{
}

/// Over a run, the last word on an order is kept: after every reply that
/// the order is executed, the next reply about it that is not about a
/// cancellation reports no execution, in part or in full.
pub proof fn law_execution_is_final(state: EngineView, run: Seq<Happening>, order_id: OrderID)
    requires
        tidy(state),
        sealed(state, order_id),
    ensures
        tidy(after_all(state, run)),
        sealed(after_all(state, run), order_id),
        execution_is_final(after_all(state, run).replies, order_id),
    decreases run.len(),
{
    if run.len() > 0 {
        law_execution_is_final(state, run.drop_last(), order_id);
        lemma_happening_final(after_all(state, run.drop_last()), run.last(), order_id);
    }
}

/// A new engine is tidy, and keeps the last word on every order.
pub proof fn law_new_engine_is_sealed(state: EngineView, order_id: OrderID)
    requires
        quiet(state),
        state.replies.len() == 0,
    ensures
        tidy(state),
        sealed(state, order_id),
{
    crate::exchange::laws::lemma_new_engine_consistent(state);
    assert forall|raw: u64|
        #[trigger] waiting_count(state.pending_markets, OrderID(raw)) <= 1 && (waiting_count(
            state.pending_markets,
            OrderID(raw),
        ) > 0 ==> state.submitted.contains(raw) && !state.pending_limits.contains_key(raw)) by {
        lemma_nothing_open(state, OrderID(raw));
    }
}

/// Tidiness speaks of the book, of what the engine knows about the orders
/// in it, and of the waiting market orders, of nothing else.
pub proof fn lemma_same_book_tidy(a: EngineView, b: EngineView)
    requires
        same_book(a, b),
        a.pending_markets == b.pending_markets,
        tidy(a),
    ensures
        tidy(b),
{
    lemma_same_book_consistent(a, b);
    assert forall|raw: u64|
        #[trigger] waiting_count(b.pending_markets, OrderID(raw)) <= 1 && (waiting_count(
            b.pending_markets,
            OrderID(raw),
        ) > 0 ==> b.submitted.contains(raw) && !b.pending_limits.contains_key(raw)) by {
        assert(waiting_count(a.pending_markets, OrderID(raw)) <= 1);
    }
}

/// An engine that has handed over every reply keeps the last word on every order.
pub proof fn lemma_flushed_is_sealed(state: EngineView, order_id: OrderID)
    requires
        state.replies.len() == 0,
    ensures
        sealed(state, order_id),
{
}

/// Whatever happens keeps an engine tidy that has handed over every reply.
pub proof fn lemma_happening_keeps_tidy(state: EngineView, what: Happening)
    requires
        tidy(state),
        state.replies.len() == 0,
    ensures
        tidy(happen(state, what)),
        tidy(flushed(happen(state, what))),
{
    lemma_flushed_is_sealed(state, OrderID(0));
    lemma_happening_final(state, what, OrderID(0));
    let after = happen(state, what);
    lemma_same_book_tidy(after, flushed(after));
}

/// Closing the venue leaves a tidy engine, also when its replies have been handed over.
pub proof fn lemma_close_session_tidy(state: EngineView)
    ensures
        tidy(close_session(state)),
        tidy(flushed(close_session(state))),
{
    let after = close_session(state);
    lemma_close_session_consistent(state);
    assert forall|raw: u64|
        #[trigger] waiting_count(after.pending_markets, OrderID(raw)) <= 1 && (waiting_count(
            after.pending_markets,
            OrderID(raw),
        ) > 0 ==> after.submitted.contains(raw) && !after.pending_limits.contains_key(raw)) by {
        lemma_nothing_open(after, OrderID(raw));
    }
    lemma_same_book_tidy(after, flushed(after));
}

} // verus!
