//! What holds of the engine over a whole run: whatever the trader asks for
//! and whatever the tape brings, in whatever order.

use vstd::prelude::*;
use crate::exchange::{
    at_time, closed_after, engine_run, engine_step, flushed, guarded_engine, watched, watched_over,
    GuardAction, GuardView,
};
use crate::exchange::accounts::{
    account, law_history_account, law_request_account, law_session_account, placed_lots, reported,
};
use crate::exchange::book::{consume_side, crossing_volume, Fill};
use crate::exchange::laws::{
    consistent, law_history_keeps_uncrossed, law_request_keeps_uncrossed,
    law_session_boundary_uncrossed, lemma_close_session_consistent, lemma_history_frame,
    lemma_history_keeps_consistent, lemma_open_session_consistent, lemma_request_frame,
    lemma_request_keeps_consistent, uncrossed,
};
use crate::exchange::matching::{
    accept, aggress, apply_fill, apply_fills, apply_pairing, apply_pairings, cancel_limit,
    cancel_market, cleanup, close_session, crossing_kind, handle_history, handle_request,
    insert_limit, market_kind, open_session, placement_refusal, prematch, remove_prl, rest_order,
    settle_remainder, submit_limit, submit_market, takes_history, tape_trade, update_prl,
    AggressiveOrderType, EngineView, Pairing,
};
use crate::exchange::types::{Event, EventBody};
use crate::history::types::{HistoryEventBody, OrderOrigin};
use crate::message::{ExchangeReply, TraderRequest};
use crate::order::{LimitOrder, MarketOrder};
use crate::types::{DateTime, OrderID, Size};

verus! {

/// Something that the engine handles.
#[derive(Debug, PartialEq, Eq, Structural, Clone, Copy)]
pub enum Happening {
    /// A request of the trader arrives.
    Request(TraderRequest),
    /// The tape has an event.
    Tape(HistoryEventBody),
    /// The venue opens, if it is closed.
    Open,
    /// The venue closes, if it is open.
    Close,
}

/// What the engine makes of one happening.
pub open spec fn happen(state: EngineView, what: Happening) -> EngineView {
    match what {
        Happening::Request(request) => handle_request(state, request),
        Happening::Tape(event) => handle_history(state, event),
        Happening::Open => if state.closed {
            open_session(state)
        } else {
            state
        },
        Happening::Close => if state.closed {
            state
        } else {
            close_session(state)
        },
    }
}

/// What the engine makes of a run of happenings, with every reply that it
/// ever gave kept.
pub open spec fn after_all(state: EngineView, run: Seq<Happening>) -> EngineView
    decreases run.len(),
{
    if run.len() == 0 {
        state
    } else {
        happen(after_all(state, run.drop_last()), run.last())
    }
}

/// The lots that the trader placed under the given identifier in a run and
/// that were accepted.
pub open spec fn placed_in(state: EngineView, run: Seq<Happening>, order_id: OrderID) -> nat
    decreases run.len(),
{
    if run.len() == 0 {
        0
    } else {
        placed_in(state, run.drop_last(), order_id) + match run.last() {
            Happening::Request(request) => placed_lots(
                after_all(state, run.drop_last()),
                request,
                order_id,
            ),
            _ => 0nat,
        }
    }
}

/// A consistent engine is consistent after whatever happens.
pub proof fn law_consistent_over_run(state: EngineView, run: Seq<Happening>)
    requires
        consistent(state),
    ensures
        consistent(after_all(state, run)),
    decreases run.len(),
{
    if run.len() > 0 {
        let before = after_all(state, run.drop_last());
        law_consistent_over_run(state, run.drop_last());
        match run.last() {
            Happening::Request(request) => lemma_request_keeps_consistent(before, request),
            Happening::Tape(event) => lemma_history_keeps_consistent(before, event),
            Happening::Open => if before.closed {
                lemma_open_session_consistent(before);
            },
            Happening::Close => lemma_close_session_consistent(before),
        }
    }
}

/// The policy on trades of the tape does not change in a run.
pub proof fn lemma_policy_over_run(state: EngineView, run: Seq<Happening>)
    ensures
        after_all(state, run).trade_updates_book == state.trade_updates_book,
    decreases run.len(),
{
    if run.len() > 0 {
        let before = after_all(state, run.drop_last());
        lemma_policy_over_run(state, run.drop_last());
        match run.last() {
            Happening::Request(request) => lemma_request_frame(before, request),
            Happening::Tape(event) => lemma_history_frame(before, event),
            Happening::Open => {},
            Happening::Close => {},
        }
    }
}

/// Where trades of the tape update the book, the book is never crossed: the
/// best bid is below the best ask after whatever happens.
pub proof fn law_uncrossed_over_run(state: EngineView, run: Seq<Happening>)
    requires
        consistent(state),
        uncrossed(state),
        state.trade_updates_book,
    ensures
        uncrossed(after_all(state, run)),
    decreases run.len(),
{
    if run.len() > 0 {
        let before = after_all(state, run.drop_last());
        law_uncrossed_over_run(state, run.drop_last());
        law_consistent_over_run(state, run.drop_last());
        lemma_policy_over_run(state, run.drop_last());
        match run.last() {
            Happening::Request(request) => law_request_keeps_uncrossed(before, request),
            Happening::Tape(event) => law_history_keeps_uncrossed(before, event),
            Happening::Open => law_session_boundary_uncrossed(before, false),
            Happening::Close => law_session_boundary_uncrossed(before, true),
        }
    }
}

/// Over a run, the account of an order grows by no more than what the trader placed under its identifier.
pub proof fn law_account_over_run(state: EngineView, run: Seq<Happening>, order_id: OrderID)
    ensures
        account(after_all(state, run), order_id) <= account(state, order_id) + placed_in(
            state,
            run,
            order_id,
        ),
    decreases run.len(),
{
    if run.len() > 0 {
        let before = after_all(state, run.drop_last());
        law_account_over_run(state, run.drop_last(), order_id);
        match run.last() {
            Happening::Request(request) => law_request_account(before, request, order_id),
            Happening::Tape(event) => law_history_account(before, event, order_id),
            Happening::Open => law_session_account(before, false, order_id),
            Happening::Close => law_session_account(before, true, order_id),
        }
    }
}

/// The lots that the trader is told were executed of an order never exceed
/// the lots that the trader placed under its identifier.
pub proof fn law_executions_within_placed(state: EngineView, run: Seq<Happening>, order_id: OrderID)
    requires
        account(state, order_id) == 0,
    ensures
        reported(after_all(state, run).replies, order_id) <= placed_in(state, run, order_id),
{
    law_account_over_run(state, run, order_id);
}

/// The state with earlier replies put in front of its own.
pub open spec fn after_replies(earlier: Seq<ExchangeReply>, state: EngineView) -> EngineView {
    EngineView { replies: earlier + state.replies, ..state }
}

/// Accounting for fills reads no reply: earlier replies stay in front.
pub proof fn lemma_apply_fills_after_replies(
    earlier: Seq<ExchangeReply>,
    state: EngineView,
    fills: Seq<Fill>,
    order: MarketOrder,
    kind: AggressiveOrderType,
)
    ensures
        apply_fills(after_replies(earlier, state), fills, order, kind) == after_replies(
            earlier,
            apply_fills(state, fills, order, kind),
        ),
    decreases fills.len(),
{
    if fills.len() > 0 {
        lemma_apply_fills_after_replies(earlier, state, fills.drop_last(), order, kind);
        let before = apply_fills(state, fills.drop_last(), order, kind);
        assert(apply_fill(after_replies(earlier, before), fills.last(), order, kind)
            =~= after_replies(earlier, apply_fill(before, fills.last(), order, kind)));
    } else {
        assert(after_replies(earlier, state) =~= after_replies(earlier, state));
    }
}

/// Accounting for pairings reads no reply: earlier replies stay in front.
pub proof fn lemma_apply_pairings_after_replies(
    earlier: Seq<ExchangeReply>,
    state: EngineView,
    pairings: Seq<Pairing>,
    order: LimitOrder,
    origin: OrderOrigin,
)
    ensures
        apply_pairings(after_replies(earlier, state), pairings, order, origin) == after_replies(
            earlier,
            apply_pairings(state, pairings, order, origin),
        ),
    decreases pairings.len(),
{
    if pairings.len() > 0 {
        lemma_apply_pairings_after_replies(earlier, state, pairings.drop_last(), order, origin);
        let before = apply_pairings(state, pairings.drop_last(), order, origin);
        assert(apply_pairing(after_replies(earlier, before), pairings.last(), order, origin)
            =~= after_replies(earlier, apply_pairing(before, pairings.last(), order, origin)));
    }
}

/// An aggressor reads no reply: earlier replies stay in front.
pub proof fn lemma_aggress_after_replies(
    earlier: Seq<ExchangeReply>,
    state: EngineView,
    order: MarketOrder,
    kind: AggressiveOrderType,
)
    ensures
        aggress(after_replies(earlier, state), order, kind) == after_replies(
            earlier,
            aggress(state, order, kind),
        ),
{
    let opposite = order.direction.spec_opposite();
    let outcome = consume_side(
        state.side(opposite),
        order.size.0,
        takes_history(kind, state.trade_updates_book),
    );
    let emptied = state.with_side(opposite, outcome.levels);
    assert(after_replies(earlier, state).with_side(opposite, outcome.levels) =~= after_replies(
        earlier,
        emptied,
    ));
    lemma_apply_fills_after_replies(earlier, emptied, outcome.fills, order, kind);
    let accounted = apply_fills(emptied, outcome.fills, order, kind);
    assert(settle_remainder(after_replies(earlier, accounted), order, kind, outcome.remaining)
        =~= after_replies(earlier, settle_remainder(accounted, order, kind, outcome.remaining)));
}

/// A limit reads no reply: earlier replies stay in front.
pub proof fn lemma_insert_limit_after_replies(
    earlier: Seq<ExchangeReply>,
    state: EngineView,
    order: LimitOrder,
    origin: OrderOrigin,
)
    ensures
        insert_limit(after_replies(earlier, state), order, origin) == after_replies(
            earlier,
            insert_limit(state, order, origin),
        ),
{
    let met = prematch(state.pending_markets, order.direction, order.size.0);
    let unpaired = EngineView { pending_markets: met.pending, ..state };
    assert((EngineView { pending_markets: met.pending, ..after_replies(earlier, state) })
        =~= after_replies(earlier, unpaired));
    lemma_apply_pairings_after_replies(earlier, unpaired, met.pairings, order, origin);
    let paired = apply_pairings(unpaired, met.pairings, order, origin);
    let amount = met.remaining;
    let crossing = crossing_volume(
        paired.side(order.direction.spec_opposite()),
        order.price,
        order.direction,
    );
    if amount == 0 {
    } else if crossing >= amount {
        lemma_aggress_after_replies(
            earlier,
            paired,
            MarketOrder { order_id: order.order_id, size: Size(amount), direction: order.direction },
            market_kind(origin),
        );
    } else {
        let part = MarketOrder {
            order_id: order.order_id,
            size: Size(crossing as u64),
            direction: order.direction,
        };
        let crossed = if crossing == 0 {
            paired
        } else {
            aggress(paired, part, crossing_kind(origin))
        };
        if crossing != 0 {
            lemma_aggress_after_replies(earlier, paired, part, crossing_kind(origin));
        }
        let residual = Size((amount - crossing) as u64);
        assert(rest_order(
            after_replies(earlier, crossed),
            order.order_id,
            residual,
            order.direction,
            order.price,
            origin,
        ) =~= after_replies(
            earlier,
            rest_order(crossed, order.order_id, residual, order.direction, order.price, origin),
        ));
    }
}

/// Nothing that the engine does depends on the replies that it gave
/// before: what happens to a state with earlier replies is what happens to
/// the state without them, with the earlier replies in front of the new ones.
pub proof fn law_replies_are_only_added(earlier: Seq<ExchangeReply>, state: EngineView, what: Happening)
    ensures
        happen(after_replies(earlier, state), what) == after_replies(earlier, happen(state, what)),
{
    let with_earlier = after_replies(earlier, state);
    match what {
        Happening::Request(request) => {
            match request {
                crate::message::TraderRequest::PlaceLimitOrder(order) => {
                    if placement_refusal(state, order.order_id, order.size) is None {
                        assert(accept(with_earlier, order.order_id) =~= after_replies(
                            earlier,
                            accept(state, order.order_id),
                        ));
                        lemma_insert_limit_after_replies(
                            earlier,
                            accept(state, order.order_id),
                            order,
                            OrderOrigin::Trader,
                        );
                    } else {
                        assert(submit_limit(with_earlier, order) =~= after_replies(
                            earlier,
                            submit_limit(state, order),
                        ));
                    }
                },
                crate::message::TraderRequest::PlaceMarketOrder(order) => {
                    if placement_refusal(state, order.order_id, order.size) is None {
                        assert(accept(with_earlier, order.order_id) =~= after_replies(
                            earlier,
                            accept(state, order.order_id),
                        ));
                        lemma_aggress_after_replies(
                            earlier,
                            accept(state, order.order_id),
                            order,
                            AggressiveOrderType::TraderMarketOrder,
                        );
                    } else {
                        assert(submit_market(with_earlier, order) =~= after_replies(
                            earlier,
                            submit_market(state, order),
                        ));
                    }
                },
                crate::message::TraderRequest::CancelLimitOrder(order_id) => {
                    assert(cancel_limit(with_earlier, order_id) =~= after_replies(
                        earlier,
                        cancel_limit(state, order_id),
                    ));
                },
                crate::message::TraderRequest::CancelMarketOrder(order_id) => {
                    assert(cancel_market(with_earlier, order_id) =~= after_replies(
                        earlier,
                        cancel_market(state, order_id),
                    ));
                },
            }
        },
        Happening::Tape(event) => {
            if !state.closed {
                match event {
                    HistoryEventBody::PRL(size, direction, price, order_id) => {
                        if size.0 == 0 {
                            assert(remove_prl(with_earlier, direction, price, order_id)
                                =~= after_replies(
                                earlier,
                                remove_prl(state, direction, price, order_id),
                            ));
                        } else if state.history_order_ids.contains(order_id.0) {
                            assert(update_prl(with_earlier, size, direction, price, order_id)
                                =~= after_replies(
                                earlier,
                                update_prl(state, size, direction, price, order_id),
                            ));
                        } else {
                            lemma_insert_limit_after_replies(
                                earlier,
                                state,
                                LimitOrder { order_id, size, direction, price },
                                OrderOrigin::History,
                            );
                        }
                    },
                    HistoryEventBody::TRD(size, direction) => {
                        lemma_aggress_after_replies(
                            earlier,
                            state,
                            tape_trade(size, direction),
                            AggressiveOrderType::HistoryMarketOrder,
                        );
                    },
                }
            }
        },
        Happening::Open => {
            assert(cleanup(with_earlier, false) =~= after_replies(earlier, cleanup(state, false)));
            assert(open_session(with_earlier) =~= after_replies(earlier, open_session(state)));
        },
        Happening::Close => {
            assert(cleanup(with_earlier, true) =~= after_replies(earlier, cleanup(state, true)));
            assert(close_session(with_earlier) =~= after_replies(earlier, close_session(state)));
        },
    }
}

/// What happens to a state is what happens to it with every reply handed
/// over, with the replies that it had in front of the new ones. So the run
/// of an engine that hands its replies over after every event is the run of
/// one that keeps them, and what holds of the replies that are kept holds of
/// the replies that are handed over.
pub proof fn law_handing_replies_over_changes_nothing(state: EngineView, what: Happening)
    ensures
        happen(state, what) == after_replies(state.replies, happen(flushed(state), what)),
        flushed(happen(state, what)) == flushed(happen(flushed(state), what)),
{
    law_replies_are_only_added(state.replies, flushed(state), what);
    assert(after_replies(state.replies, flushed(state)) =~= state);
    assert(flushed(after_replies(state.replies, happen(flushed(state), what))) =~= flushed(
        happen(flushed(state), what),
    ));
}

/// What happens to the engine when an event is handled, for the events that
/// concern the engine.
pub open spec fn happening_of(body: EventBody) -> Option<Happening> {
    match body {
        EventBody::HistoryEvent(event) => Some(Happening::Tape(event)),
        EventBody::TraderRequest(request) => Some(Happening::Request(request)),
        EventBody::SessionOpenProbe => Some(Happening::Open),
        EventBody::SessionCloseProbe => Some(Happening::Close),
        _ => None,
    }
}

/// A step of the exchange is a happening of the engine: the clock is set,
/// the venue opens first if the event found it closed at a time at which it
/// trades, the engine handles what the event brings, and the replies are
/// handed over.
pub proof fn law_step_is_happening(state: EngineView, event: Event, opens: bool, what: Happening)
    requires
        state.replies.len() == 0,
        opens ==> state.closed,
        happening_of(event.body) == Some(what),
    ensures
        engine_step(state, event, opens) == flushed(
            happen(
                if opens {
                    happen(at_time(state, event.datetime), Happening::Open)
                } else {
                    at_time(state, event.datetime)
                },
                what,
            ),
        ),
{
    let current = at_time(state, event.datetime);
    let guarded = if opens {
        happen(current, Happening::Open)
    } else {
        current
    };
    assert(guarded.replies =~= Seq::<ExchangeReply>::empty());
    assert(flushed(guarded) =~= guarded);
    if guarded.closed {
        assert(flushed(open_session(guarded)) =~= open_session(guarded));
    }
}

/// Whether the venue is closed after a step depends on nothing but whether
/// it was closed before, on the kind of the event, and on whether the venue
/// opened before the event was handled.
pub proof fn law_step_closes_as_said(state: EngineView, event: Event, opens: bool)
    ensures
        engine_step(state, event, opens).closed == closed_after(state.closed, event.body, opens),
{
    let guarded = guarded_engine(state, event, opens);
    match event.body {
        EventBody::HistoryEvent(body) => lemma_history_frame(guarded, body),
        EventBody::TraderRequest(request) => lemma_request_frame(guarded, request),
        _ => {},
    }
}

/// Over a run that the session guard watched over, the venue is closed
/// where the guard found it closed: what `seen` says of the venue before
/// each event is what the events before it made of the engine.
pub proof fn law_run_closes_as_watched<NO: Fn(DateTime) -> DateTime, NC: Fn(DateTime) -> DateTime>(
    open: NO,
    close: NC,
    state: EngineView,
    seen: Seq<GuardView>,
    handled: Seq<Event>,
    actions: Seq<GuardAction>,
)
    requires
        watched_over(open, close, seen, handled, actions),
        actions.len() == handled.len(),
        seen[0].closed == state.closed,
    ensures
        engine_run(state, handled, actions).closed == seen[handled.len() as int].closed,
    decreases handled.len(),
{
    if handled.len() > 0 {
        let before = handled.len() - 1;
        let front = handled.drop_last();
        assert forall|i: int| 0 <= i < front.len() implies watched(
            open,
            close,
            seen.drop_last()[i],
            seen.drop_last()[i + 1],
            #[trigger] front[i],
            actions.drop_last()[i],
        ) by {
            assert(front[i] == handled[i]);
        }
        law_run_closes_as_watched(
            open,
            close,
            state,
            seen.drop_last(),
            front,
            actions.drop_last(),
        );
        assert(handled[before] == handled.last());
        law_step_closes_as_said(
            engine_run(state, front, actions.drop_last()),
            handled.last(),
            actions.last() == GuardAction::OpenNow,
        );
    }
}

} // verus!
