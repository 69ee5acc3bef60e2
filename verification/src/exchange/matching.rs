//! The matching engine: what an order does to the book, to the trader's
//! pending orders, and what the trader is told about it.
//!
//! Every operation is stated twice. A specification function says what the
//! operation makes of an [`EngineView`]; the method of [`MatchingEngine`] of
//! the same purpose carries it out in place and is proved to arrive at that view.
//! Replies to the trader are collected in `replies`, in the order in which
//! they arise; scheduling their delivery is left to the exchange.

use std::collections::{HashMap, HashSet};
use vstd::prelude::*;
use crate::exchange::book::{
    collect_orders_of, consume_book_side, consume_side, crossing_size, crossing_volume,
    place_on_side, remove_entry, remove_from_side, resize_entry, resize_on_side, rest_on_side,
    side_holds, side_orders_of, side_view, side_volume, Fill,
};
use crate::exchange::book_laws::{lemma_consume_side_volume, lemma_crossing_within_side};
use crate::exchange::sums::{first_index, lemma_first_index};
use crate::exchange::trades::history::{OrderBookDiff, TradesHistory};
use crate::exchange::types::{LevelView, OrderBookEntry, OrderBookLevel};
use crate::history::types::{HistoryEventBody, OrderOrigin};
use crate::message::{
    CancellationReason, DiscardingReason, ExchangeReply, InabilityToCancelReason, TraderRequest,
};
use crate::order::{LimitOrder, MarketOrder};
use crate::types::{DateTime, Direction, OrderID, Price, Size};

verus! {

/// The four ways in which an order can take liquidity.
#[derive(Debug, PartialEq, Eq, Structural, Clone, Copy)]
pub enum AggressiveOrderType {
    /// A market order of the trader, or a limit of the trader that is used up by what it crosses.
    TraderMarketOrder,
    /// A trade of the tape, or a limit of the tape that is used up by what it crosses.
    HistoryMarketOrder,
    /// The crossing part of a limit of the trader of which a rest remains.
    TraderIntersectingLimitOrder,
    /// The crossing part of a limit of the tape of which a rest remains.
    HistoryIntersectingLimitOrder,
}

/// What the engine notes, in debug mode, about a tape that does not fit the book.
#[derive(Debug, PartialEq, Eq, Structural, Clone, Copy)]
pub enum DiagnosticKind {
    /// A trade of the tape found less liquidity than its size; the lots are those left over.
    TradeNotFullyExecuted(Size),
    /// The order that the tape removes does not rest at the price the tape gives.
    OrderToRemoveNotFound(OrderID, Price),
    /// The order that the tape removed was not known as an order of the tape.
    RemovedOrderWasNotTracked(OrderID),
    /// The order whose size the tape changes does not rest at the price the tape gives.
    OrderToUpdateNotFound(OrderID, Price),
}

/// A note of the engine with the simulated time at which it was made.
#[derive(Debug, PartialEq, Eq, Structural, Clone, Copy)]
pub struct Diagnostic {
    pub datetime: DateTime,
    pub kind: DiagnosticKind,
}

/// The state that orders act on.
pub struct MatchingEngine {
    /// Buy orders at rest, highest price first.
    pub bids: Vec<OrderBookLevel>,
    /// Sell orders at rest, lowest price first.
    pub asks: Vec<OrderBookLevel>,
    /// The orders of the tape that rest in the book.
    pub history_order_ids: HashSet<u64>,
    /// Market orders of the trader that found too little liquidity, oldest first.
    pub trader_pending_market_orders: Vec<MarketOrder>,
    /// The limits of the trader that rest in the book, each with its price and direction.
    pub trader_pending_limit_orders: HashMap<u64, (Price, Direction)>,
    /// Every order that the trader placed in this session.
    pub trader_submitted_orders: HashSet<u64>,
    /// The executions since the last delivery of trade information.
    pub executed_trades: TradesHistory,
    /// The replies to the trader that have not been scheduled yet.
    pub replies: Vec<ExchangeReply>,
    /// The notes made in debug mode.
    pub diagnostics: Vec<Diagnostic>,
    /// Whether the venue is outside its trading hours.
    pub exchange_closed: bool,
    /// The simulated time.
    pub current_dt: DateTime,
    /// Whether notes are made.
    pub debug: bool,
    /// Whether a trade of the tape debits the orders of the tape that it executes against.
    pub trade_updates_book: bool,
    /// Whether executions are recorded for the trade-info subscription.
    pub record_trades: bool,
}

/// The engine's state as contracts see it.
#[verifier::ext_equal]
pub struct EngineView {
    pub bids: Seq<LevelView>,
    pub asks: Seq<LevelView>,
    pub history_order_ids: Set<u64>,
    pub pending_markets: Seq<MarketOrder>,
    pub pending_limits: Map<u64, (Price, Direction)>,
    pub submitted: Set<u64>,
    pub trades: Seq<OrderBookDiff>,
    pub replies: Seq<ExchangeReply>,
    pub diagnostics: Seq<Diagnostic>,
    pub closed: bool,
    pub now: DateTime,
    pub debug: bool,
    pub trade_updates_book: bool,
    pub record_trades: bool,
}

impl View for MatchingEngine {
    type V = EngineView;

    open spec fn view(&self) -> EngineView {
        EngineView {
            bids: side_view(self.bids@),
            asks: side_view(self.asks@),
            history_order_ids: self.history_order_ids@,
            pending_markets: self.trader_pending_market_orders@,
            pending_limits: self.trader_pending_limit_orders@,
            submitted: self.trader_submitted_orders@,
            trades: self.executed_trades@,
            replies: self.replies@,
            diagnostics: self.diagnostics@,
            closed: self.exchange_closed,
            now: self.current_dt,
            debug: self.debug,
            trade_updates_book: self.trade_updates_book,
            record_trades: self.record_trades,
        }
    }
}

impl EngineView {
    /// The side that holds the orders of the given direction.
    pub open spec fn side(self, resting: Direction) -> Seq<LevelView> {
        match resting {
            Direction::Buy => self.bids,
            Direction::Sell => self.asks,
        }
    }

    /// This state with the side of the given direction replaced.
    pub open spec fn with_side(self, resting: Direction, levels: Seq<LevelView>) -> EngineView {
        match resting {
            Direction::Buy => EngineView { bids: levels, ..self },
            Direction::Sell => EngineView { asks: levels, ..self },
        }
    }

    /// This state with one more reply for the trader.
    pub open spec fn with_reply(self, reply: ExchangeReply) -> EngineView {
        EngineView { replies: self.replies.push(reply), ..self }
    }

    /// This state with one more note, if notes are made.
    pub open spec fn with_note(self, kind: DiagnosticKind) -> EngineView {
        if self.debug {
            EngineView {
                diagnostics: self.diagnostics.push(Diagnostic { datetime: self.now, kind }),
                ..self
            }
        } else {
            self
        }
    }
}

/// Whether the aggressor is an order of the trader.
pub open spec fn is_trader_aggressor(kind: AggressiveOrderType) -> bool {
    kind == AggressiveOrderType::TraderMarketOrder || kind
        == AggressiveOrderType::TraderIntersectingLimitOrder
}

/// Whether the aggressor debits the orders of the tape that it executes
/// against: an order of the trader always does, one of the tape only under
/// the policy that trades update the book.
pub open spec fn takes_history(kind: AggressiveOrderType, trade_updates_book: bool) -> bool {
    is_trader_aggressor(kind) || trade_updates_book
}

/// Whether the aggressor is the crossing part of a limit of which a rest remains.
pub open spec fn is_crossing_part(kind: AggressiveOrderType) -> bool {
    kind == AggressiveOrderType::TraderIntersectingLimitOrder || kind
        == AggressiveOrderType::HistoryIntersectingLimitOrder
}

/// What the trader is told about one fill: first about the aggressor, if it is
/// the trader's, then about the resting order, if it is the trader's.
pub open spec fn fill_replies(fill: Fill, aggressor: OrderID, kind: AggressiveOrderType) -> Seq<
    ExchangeReply,
> {
    let to_aggressor = if kind == AggressiveOrderType::TraderMarketOrder && fill.aggressor_done {
        seq![ExchangeReply::OrderExecuted(aggressor, fill.size, fill.price)]
    } else if is_trader_aggressor(kind) {
        seq![ExchangeReply::OrderPartiallyExecuted(aggressor, fill.size, fill.price)]
    } else {
        Seq::empty()
    };
    let to_resting = if fill.from != OrderOrigin::Trader {
        Seq::empty()
    } else if fill.resting_done {
        seq![ExchangeReply::OrderExecuted(fill.order_id, fill.size, fill.price)]
    } else {
        seq![ExchangeReply::OrderPartiallyExecuted(fill.order_id, fill.size, fill.price)]
    };
    to_aggressor + to_resting
}

/// The state after one fill was accounted for: the execution is recorded if
/// trades are, the trader is told, and a resting order that was used up and
/// left the book is no longer known as pending.
pub open spec fn apply_fill(
    state: EngineView,
    fill: Fill,
    order: MarketOrder,
    kind: AggressiveOrderType,
) -> EngineView {
    EngineView {
        trades: if state.record_trades {
            state.trades.push(
                OrderBookDiff {
                    datetime: state.now,
                    price: fill.price,
                    size: fill.size,
                    direction: order.direction,
                },
            )
        } else {
            state.trades
        },
        replies: state.replies + fill_replies(fill, order.order_id, kind),
        pending_limits: if fill.from == OrderOrigin::Trader && fill.resting_done {
            state.pending_limits.remove(fill.order_id.0)
        } else {
            state.pending_limits
        },
        history_order_ids: if fill.from == OrderOrigin::History && fill.resting_done
            && takes_history(kind, state.trade_updates_book) {
            state.history_order_ids.remove(fill.order_id.0)
        } else {
            state.history_order_ids
        },
        ..state
    }
}

/// The state after a run of fills was accounted for, oldest first.
pub open spec fn apply_fills(
    state: EngineView,
    fills: Seq<Fill>,
    order: MarketOrder,
    kind: AggressiveOrderType,
) -> EngineView
    decreases fills.len(),
{
    if fills.len() == 0 {
        state
    } else {
        apply_fill(apply_fills(state, fills.drop_last(), order, kind), fills.last(), order, kind)
    }
}

/// What is done with the lots of an aggressor that found no liquidity: a
/// market order of the trader waits for it, and a trade of the tape is noted
/// in debug mode and dropped. The crossing part of a limit has none left: it
/// is no larger than what rests on the side that it goes through, which the
/// engine asks of whoever lets it execute.
pub open spec fn settle_remainder(
    state: EngineView,
    order: MarketOrder,
    kind: AggressiveOrderType,
    remaining: u64,
) -> EngineView {
    if remaining == 0 {
        state
    } else {
        match kind {
            AggressiveOrderType::TraderMarketOrder => EngineView {
                pending_markets: state.pending_markets.push(
                    MarketOrder {
                        order_id: order.order_id,
                        size: Size(remaining),
                        direction: order.direction,
                    },
                ),
                ..state
            },
            AggressiveOrderType::HistoryMarketOrder => state.with_note(
                DiagnosticKind::TradeNotFullyExecuted(Size(remaining)),
            ),
            _ => state,
        }
    }
}

/// The state after an aggressor executed against the opposite side, best
/// price first and oldest order first within a price.
pub open spec fn aggress(state: EngineView, order: MarketOrder, kind: AggressiveOrderType) -> EngineView {
    let opposite = order.direction.spec_opposite();
    let outcome = consume_side(
        state.side(opposite),
        order.size.0,
        takes_history(kind, state.trade_updates_book),
    );
    settle_remainder(
        apply_fills(state.with_side(opposite, outcome.levels), outcome.fills, order, kind),
        order,
        kind,
        outcome.remaining,
    )
}

/// One execution of an arriving limit against a market order of the trader that waited for it.
#[derive(Debug, PartialEq, Eq, Structural, Clone, Copy)]
pub struct Pairing {
    /// The market order that waited.
    pub order_id: OrderID,
    /// Its direction, which is the aggressor's in the record of the trade.
    pub direction: Direction,
    /// The lots executed.
    pub size: Size,
    /// Whether this execution used up the market order.
    pub pending_done: bool,
    /// Whether this execution used up the arriving limit.
    pub order_done: bool,
}

/// What is left of the waiting market orders after a limit arrived.
#[verifier::ext_equal]
pub struct PrematchOutcome {
    pub pending: Seq<MarketOrder>,
    pub pairings: Seq<Pairing>,
    pub remaining: u64,
}

/// A limit of `amount` lots and the given direction meets the waiting market
/// orders, oldest first. Those of its own direction are passed over. Against
/// each other one the smaller of the two sizes is executed; a market order
/// that is used up leaves, the last one is reduced.
pub open spec fn prematch(pending: Seq<MarketOrder>, incoming: Direction, amount: u64) -> PrematchOutcome
    decreases pending.len(),
{
    if pending.len() == 0 || amount == 0 {
        PrematchOutcome { pending, pairings: Seq::empty(), remaining: amount }
    } else {
        let waiting = pending[0];
        if waiting.direction == incoming {
            let rest = prematch(pending.drop_first(), incoming, amount);
            PrematchOutcome {
                pending: seq![waiting] + rest.pending,
                pairings: rest.pairings,
                remaining: rest.remaining,
            }
        } else if amount < waiting.size.0 {
            PrematchOutcome {
                pending: pending.update(
                    0,
                    MarketOrder {
                        order_id: waiting.order_id,
                        size: Size((waiting.size.0 - amount) as u64),
                        direction: waiting.direction,
                    },
                ),
                pairings: seq![
                    Pairing {
                        order_id: waiting.order_id,
                        direction: waiting.direction,
                        size: Size(amount),
                        pending_done: false,
                        order_done: true,
                    },
                ],
                remaining: 0,
            }
        } else {
            let rest = prematch(
                pending.drop_first(),
                incoming,
                (amount - waiting.size.0) as u64,
            );
            PrematchOutcome {
                pending: rest.pending,
                pairings: seq![
                    Pairing {
                        order_id: waiting.order_id,
                        direction: waiting.direction,
                        size: waiting.size,
                        pending_done: true,
                        order_done: amount == waiting.size.0,
                    },
                ] + rest.pairings,
                remaining: rest.remaining,
            }
        }
    }
}

/// What the trader is told about one pairing: first about the market order
/// that waited, then about the limit, if it is the trader's. The price is the limit's.
pub open spec fn pairing_replies(pairing: Pairing, order: LimitOrder, origin: OrderOrigin) -> Seq<
    ExchangeReply,
> {
    let to_pending = if pairing.pending_done {
        ExchangeReply::OrderExecuted(pairing.order_id, pairing.size, order.price)
    } else {
        ExchangeReply::OrderPartiallyExecuted(pairing.order_id, pairing.size, order.price)
    };
    if origin != OrderOrigin::Trader {
        seq![to_pending]
    } else if pairing.order_done {
        seq![to_pending, ExchangeReply::OrderExecuted(order.order_id, pairing.size, order.price)]
    } else {
        seq![
            to_pending,
            ExchangeReply::OrderPartiallyExecuted(order.order_id, pairing.size, order.price),
        ]
    }
}

/// The state after one pairing was accounted for.
pub open spec fn apply_pairing(
    state: EngineView,
    pairing: Pairing,
    order: LimitOrder,
    origin: OrderOrigin,
) -> EngineView {
    EngineView {
        trades: if state.record_trades {
            state.trades.push(
                OrderBookDiff {
                    datetime: state.now,
                    price: order.price,
                    size: pairing.size,
                    direction: pairing.direction,
                },
            )
        } else {
            state.trades
        },
        replies: state.replies + pairing_replies(pairing, order, origin),
        ..state
    }
}

/// The state after a run of pairings was accounted for, oldest first.
pub open spec fn apply_pairings(
    state: EngineView,
    pairings: Seq<Pairing>,
    order: LimitOrder,
    origin: OrderOrigin,
) -> EngineView
    decreases pairings.len(),
{
    if pairings.len() == 0 {
        state
    } else {
        apply_pairing(
            apply_pairings(state, pairings.drop_last(), order, origin),
            pairings.last(),
            order,
            origin,
        )
    }
}

/// The kind of aggressor that a limit is when what it crosses uses it up.
pub open spec fn market_kind(origin: OrderOrigin) -> AggressiveOrderType {
    match origin {
        OrderOrigin::History => AggressiveOrderType::HistoryMarketOrder,
        OrderOrigin::Trader => AggressiveOrderType::TraderMarketOrder,
    }
}

/// The kind of aggressor that the crossing part of a limit is when a rest remains.
pub open spec fn crossing_kind(origin: OrderOrigin) -> AggressiveOrderType {
    match origin {
        OrderOrigin::History => AggressiveOrderType::HistoryIntersectingLimitOrder,
        OrderOrigin::Trader => AggressiveOrderType::TraderIntersectingLimitOrder,
    }
}

/// The state after an order came to rest: it stands in the book on the side
/// of its direction, and it is known as a pending limit of the trader or as an
/// order of the tape.
pub open spec fn rest_order(
    state: EngineView,
    order_id: OrderID,
    size: Size,
    direction: Direction,
    price: Price,
    origin: OrderOrigin,
) -> EngineView {
    let placed = state.with_side(
        direction,
        place_on_side(
            state.side(direction),
            direction,
            price,
            OrderBookEntry { order_id, size, from: origin },
        ),
    );
    match origin {
        OrderOrigin::Trader => EngineView {
            pending_limits: placed.pending_limits.insert(order_id.0, (price, direction)),
            ..placed
        },
        OrderOrigin::History => EngineView {
            history_order_ids: placed.history_order_ids.insert(order_id.0),
            ..placed
        },
    }
}

/// What a limit does once the waiting market orders have had their part.
/// Where the opposite side offers at least `amount` lots at prices that the
/// limit crosses, the limit executes like a market order and nothing of it
/// rests. Otherwise what it crosses is executed against it and the rest comes
/// to rest at its price.
pub open spec fn cross_and_rest(
    state: EngineView,
    order: LimitOrder,
    origin: OrderOrigin,
    amount: u64,
) -> EngineView {
    let crossing = crossing_volume(
        state.side(order.direction.spec_opposite()),
        order.price,
        order.direction,
    );
    if amount == 0 {
        state
    } else if crossing >= amount {
        aggress(
            state,
            MarketOrder { order_id: order.order_id, size: Size(amount), direction: order.direction },
            market_kind(origin),
        )
    } else {
        let crossed = if crossing == 0 {
            state
        } else {
            aggress(
                state,
                MarketOrder {
                    order_id: order.order_id,
                    size: Size(crossing as u64),
                    direction: order.direction,
                },
                crossing_kind(origin),
            )
        };
        rest_order(
            crossed,
            order.order_id,
            Size((amount - crossing) as u64),
            order.direction,
            order.price,
            origin,
        )
    }
}

/// The state after a limit arrived: it meets the waiting market orders of the
/// trader, then the opposite side of the book, and what is left of it rests.
pub open spec fn insert_limit(state: EngineView, order: LimitOrder, origin: OrderOrigin) -> EngineView {
    let met = prematch(state.pending_markets, order.direction, order.size.0);
    cross_and_rest(
        apply_pairings(
            EngineView { pending_markets: met.pending, ..state },
            met.pairings,
            order,
            origin,
        ),
        order,
        origin,
        met.remaining,
    )
}

/// The state after the tape removed an order. An order that does not rest
/// at the price that the tape gives leaves the state as it is, but for a note.
pub open spec fn remove_prl(
    state: EngineView,
    direction: Direction,
    price: Price,
    order_id: OrderID,
) -> EngineView {
    if side_holds(state.side(direction), price, order_id, OrderOrigin::History) {
        let removed = state.with_side(
            direction,
            remove_from_side(state.side(direction), price, order_id, OrderOrigin::History),
        );
        let noted = if state.history_order_ids.contains(order_id.0) {
            removed
        } else {
            removed.with_note(DiagnosticKind::RemovedOrderWasNotTracked(order_id))
        };
        EngineView { history_order_ids: noted.history_order_ids.remove(order_id.0), ..noted }
    } else {
        state.with_note(DiagnosticKind::OrderToRemoveNotFound(order_id, price))
    }
}

/// The state after the tape gave a resting order a new size. An order that
/// does not rest at the price that the tape gives leaves the state as it is,
/// but for a note.
pub open spec fn update_prl(
    state: EngineView,
    size: Size,
    direction: Direction,
    price: Price,
    order_id: OrderID,
) -> EngineView {
    if side_holds(state.side(direction), price, order_id, OrderOrigin::History) {
        state.with_side(
            direction,
            resize_on_side(state.side(direction), price, order_id, OrderOrigin::History, size),
        )
    } else {
        state.with_note(DiagnosticKind::OrderToUpdateNotFound(order_id, price))
    }
}

/// The state after the tape gave the resting state of one order: size zero
/// removes it, another size changes an order that the book knows and lets a
/// new one arrive as a limit.
pub open spec fn handle_prl(
    state: EngineView,
    size: Size,
    direction: Direction,
    price: Price,
    order_id: OrderID,
) -> EngineView {
    if size.0 == 0 {
        remove_prl(state, direction, price, order_id)
    } else if state.history_order_ids.contains(order_id.0) {
        update_prl(state, size, direction, price, order_id)
    } else {
        insert_limit(state, LimitOrder { order_id, size, direction, price }, OrderOrigin::History)
    }
}

/// The order that stands for a trade of the tape, which has no identifier of its own.
pub open spec fn tape_trade(size: Size, direction: Direction) -> MarketOrder {
    MarketOrder { order_id: OrderID(0), size, direction }
}

/// The state after a trade of the tape.
pub open spec fn handle_trd(state: EngineView, size: Size, direction: Direction) -> EngineView {
    aggress(state, tape_trade(size, direction), AggressiveOrderType::HistoryMarketOrder)
}

/// The state after an event of the tape. While the venue is closed nothing is
/// matched and nothing rests: the event leaves the state as it is.
pub open spec fn handle_history(state: EngineView, event: HistoryEventBody) -> EngineView {
    if state.closed {
        state
    } else {
        match event {
            HistoryEventBody::PRL(size, direction, price, order_id) => handle_prl(
                state,
                size,
                direction,
                price,
                order_id,
            ),
            HistoryEventBody::TRD(size, direction) => handle_trd(state, size, direction),
        }
    }
}

/// Why a placement is not accepted, if it is not: the venue is closed; else
/// the size is zero; else the identifier was used in this session.
pub open spec fn placement_refusal(state: EngineView, order_id: OrderID, size: Size) -> Option<
    DiscardingReason,
> {
    if state.closed {
        Some(DiscardingReason::ExchangeClosed)
    } else if size.0 == 0 {
        Some(DiscardingReason::ZeroSize)
    } else if state.submitted.contains(order_id.0) {
        Some(DiscardingReason::OrderWithSuchIDAlreadySubmitted)
    } else {
        None
    }
}

/// The state with a placement accepted: the trader is told so, and the
/// identifier counts as used.
pub open spec fn accept(state: EngineView, order_id: OrderID) -> EngineView {
    EngineView {
        submitted: state.submitted.insert(order_id.0),
        ..state.with_reply(ExchangeReply::OrderAccepted(order_id))
    }
}

/// The state after the trader placed a limit.
pub open spec fn submit_limit(state: EngineView, order: LimitOrder) -> EngineView {
    match placement_refusal(state, order.order_id, order.size) {
        Some(reason) => state.with_reply(
            ExchangeReply::OrderPlacementDiscarded(order.order_id, reason),
        ),
        None => insert_limit(accept(state, order.order_id), order, OrderOrigin::Trader),
    }
}

/// The state after the trader placed a market order.
pub open spec fn submit_market(state: EngineView, order: MarketOrder) -> EngineView {
    match placement_refusal(state, order.order_id, order.size) {
        Some(reason) => state.with_reply(
            ExchangeReply::OrderPlacementDiscarded(order.order_id, reason),
        ),
        None => aggress(
            accept(state, order.order_id),
            order,
            AggressiveOrderType::TraderMarketOrder,
        ),
    }
}

/// The state after the trader asked to cancel a limit.
pub open spec fn cancel_limit(state: EngineView, order_id: OrderID) -> EngineView {
    if state.closed {
        state.with_reply(
            ExchangeReply::CannotCancelOrder(order_id, InabilityToCancelReason::ExchangeClosed),
        )
    } else if !state.submitted.contains(order_id.0) {
        state.with_reply(
            ExchangeReply::CannotCancelOrder(
                order_id,
                InabilityToCancelReason::OrderHasNotBeenSubmitted,
            ),
        )
    } else if state.pending_limits.contains_key(order_id.0) {
        let (price, direction) = state.pending_limits[order_id.0];
        let removed = state.with_side(
            direction,
            remove_from_side(state.side(direction), price, order_id, OrderOrigin::Trader),
        );
        EngineView {
            pending_limits: removed.pending_limits.remove(order_id.0),
            ..removed
        }.with_reply(ExchangeReply::OrderCancelled(order_id, CancellationReason::TraderRequested))
    } else {
        state.with_reply(
            ExchangeReply::CannotCancelOrder(order_id, InabilityToCancelReason::OrderAlreadyExecuted),
        )
    }
}

/// The place of the first waiting market order with the given identifier;
/// the number of waiting orders where there is none.
pub open spec fn pending_market_at(pending: Seq<MarketOrder>, order_id: OrderID) -> int {
    first_index(pending, |order: MarketOrder| order.order_id == order_id)
}

/// The state after the trader asked to cancel a market order.
pub open spec fn cancel_market(state: EngineView, order_id: OrderID) -> EngineView {
    let at = pending_market_at(state.pending_markets, order_id);
    if state.closed {
        state.with_reply(
            ExchangeReply::CannotCancelOrder(order_id, InabilityToCancelReason::ExchangeClosed),
        )
    } else if !state.submitted.contains(order_id.0) {
        state.with_reply(
            ExchangeReply::CannotCancelOrder(
                order_id,
                InabilityToCancelReason::OrderHasNotBeenSubmitted,
            ),
        )
    } else if at < state.pending_markets.len() {
        EngineView { pending_markets: state.pending_markets.remove(at), ..state }.with_reply(
            ExchangeReply::OrderCancelled(order_id, CancellationReason::TraderRequested),
        )
    } else {
        state.with_reply(
            ExchangeReply::CannotCancelOrder(order_id, InabilityToCancelReason::OrderAlreadyExecuted),
        )
    }
}

/// The state after a request of the trader.
pub open spec fn handle_request(state: EngineView, request: TraderRequest) -> EngineView {
    match request {
        TraderRequest::PlaceLimitOrder(order) => submit_limit(state, order),
        TraderRequest::PlaceMarketOrder(order) => submit_market(state, order),
        TraderRequest::CancelLimitOrder(order_id) => cancel_limit(state, order_id),
        TraderRequest::CancelMarketOrder(order_id) => cancel_market(state, order_id),
    }
}

/// An ascending sequence with one more identifier, behind those that are not larger.
pub open spec fn insert_ascending(sorted: Seq<OrderID>, order_id: OrderID) -> Seq<OrderID> {
    sorted.insert(first_index(sorted, |other: OrderID| other.0 > order_id.0), order_id)
}

/// The identifiers in ascending order.
pub open spec fn ascending(ids: Seq<OrderID>) -> Seq<OrderID>
    decreases ids.len(),
{
    if ids.len() == 0 {
        Seq::empty()
    } else {
        insert_ascending(ascending(ids.drop_last()), ids.last())
    }
}

/// The identifiers of the waiting market orders, oldest first.
pub open spec fn market_order_ids(pending: Seq<MarketOrder>) -> Seq<OrderID> {
    pending.map_values(|order: MarketOrder| order.order_id)
}

/// The orders of the trader that are still open: the limits that rest in the
/// book and the market orders that wait.
pub open spec fn open_trader_orders(state: EngineView) -> Seq<OrderID> {
    side_orders_of(state.bids, OrderOrigin::Trader) + side_orders_of(
        state.asks,
        OrderOrigin::Trader,
    ) + market_order_ids(state.pending_markets)
}

/// What the trader is told when the session ends with orders still open.
pub open spec fn cancellations(ids: Seq<OrderID>) -> Seq<ExchangeReply> {
    ids.map_values(
        |order_id: OrderID| ExchangeReply::OrderCancelled(order_id, CancellationReason::ExchangeClosed),
    )
}

/// The state after a session boundary. The book is cleared and no order of
/// the tape is known any more. At the end of trading, moreover, every open
/// order of the trader is cancelled, in ascending order of the identifiers,
/// and the identifiers that the trader used are forgotten.
pub open spec fn cleanup(state: EngineView, end_of_trades: bool) -> EngineView {
    let cleared = EngineView {
        bids: Seq::empty(),
        asks: Seq::empty(),
        history_order_ids: Set::empty(),
        ..state
    };
    if end_of_trades {
        EngineView {
            replies: state.replies + cancellations(ascending(open_trader_orders(state))),
            pending_markets: Seq::empty(),
            pending_limits: Map::empty(),
            submitted: Set::empty(),
            ..cleared
        }
    } else {
        cleared
    }
}

/// The state after the venue opened: the book starts empty, and orders are taken.
pub open spec fn open_session(state: EngineView) -> EngineView {
    EngineView { closed: false, ..cleanup(state, false) }
}

/// The state after the venue closed: trading has ended, and no order is
/// taken. Every closing ends trading: what the trader still has open is
/// cancelled, and the identifiers that the trader used are free again in the
/// next session.
pub open spec fn close_session(state: EngineView) -> EngineView {
    EngineView { closed: true, ..cleanup(state, true) }
}

/// The identifiers in ascending order.
pub fn sort_ascending(ids: &Vec<OrderID>) -> (sorted: Vec<OrderID>)
    ensures
        sorted@ == ascending(ids@),
{
    let mut sorted: Vec<OrderID> = Vec::new();
    let mut k: usize = 0;
    proof {
        assert(ids@.take(0) =~= Seq::<OrderID>::empty());
    }
    while k < ids.len()
        invariant
            k <= ids.len(),
            sorted@ == ascending(ids@.take(k as int)),
        decreases ids.len() - k,
    {
        let order_id = ids[k];
        let ghost larger = |other: OrderID| other.0 > order_id.0;
        let mut at: usize = 0;
        while at < sorted.len() && sorted[at].0 <= order_id.0
            invariant
                at <= sorted.len(),
                larger == |other: OrderID| other.0 > order_id.0,
                forall|i: int| 0 <= i < at ==> !larger(#[trigger] sorted@[i]),
            decreases sorted.len() - at,
        {
            at = at + 1;
        }
        proof {
            if at < sorted.len() {
                assert(larger(sorted@[at as int]));
            }
            lemma_first_index(sorted@, larger, at as int);
            assert(ids@.take(k as int + 1).drop_last() =~= ids@.take(k as int));
        }
        sorted.insert(at, order_id);
        k = k + 1;
    }
    proof {
        assert(ids@.take(k as int) =~= ids@);
    }
    sorted
}

/// Executes an arriving limit of `amount` lots against the waiting market
/// orders, in place. The pairings are appended to `pairings`; what is left of
/// the limit is returned.
pub fn prematch_pending(
    pending: &mut Vec<MarketOrder>,
    incoming: Direction,
    amount: u64,
    pairings: &mut Vec<Pairing>,
) -> (remaining: u64)
    ensures
        final(pending)@ == prematch(old(pending)@, incoming, amount).pending,
        final(pairings)@ == old(pairings)@ + prematch(old(pending)@, incoming, amount).pairings,
        remaining == prematch(old(pending)@, incoming, amount).remaining,
{
    let ghost start = pending@;
    let ghost pairings_start = pairings@;
    let ghost whole = prematch(start, incoming, amount);
    let mut left: u64 = amount;
    let mut j: usize = 0;
    proof {
        assert(pending@.skip(0) =~= pending@);
        assert(pending@.take(0) + whole.pending =~= whole.pending);
        assert(pairings@ + whole.pairings =~= pairings_start + whole.pairings);
    }
    while j < pending.len() && left > 0
        invariant
            j <= pending.len(),
            whole == prematch(start, incoming, amount),
            whole.pending == pending@.take(j as int) + prematch(
                pending@.skip(j as int),
                incoming,
                left,
            ).pending,
            pairings_start + whole.pairings == pairings@ + prematch(
                pending@.skip(j as int),
                incoming,
                left,
            ).pairings,
            whole.remaining == prematch(pending@.skip(j as int), incoming, left).remaining,
        ensures
            j == pending.len() || left == 0,
        decreases pending.len() - j,
    {
        let waiting = pending[j];
        let ghost before = pending@;
        let ghost tail = before.skip(j as int);
        proof {
            assert(tail[0] == waiting);
            assert(tail.drop_first() =~= before.skip(j as int + 1));
        }
        if waiting.direction == incoming {
            let ghost rest = prematch(before.skip(j as int + 1), incoming, left);
            j = j + 1;
            proof {
                assert(pending@.take(j as int) =~= before.take(j as int - 1) + seq![waiting]);
                assert(whole.pending =~= pending@.take(j as int) + rest.pending);
            }
        } else if left < waiting.size.0 {
            pairings.push(
                Pairing {
                    order_id: waiting.order_id,
                    direction: waiting.direction,
                    size: Size(left),
                    pending_done: false,
                    order_done: true,
                },
            );
            pending[j].size = Size(waiting.size.0 - left);
            proof {
                let step = prematch(tail, incoming, left);
                assert(pending@.take(j as int) =~= before.take(j as int));
                assert(pending@.skip(j as int) =~= step.pending);
                assert(whole.pending =~= pending@.take(j as int) + pending@.skip(j as int));
                assert(pairings_start + whole.pairings =~= pairings@);
            }
            left = 0;
            break;
        } else {
            pairings.push(
                Pairing {
                    order_id: waiting.order_id,
                    direction: waiting.direction,
                    size: waiting.size,
                    pending_done: true,
                    order_done: left == waiting.size.0,
                },
            );
            let ghost rest = prematch(
                before.skip(j as int + 1),
                incoming,
                (left - waiting.size.0) as u64,
            );
            left = left - waiting.size.0;
            pending.remove(j);
            proof {
                assert(pending@.take(j as int) =~= before.take(j as int));
                assert(pending@.skip(j as int) =~= before.skip(j as int + 1));
                assert(pairings_start + whole.pairings =~= pairings@ + rest.pairings);
            }
        }
    }
    proof {
        assert(pending@.take(j as int) + pending@.skip(j as int) =~= pending@);
        assert(pairings@ + Seq::<Pairing>::empty() =~= pairings@);
    }
    left
}

impl MatchingEngine {
    /// An engine with an empty book, closed, at the given time.
    pub fn new(debug: bool, trade_updates_book: bool, record_trades: bool, current_dt: DateTime) -> (r:
        MatchingEngine)
        ensures
            r@ == (EngineView {
                bids: Seq::empty(),
                asks: Seq::empty(),
                history_order_ids: Set::empty(),
                pending_markets: Seq::empty(),
                pending_limits: Map::empty(),
                submitted: Set::empty(),
                trades: Seq::empty(),
                replies: Seq::empty(),
                diagnostics: Seq::empty(),
                closed: true,
                now: current_dt,
                debug,
                trade_updates_book,
                record_trades,
            }),
    {
        let engine = MatchingEngine {
            bids: Vec::new(),
            asks: Vec::new(),
            history_order_ids: HashSet::new(),
            trader_pending_market_orders: Vec::new(),
            trader_pending_limit_orders: HashMap::new(),
            trader_submitted_orders: HashSet::new(),
            executed_trades: TradesHistory::new(),
            replies: Vec::new(),
            diagnostics: Vec::new(),
            exchange_closed: true,
            current_dt,
            debug,
            trade_updates_book,
            record_trades,
        };
        proof {
            assert(engine@.bids =~= Seq::empty());
            assert(engine@.asks =~= Seq::empty());
            assert(engine@ =~= (EngineView {
                bids: Seq::empty(),
                asks: Seq::empty(),
                history_order_ids: Set::empty(),
                pending_markets: Seq::empty(),
                pending_limits: Map::empty(),
                submitted: Set::empty(),
                trades: Seq::empty(),
                replies: Seq::empty(),
                diagnostics: Seq::empty(),
                closed: true,
                now: current_dt,
                debug,
                trade_updates_book,
                record_trades,
            }));
        }
        engine
    }

    /// Whether an aggressor of the given kind debits the orders of the tape.
    pub fn react_with_history_limit_orders(&self, kind: AggressiveOrderType) -> (r: bool)
        ensures
            r == takes_history(kind, self.trade_updates_book),
    {
        match kind {
            AggressiveOrderType::TraderMarketOrder => true,
            AggressiveOrderType::TraderIntersectingLimitOrder => true,
            _ => self.trade_updates_book,
        }
    }

    /// Whether the aggressor is an order of the trader.
    pub fn is_trader_aggressive_order(kind: AggressiveOrderType) -> (r: bool)
        ensures
            r == is_trader_aggressor(kind),
    {
        match kind {
            AggressiveOrderType::TraderMarketOrder => true,
            AggressiveOrderType::TraderIntersectingLimitOrder => true,
            _ => false,
        }
    }

    /// Accounts for one fill of the given aggressor.
    fn account_fill(&mut self, fill: Fill, order: MarketOrder, kind: AggressiveOrderType)
        ensures
            final(self)@ == apply_fill(old(self)@, fill, order, kind),
    {
        broadcast use vstd::std_specs::hash::group_hash_axioms;

        let ghost before = self@;
        if self.record_trades {
            self.executed_trades.push(
                OrderBookDiff {
                    datetime: self.current_dt,
                    price: fill.price,
                    size: fill.size,
                    direction: order.direction,
                },
            );
        }
        match kind {
            AggressiveOrderType::TraderMarketOrder => {
                if fill.aggressor_done {
                    self.replies.push(
                        ExchangeReply::OrderExecuted(order.order_id, fill.size, fill.price),
                    );
                } else {
                    self.replies.push(
                        ExchangeReply::OrderPartiallyExecuted(order.order_id, fill.size, fill.price),
                    );
                }
            },
            AggressiveOrderType::TraderIntersectingLimitOrder => {
                self.replies.push(
                    ExchangeReply::OrderPartiallyExecuted(order.order_id, fill.size, fill.price),
                );
            },
            _ => {},
        }
        match fill.from {
            OrderOrigin::Trader => {
                if fill.resting_done {
                    self.replies.push(
                        ExchangeReply::OrderExecuted(fill.order_id, fill.size, fill.price),
                    );
                    self.trader_pending_limit_orders.remove(&fill.order_id.0);
                } else {
                    self.replies.push(
                        ExchangeReply::OrderPartiallyExecuted(fill.order_id, fill.size, fill.price),
                    );
                }
            },
            OrderOrigin::History => {
                if fill.resting_done && self.react_with_history_limit_orders(kind) {
                    self.history_order_ids.remove(&fill.order_id.0);
                }
            },
        }
        proof {
            let after = apply_fill(before, fill, order, kind);
            assert(self@.replies =~= after.replies);
            assert(self@ =~= after);
        }
    }

    /// Lets an aggressor execute against the side opposite to its direction.
    /// The crossing part of a limit must find the lots that it crosses: it
    /// may be no larger than what rests on that side, and so nothing is left of it.
    pub fn insert_aggressive_order(&mut self, order: MarketOrder, kind: AggressiveOrderType)
        requires
            is_crossing_part(kind) ==> order.size.0 <= side_volume(
                old(self)@.side(order.direction.spec_opposite()),
            ),
        ensures
            final(self)@ == aggress(old(self)@, order, kind),
            is_crossing_part(kind) ==> consume_side(
                old(self)@.side(order.direction.spec_opposite()),
                order.size.0,
                takes_history(kind, old(self)@.trade_updates_book),
            ).remaining == 0,
    {
        let ghost before = self@;
        proof {
            lemma_consume_side_volume(
                before.side(order.direction.spec_opposite()),
                order.size.0,
                takes_history(kind, before.trade_updates_book),
            );
        }
        let take_history = self.react_with_history_limit_orders(kind);
        let mut fills: Vec<Fill> = Vec::new();
        let remaining = match order.direction {
            Direction::Buy => consume_book_side(&mut self.asks, order.size.0, take_history, &mut fills),
            Direction::Sell => consume_book_side(&mut self.bids, order.size.0, take_history, &mut fills),
        };
        let ghost opposite = order.direction.spec_opposite();
        let ghost outcome = consume_side(before.side(opposite), order.size.0, take_history);
        let ghost emptied = before.with_side(opposite, outcome.levels);
        proof {
            assert(fills@ =~= outcome.fills);
            assert(self@ =~= emptied);
            assert(fills@.take(0) =~= Seq::<Fill>::empty());
        }
        let mut k: usize = 0;
        while k < fills.len()
            invariant
                k <= fills.len(),
                self@ == apply_fills(emptied, fills@.take(k as int), order, kind),
            decreases fills.len() - k,
        {
            proof {
                assert(fills@.take(k as int + 1).drop_last() =~= fills@.take(k as int));
            }
            self.account_fill(fills[k], order, kind);
            k = k + 1;
        }
        proof {
            assert(fills@.take(k as int) =~= fills@);
        }
        if remaining > 0 {
            match kind {
                AggressiveOrderType::TraderMarketOrder => {
                    self.trader_pending_market_orders.push(
                        MarketOrder::new(order.order_id, Size(remaining), order.direction),
                    );
                },
                AggressiveOrderType::HistoryMarketOrder => {
                    self.note(DiagnosticKind::TradeNotFullyExecuted(Size(remaining)));
                },
                _ => {},
            }
        }
        proof {
            assert(self@ =~= aggress(before, order, kind));
        }
    }

    /// Makes a note, if notes are made.
    fn note(&mut self, kind: DiagnosticKind)
        ensures
            final(self)@ == old(self)@.with_note(kind),
    {
        if self.debug {
            self.diagnostics.push(Diagnostic { datetime: self.current_dt, kind });
        }
        proof {
            assert(self@ =~= old(self)@.with_note(kind));
        }
    }
    /// Accounts for one pairing of the given limit.
    fn account_pairing(&mut self, pairing: Pairing, order: LimitOrder, origin: OrderOrigin)
        ensures
            final(self)@ == apply_pairing(old(self)@, pairing, order, origin),
    {
        let ghost before = self@;
        if pairing.pending_done {
            self.replies.push(
                ExchangeReply::OrderExecuted(pairing.order_id, pairing.size, order.price),
            );
        } else {
            self.replies.push(
                ExchangeReply::OrderPartiallyExecuted(pairing.order_id, pairing.size, order.price),
            );
        }
        match origin {
            OrderOrigin::Trader => {
                if pairing.order_done {
                    self.replies.push(
                        ExchangeReply::OrderExecuted(order.order_id, pairing.size, order.price),
                    );
                } else {
                    self.replies.push(
                        ExchangeReply::OrderPartiallyExecuted(
                            order.order_id,
                            pairing.size,
                            order.price,
                        ),
                    );
                }
            },
            OrderOrigin::History => {},
        }
        if self.record_trades {
            self.executed_trades.push(
                OrderBookDiff {
                    datetime: self.current_dt,
                    price: order.price,
                    size: pairing.size,
                    direction: pairing.direction,
                },
            );
        }
        proof {
            let after = apply_pairing(before, pairing, order, origin);
            assert(self@.replies =~= after.replies);
            assert(self@ =~= after);
        }
    }

    /// Lets an order come to rest in the book.
    fn rest(
        &mut self,
        order_id: OrderID,
        size: Size,
        direction: Direction,
        price: Price,
        origin: OrderOrigin,
    )
        ensures
            final(self)@ == rest_order(old(self)@, order_id, size, direction, price, origin),
    {
        let ghost before = self@;
        let entry = OrderBookEntry { order_id, size, from: origin };
        match direction {
            Direction::Buy => rest_on_side(&mut self.bids, direction, price, entry),
            Direction::Sell => rest_on_side(&mut self.asks, direction, price, entry),
        }
        match origin {
            OrderOrigin::Trader => {
                self.trader_pending_limit_orders.insert(order_id.0, (price, direction));
            },
            OrderOrigin::History => {
                self.history_order_ids.insert(order_id.0);
            },
        }
        proof {
            assert(self@ =~= rest_order(before, order_id, size, direction, price, origin));
        }
    }

    /// Lets a limit arrive: it meets the waiting market orders of the trader,
    /// then the opposite side of the book, and what is left of it rests.
    pub fn insert_limit_order(&mut self, order: LimitOrder, origin: OrderOrigin)
        ensures
            final(self)@ == insert_limit(old(self)@, order, origin),
    {
        let ghost before = self@;
        let mut pairings: Vec<Pairing> = Vec::new();
        let amount = prematch_pending(
            &mut self.trader_pending_market_orders,
            order.direction,
            order.size.0,
            &mut pairings,
        );
        let ghost met = prematch(before.pending_markets, order.direction, order.size.0);
        let ghost unpaired = EngineView { pending_markets: met.pending, ..before };
        proof {
            assert(pairings@ =~= met.pairings);
            assert(self@ =~= unpaired);
            assert(pairings@.take(0) =~= Seq::<Pairing>::empty());
        }
        let mut k: usize = 0;
        while k < pairings.len()
            invariant
                k <= pairings.len(),
                self@ == apply_pairings(unpaired, pairings@.take(k as int), order, origin),
            decreases pairings.len() - k,
        {
            proof {
                assert(pairings@.take(k as int + 1).drop_last() =~= pairings@.take(k as int));
            }
            self.account_pairing(pairings[k], order, origin);
            k = k + 1;
        }
        proof {
            assert(pairings@.take(k as int) =~= pairings@);
        }
        if amount == 0 {
            return ;
        }
        let crossing = match order.direction {
            Direction::Buy => crossing_size(&self.asks, order.price, order.direction),
            Direction::Sell => crossing_size(&self.bids, order.price, order.direction),
        };
        if crossing.0 >= amount {
            let kind = match origin {
                OrderOrigin::History => AggressiveOrderType::HistoryMarketOrder,
                OrderOrigin::Trader => AggressiveOrderType::TraderMarketOrder,
            };
            self.insert_aggressive_order(
                MarketOrder::new(order.order_id, Size(amount), order.direction),
                kind,
            );
        } else {
            if crossing.0 != 0 {
                let kind = match origin {
                    OrderOrigin::History => AggressiveOrderType::HistoryIntersectingLimitOrder,
                    OrderOrigin::Trader => AggressiveOrderType::TraderIntersectingLimitOrder,
                };
                proof {
                    lemma_crossing_within_side(
                        self@.side(order.direction.spec_opposite()),
                        order.price,
                        order.direction,
                    );
                }
                self.insert_aggressive_order(
                    MarketOrder::new(order.order_id, crossing, order.direction),
                    kind,
                );
            }
            self.rest(
                order.order_id,
                Size(amount - crossing.0),
                order.direction,
                order.price,
                origin,
            );
        }
    }

    /// Takes an order of the tape out of the book.
    pub fn remove_prl_entry(&mut self, direction: Direction, price: Price, order_id: OrderID)
        ensures
            final(self)@ == remove_prl(old(self)@, direction, price, order_id),
    {
        broadcast use vstd::std_specs::hash::group_hash_axioms;

        let ghost before = self@;
        let found = match direction {
            Direction::Buy => remove_entry(&mut self.bids, price, order_id, OrderOrigin::History),
            Direction::Sell => remove_entry(&mut self.asks, price, order_id, OrderOrigin::History),
        };
        if found {
            let tracked_before = self.history_order_ids.remove(&order_id.0);
            if !tracked_before {
                self.note(DiagnosticKind::RemovedOrderWasNotTracked(order_id));
            }
        } else {
            self.note(DiagnosticKind::OrderToRemoveNotFound(order_id, price));
        }
        proof {
            assert(self@ =~= remove_prl(before, direction, price, order_id));
        }
    }

    /// Gives an order of the tape that rests in the book a new size.
    pub fn update_traded_prl_entry(
        &mut self,
        size: Size,
        direction: Direction,
        price: Price,
        order_id: OrderID,
    )
        ensures
            final(self)@ == update_prl(old(self)@, size, direction, price, order_id),
    {
        let ghost before = self@;
        let found = match direction {
            Direction::Buy => resize_entry(
                &mut self.bids,
                price,
                order_id,
                OrderOrigin::History,
                size,
            ),
            Direction::Sell => resize_entry(
                &mut self.asks,
                price,
                order_id,
                OrderOrigin::History,
                size,
            ),
        };
        if !found {
            self.note(DiagnosticKind::OrderToUpdateNotFound(order_id, price));
        }
        proof {
            assert(self@ =~= update_prl(before, size, direction, price, order_id));
        }
    }

    /// Applies what the tape says of the resting state of one order.
    pub fn handle_prl_event(
        &mut self,
        size: Size,
        direction: Direction,
        price: Price,
        order_id: OrderID,
    )
        ensures
            final(self)@ == handle_prl(old(self)@, size, direction, price, order_id),
    {
        broadcast use vstd::std_specs::hash::group_hash_axioms;

        if size.0 == 0 {
            self.remove_prl_entry(direction, price, order_id)
        } else if self.history_order_ids.contains(&order_id.0) {
            self.update_traded_prl_entry(size, direction, price, order_id)
        } else {
            self.insert_limit_order(
                LimitOrder::new(order_id, size, direction, price),
                OrderOrigin::History,
            )
        }
    }

    /// Applies a trade of the tape.
    pub fn handle_trd_event(&mut self, size: Size, direction: Direction)
        ensures
            final(self)@ == handle_trd(old(self)@, size, direction),
    {
        self.insert_aggressive_order(
            MarketOrder::new(OrderID(0), size, direction),
            AggressiveOrderType::HistoryMarketOrder,
        )
    }

    /// Applies an event of the tape; while the venue is closed, it has no effect.
    pub fn handle_history_event(&mut self, event: HistoryEventBody)
        ensures
            final(self)@ == handle_history(old(self)@, event),
    {
        if self.exchange_closed {
            return ;
        }
        match event {
            HistoryEventBody::PRL(size, direction, price, order_id) => {
                self.handle_prl_event(size, direction, price, order_id)
            },
            HistoryEventBody::TRD(size, direction) => { self.handle_trd_event(size, direction) },
        }
    }

    /// Why a placement is not accepted, if it is not.
    fn refusal(&self, order_id: OrderID, size: Size) -> (r: Option<DiscardingReason>)
        ensures
            r == placement_refusal(self@, order_id, size),
    {
        broadcast use vstd::std_specs::hash::group_hash_axioms;

        if self.exchange_closed {
            Some(DiscardingReason::ExchangeClosed)
        } else if size.0 == 0 {
            Some(DiscardingReason::ZeroSize)
        } else if self.trader_submitted_orders.contains(&order_id.0) {
            Some(DiscardingReason::OrderWithSuchIDAlreadySubmitted)
        } else {
            None
        }
    }

    /// Tells the trader that the placement is accepted and counts the identifier as used.
    fn accept_placement(&mut self, order_id: OrderID)
        ensures
            final(self)@ == accept(old(self)@, order_id),
    {
        let ghost before = self@;
        self.replies.push(ExchangeReply::OrderAccepted(order_id));
        self.trader_submitted_orders.insert(order_id.0);
        proof {
            assert(self@ =~= accept(before, order_id));
        }
    }

    /// Adds a reply for the trader.
    fn reply(&mut self, reply: ExchangeReply)
        ensures
            final(self)@ == old(self)@.with_reply(reply),
    {
        self.replies.push(reply);
        proof {
            assert(self@ =~= old(self)@.with_reply(reply));
        }
    }

    /// Takes a limit of the trader, or tells the trader why not.
    pub fn submit_limit_order(&mut self, order: LimitOrder)
        ensures
            final(self)@ == submit_limit(old(self)@, order),
    {
        match self.refusal(order.order_id, order.size) {
            Some(reason) => {
                self.reply(ExchangeReply::OrderPlacementDiscarded(order.order_id, reason));
            },
            None => {
                self.accept_placement(order.order_id);
                self.insert_limit_order(order, OrderOrigin::Trader);
            },
        }
    }

    /// Takes a market order of the trader, or tells the trader why not.
    pub fn submit_market_order(&mut self, order: MarketOrder)
        ensures
            final(self)@ == submit_market(old(self)@, order),
    {
        match self.refusal(order.order_id, order.size) {
            Some(reason) => {
                self.reply(ExchangeReply::OrderPlacementDiscarded(order.order_id, reason));
            },
            None => {
                self.accept_placement(order.order_id);
                self.insert_aggressive_order(order, AggressiveOrderType::TraderMarketOrder);
            },
        }
    }

    /// Cancels a resting limit of the trader, or tells the trader why not.
    pub fn cancel_limit_order(&mut self, order_id: OrderID)
        ensures
            final(self)@ == cancel_limit(old(self)@, order_id),
    {
        broadcast use vstd::std_specs::hash::group_hash_axioms;

        let ghost before = self@;
        if self.exchange_closed {
            self.reply(
                ExchangeReply::CannotCancelOrder(order_id, InabilityToCancelReason::ExchangeClosed),
            );
            return ;
        }
        if !self.trader_submitted_orders.contains(&order_id.0) {
            self.reply(
                ExchangeReply::CannotCancelOrder(
                    order_id,
                    InabilityToCancelReason::OrderHasNotBeenSubmitted,
                ),
            );
            return ;
        }
        match self.trader_pending_limit_orders.remove(&order_id.0) {
            Some((price, direction)) => {
                match direction {
                    Direction::Buy => {
                        remove_entry(&mut self.bids, price, order_id, OrderOrigin::Trader);
                    },
                    Direction::Sell => {
                        remove_entry(&mut self.asks, price, order_id, OrderOrigin::Trader);
                    },
                }
                self.replies.push(
                    ExchangeReply::OrderCancelled(order_id, CancellationReason::TraderRequested),
                );
                proof {
                    assert(self@ =~= cancel_limit(before, order_id));
                }
            },
            None => {
                self.replies.push(
                    ExchangeReply::CannotCancelOrder(
                        order_id,
                        InabilityToCancelReason::OrderAlreadyExecuted,
                    ),
                );
                proof {
                    assert(self@ =~= cancel_limit(before, order_id));
                }
            },
        }
    }

    /// Cancels a waiting market order of the trader, or tells the trader why not.
    pub fn cancel_market_order(&mut self, order_id: OrderID)
        ensures
            final(self)@ == cancel_market(old(self)@, order_id),
    {
        broadcast use vstd::std_specs::hash::group_hash_axioms;

        let ghost before = self@;
        if self.exchange_closed {
            self.reply(
                ExchangeReply::CannotCancelOrder(order_id, InabilityToCancelReason::ExchangeClosed),
            );
            return ;
        }
        if !self.trader_submitted_orders.contains(&order_id.0) {
            self.reply(
                ExchangeReply::CannotCancelOrder(
                    order_id,
                    InabilityToCancelReason::OrderHasNotBeenSubmitted,
                ),
            );
            return ;
        }
        let ghost wanted = |order: MarketOrder| order.order_id == order_id;
        let mut at: usize = 0;
        while at < self.trader_pending_market_orders.len()
            && self.trader_pending_market_orders[at].order_id != order_id
            invariant
                at <= self.trader_pending_market_orders.len(),
                self@ == before,
                wanted == |order: MarketOrder| order.order_id == order_id,
                forall|i: int| 0 <= i < at ==> !wanted(#[trigger] before.pending_markets[i]),
            decreases self.trader_pending_market_orders.len() - at,
        {
            at = at + 1;
        }
        proof {
            if at < before.pending_markets.len() {
                assert(wanted(before.pending_markets[at as int]));
            }
            lemma_first_index(before.pending_markets, wanted, at as int);
        }
        if at < self.trader_pending_market_orders.len() {
            self.trader_pending_market_orders.remove(at);
            self.replies.push(
                ExchangeReply::OrderCancelled(order_id, CancellationReason::TraderRequested),
            );
        } else {
            self.replies.push(
                ExchangeReply::CannotCancelOrder(
                    order_id,
                    InabilityToCancelReason::OrderAlreadyExecuted,
                ),
            );
        }
        proof {
            assert(self@ =~= cancel_market(before, order_id));
        }
    }

    /// Opens the venue with an empty book.
    pub fn open_session(&mut self)
        ensures
            final(self)@ == open_session(old(self)@),
    {
        self.cleanup(false);
        self.exchange_closed = false;
    }

    /// Closes the venue and ends trading: what the trader still has open is
    /// cancelled, and the identifiers that the trader used are free again.
    pub fn close_session(&mut self)
        ensures
            final(self)@ == close_session(old(self)@),
    {
        self.cleanup(true);
        self.exchange_closed = true;
    }

    /// Carries out a request of the trader.
    pub fn handle_trader_request(&mut self, request: TraderRequest)
        ensures
            final(self)@ == handle_request(old(self)@, request),
    {
        match request {
            TraderRequest::PlaceLimitOrder(order) => self.submit_limit_order(order),
            TraderRequest::PlaceMarketOrder(order) => self.submit_market_order(order),
            TraderRequest::CancelLimitOrder(order_id) => self.cancel_limit_order(order_id),
            TraderRequest::CancelMarketOrder(order_id) => self.cancel_market_order(order_id),
        }
    }

    /// Clears the book at a session boundary; at the end of trading, cancels
    /// what the trader still has open.
    pub fn cleanup(&mut self, end_of_trades: bool)
        ensures
            final(self)@ == cleanup(old(self)@, end_of_trades),
    {
        let ghost before = self@;
        if end_of_trades {
            let mut open: Vec<OrderID> = Vec::new();
            collect_orders_of(&self.bids, OrderOrigin::Trader, &mut open);
            collect_orders_of(&self.asks, OrderOrigin::Trader, &mut open);
            let mut j: usize = 0;
            let ghost resting = open@;
            proof {
                assert(self.trader_pending_market_orders@.take(0) =~= Seq::<MarketOrder>::empty());
                assert(open@ =~= resting + market_order_ids(
                    self.trader_pending_market_orders@.take(0),
                ));
            }
            while j < self.trader_pending_market_orders.len()
                invariant
                    j <= self.trader_pending_market_orders.len(),
                    self@ == before,
                    open@ == resting + market_order_ids(before.pending_markets.take(j as int)),
                decreases self.trader_pending_market_orders.len() - j,
            {
                open.push(self.trader_pending_market_orders[j].order_id);
                j = j + 1;
                proof {
                    assert(open@ =~= resting + market_order_ids(
                        before.pending_markets.take(j as int),
                    ));
                }
            }
            proof {
                assert(before.pending_markets.take(j as int) =~= before.pending_markets);
                assert(open@ =~= open_trader_orders(before));
            }
            let sorted = sort_ascending(&open);
            let mut k: usize = 0;
            let ghost replies_before = self.replies@;
            while k < sorted.len()
                invariant
                    k <= sorted.len(),
                    self@ == (EngineView { replies: self.replies@, ..before }),
                    self.replies@ == replies_before + cancellations(sorted@.take(k as int)),
                decreases sorted.len() - k,
            {
                self.replies.push(
                    ExchangeReply::OrderCancelled(sorted[k], CancellationReason::ExchangeClosed),
                );
                k = k + 1;
                proof {
                    assert(self.replies@ =~= replies_before + cancellations(
                        sorted@.take(k as int),
                    ));
                    assert(self@ =~= (EngineView { replies: self.replies@, ..before }));
                }
            }
            proof {
                assert(sorted@.take(k as int) =~= sorted@);
            }
            self.trader_pending_market_orders.clear();
            self.trader_pending_limit_orders.clear();
            self.trader_submitted_orders.clear();
        }
        self.history_order_ids.clear();
        self.bids.clear();
        self.asks.clear();
        proof {
            assert(self@ =~= cleanup(before, end_of_trades));
        }
    }
}

} // verus!
