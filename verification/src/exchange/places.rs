//! Where the orders of the book stand after an aggressor went through it.
//!
//! In a queue an aggressor uses up a leading run and takes part of at most
//! the entry behind that run. Whatever stays keeps its place: the entries of
//! the run that are not debited stay in their order, and everything behind
//! the run stays as it was, one entry possibly with fewer lots. On a side the
//! same holds level by level: a level is met with what the levels ahead of
//! it could not serve, and the levels behind the last one met are untouched.

use vstd::prelude::*;
use crate::exchange::book::{
    consume_queue, consume_side, entry_lots, is_debited, level_lots, queue_volume, side_volume,
};
use crate::exchange::book_laws::lemma_consume_queue_volume;
use crate::exchange::laws::lemma_aggress_frame;
use crate::exchange::matching::{aggress, takes_history, AggressiveOrderType, EngineView};
use crate::exchange::sums::{lemma_sum_first, lemma_sum_split};
use crate::exchange::types::{LevelView, OrderBookEntry};
use crate::order::MarketOrder;
use crate::types::{Price, Size};

verus! {

/// The number of leading entries that an aggressor of `amount` lots executes in full.
pub open spec fn used_up(queue: Seq<OrderBookEntry>, amount: u64) -> int
    decreases queue.len(),
{
    if queue.len() == 0 || amount == 0 || amount < queue[0].size.0 {
        0
    } else {
        1 + used_up(queue.drop_first(), (amount - queue[0].size.0) as u64)
    }
}

/// The entries of a queue that an aggressor does not debit, in their order.
pub open spec fn passed_over(queue: Seq<OrderBookEntry>, take_history: bool) -> Seq<OrderBookEntry>
    decreases queue.len(),
{
    if queue.len() == 0 {
        Seq::empty()
    } else if is_debited(queue[0], take_history) {
        passed_over(queue.drop_first(), take_history)
    } else {
        seq![queue[0]] + passed_over(queue.drop_first(), take_history)
    }
}

/// What an aggressor has left of its `amount` lots behind the entries that it executes in full.
pub open spec fn left_over(queue: Seq<OrderBookEntry>, amount: u64) -> int {
    amount - queue_volume(queue.take(used_up(queue, amount)))
}

/// An entry with `lots` fewer lots.
pub open spec fn reduced_by(entry: OrderBookEntry, lots: int) -> OrderBookEntry {
    OrderBookEntry {
        order_id: entry.order_id,
        size: Size((entry.size.0 - lots) as u64),
        from: entry.from,
    }
}

/// What stays of a queue behind the entries that the aggressor executes in
/// full: the entries as they were, the first of them with fewer lots where
/// the aggressor has lots left for it and debits it.
pub open spec fn left_behind(
    queue: Seq<OrderBookEntry>,
    amount: u64,
    take_history: bool,
) -> Seq<OrderBookEntry> {
    let run = used_up(queue, amount);
    let left = left_over(queue, amount);
    if run < queue.len() && left > 0 && is_debited(queue[run], take_history) {
        queue.skip(run).update(0, reduced_by(queue[run], left))
    } else {
        queue.skip(run)
    }
}

/// Nothing that is passed over is debited, and nothing leaves its order.
pub proof fn lemma_passed_over(queue: Seq<OrderBookEntry>, take_history: bool)
    ensures
        passed_over(queue, take_history).len() <= queue.len(),
        take_history ==> passed_over(queue, take_history).len() == 0,
        forall|j: int|
            0 <= j < passed_over(queue, take_history).len() ==> !is_debited(
                #[trigger] passed_over(queue, take_history)[j],
                take_history,
            ),
    decreases queue.len(),
{
    if queue.len() > 0 {
        lemma_passed_over(queue.drop_first(), take_history);
    }
}

/// The queue that an aggressor leaves is the entries of the leading run that
/// it does not debit, then what stays behind the run. The aggressor has
/// fewer lots left than the entry behind the run has. Each entry of the run
/// is reported as executed in full, in the order of the queue, and the entry
/// behind the run is reported with the lots that the aggressor had left.
pub proof fn law_queue_keeps_places(
    queue: Seq<OrderBookEntry>,
    price: Price,
    amount: u64,
    take_history: bool,
)
    ensures
        ({
            let outcome = consume_queue(queue, price, amount, take_history);
            let run = used_up(queue, amount);
            let left = left_over(queue, amount);
            &&& 0 <= run <= queue.len()
            &&& 0 <= left <= amount
            &&& run < queue.len() ==> left < queue[run].size.0 || left == 0
            &&& outcome.queue == passed_over(queue.take(run), take_history) + left_behind(
                queue,
                amount,
                take_history,
            )
            &&& outcome.fills.len() == if run < queue.len() && left > 0 {
                run + 1
            } else {
                run
            }
            &&& forall|j: int|
                0 <= j < run ==> (#[trigger] outcome.fills[j]).order_id == queue[j].order_id
                    && outcome.fills[j].from == queue[j].from && outcome.fills[j].size
                    == queue[j].size && outcome.fills[j].resting_done
            &&& run < queue.len() && left > 0 ==> outcome.fills[run].order_id
                == queue[run].order_id && outcome.fills[run].from == queue[run].from
                && outcome.fills[run].size.0 == left && !outcome.fills[run].resting_done
        }),
    decreases queue.len(),
{
    let outcome = consume_queue(queue, price, amount, take_history);
    let run = used_up(queue, amount);
    assert(queue.skip(0) =~= queue);
    assert(queue.take(0) =~= Seq::<OrderBookEntry>::empty());
    if queue.len() == 0 || amount == 0 {
    } else if amount < queue[0].size.0 {
    } else {
        let entry = queue[0];
        let rest = queue.drop_first();
        let less = (amount - entry.size.0) as u64;
        let behind = consume_queue(rest, price, less, take_history);
        let inner = used_up(rest, less);
        law_queue_keeps_places(rest, price, less, take_history);
        assert(run == inner + 1);
        assert(queue.take(run).drop_first() =~= rest.take(inner));
        assert(queue.take(run)[0] == entry);
        lemma_sum_first(queue.take(run), entry_lots());
        assert(left_over(queue, amount) == left_over(rest, less));
        assert(queue.skip(run) =~= rest.skip(inner));
        if inner < rest.len() {
            assert(queue[run] == rest[inner]);
        }
        assert(left_behind(queue, amount, take_history) == left_behind(rest, less, take_history));
        let stayed = passed_over(rest.take(inner), take_history);
        if is_debited(entry, take_history) {
            assert(passed_over(queue.take(run), take_history) == stayed);
        } else {
            assert(passed_over(queue.take(run), take_history) == seq![entry] + stayed);
            assert(outcome.queue =~= seq![entry] + stayed + left_behind(
                queue,
                amount,
                take_history,
            ));
        }
        assert forall|j: int| 0 <= j < run implies (#[trigger] outcome.fills[j]).order_id
            == queue[j].order_id && outcome.fills[j].from == queue[j].from && outcome.fills[j].size
            == queue[j].size && outcome.fills[j].resting_done by {
            if j > 0 {
                assert(outcome.fills[j] == behind.fills[j - 1]);
                assert(queue[j] == rest[j - 1]);
            }
        }
        if run < queue.len() && left_over(queue, amount) > 0 {
            assert(outcome.fills[run] == behind.fills[inner]);
        }
    }
}

/// An order of the trader that the aggressor does not execute in full keeps
/// its place in the queue: ahead of it stay the entries that stood ahead of
/// it and were not executed in full or not debited, in their order; behind it
/// everything is as it was; and it has lost the lots that the aggressor had
/// left for it, which are none unless it stands directly behind the run.
pub proof fn law_resting_order_keeps_its_place(
    queue: Seq<OrderBookEntry>,
    price: Price,
    amount: u64,
    take_history: bool,
    at: int,
)
    requires
        0 <= at < queue.len(),
        used_up(queue, amount) <= at,
        is_debited(queue[at], take_history),
    ensures
        ({
            let outcome = consume_queue(queue, price, amount, take_history);
            let run = used_up(queue, amount);
            let ahead = passed_over(queue.take(run), take_history).len() + (at - run);
            let lost = if at == run {
                left_over(queue, amount)
            } else {
                0
            };
            &&& 0 <= ahead < outcome.queue.len()
            &&& 0 <= lost < queue[at].size.0 || lost == 0
            &&& outcome.queue[ahead] == reduced_by(queue[at], lost)
            &&& outcome.queue.skip(ahead + 1) == queue.skip(at + 1)
            &&& outcome.queue.len() - ahead == queue.len() - at
        }),
{
    let outcome = consume_queue(queue, price, amount, take_history);
    let run = used_up(queue, amount);
    let stayed = passed_over(queue.take(run), take_history);
    let behind = left_behind(queue, amount, take_history);
    law_queue_keeps_places(queue, price, amount, take_history);
    lemma_passed_over(queue.take(run), take_history);
    let ahead = stayed.len() + (at - run);
    assert(behind.len() == queue.len() - run);
    assert(outcome.queue[ahead] == behind[at - run]);
    let kept = outcome.queue.skip(ahead + 1);
    assert forall|j: int| 0 <= j < queue.len() - at - 1 implies #[trigger] kept[j] == queue.skip(
        at + 1,
    )[j] by {
        assert(outcome.queue[ahead + 1 + j] == behind[at - run + 1 + j]);
    }
    assert(kept =~= queue.skip(at + 1));
}

/// An order that the aggressor executes in full is reported with all its
/// lots and as used up, and among the entries that stay ahead of what is
/// left behind the run there is none that the aggressor debits.
pub proof fn law_used_up_order_leaves(
    queue: Seq<OrderBookEntry>,
    price: Price,
    amount: u64,
    take_history: bool,
    at: int,
)
    requires
        0 <= at < used_up(queue, amount),
    ensures
        ({
            let outcome = consume_queue(queue, price, amount, take_history);
            let stayed = passed_over(queue.take(used_up(queue, amount)), take_history);
            &&& at < outcome.fills.len()
            &&& outcome.fills[at].order_id == queue[at].order_id
            &&& outcome.fills[at].from == queue[at].from
            &&& outcome.fills[at].size == queue[at].size
            &&& outcome.fills[at].resting_done
            &&& stayed.len() <= outcome.queue.len()
            &&& forall|j: int|
                0 <= j < stayed.len() ==> !is_debited(#[trigger] outcome.queue[j], take_history)
        }),
{
    let outcome = consume_queue(queue, price, amount, take_history);
    let run = used_up(queue, amount);
    let stayed = passed_over(queue.take(run), take_history);
    law_queue_keeps_places(queue, price, amount, take_history);
    lemma_passed_over(queue.take(run), take_history);
    assert forall|j: int| 0 <= j < stayed.len() implies !is_debited(
        #[trigger] outcome.queue[j],
        take_history,
    ) by {
        assert(outcome.queue[j] == stayed[j]);
    }
}

/// What an aggressor of `amount` lots has left when it comes to the level at
/// `index`: what the levels ahead of that one could not serve.
pub open spec fn left_for_level(levels: Seq<LevelView>, amount: u64, index: int) -> u64 {
    if amount >= side_volume(levels.take(index)) {
        (amount - side_volume(levels.take(index))) as u64
    } else {
        0
    }
}

/// A side after an aggressor is what the aggressor leaves of the levels
/// ahead of any place, then what it leaves of the levels from that place on,
/// where it arrives with what the levels ahead could not serve.
pub proof fn law_side_keeps_places(
    levels: Seq<LevelView>,
    amount: u64,
    take_history: bool,
    index: int,
)
    requires
        0 <= index <= levels.len(),
    ensures
        consume_side(levels, amount, take_history).levels == consume_side(
            levels.take(index),
            amount,
            take_history,
        ).levels + consume_side(
            levels.skip(index),
            left_for_level(levels, amount, index),
            take_history,
        ).levels,
    decreases levels.len(),
{
    let whole = consume_side(levels, amount, take_history).levels;
    let ahead = consume_side(levels.take(index), amount, take_history).levels;
    let left = left_for_level(levels, amount, index);
    let behind = consume_side(levels.skip(index), left, take_history).levels;
    if index == 0 {
        assert(levels.take(0) =~= Seq::<LevelView>::empty());
        assert(levels.skip(0) =~= levels);
        assert(whole =~= ahead + behind);
    } else if amount == 0 {
        assert(whole =~= levels.take(index) + levels.skip(index));
    } else {
        let tail = levels.drop_first();
        let first = consume_queue(levels[0].queue, levels[0].price, amount, take_history);
        lemma_consume_queue_volume(levels[0].queue, levels[0].price, amount, take_history);
        law_side_keeps_places(tail, first.remaining, take_history, index - 1);
        assert(levels.take(index).drop_first() =~= tail.take(index - 1));
        assert(levels.take(index)[0] == levels[0]);
        assert(levels.skip(index) =~= tail.skip(index - 1));
        lemma_sum_first(levels.take(index), level_lots());
        assert(left == left_for_level(tail, first.remaining, index - 1));
        assert(whole =~= ahead + behind);
    }
}

/// An order that an aggressor debits and does not execute in full keeps its
/// place in the book. Its level stands behind what the aggressor leaves of
/// the levels ahead of it, and the levels behind it are as they were. Within
/// the level, ahead of the order stay the entries that stood ahead of it and
/// were not taken out, in their order; behind it everything is as it was;
/// and the order has lost the lots that the aggressor had left for it.
pub proof fn law_aggression_keeps_places(
    state: EngineView,
    order: MarketOrder,
    kind: AggressiveOrderType,
    level: int,
    at: int,
)
    requires
        0 <= level < state.side(order.direction.spec_opposite()).len(),
        0 <= at < state.side(order.direction.spec_opposite())[level].queue.len(),
        is_debited(
            state.side(order.direction.spec_opposite())[level].queue[at],
            takes_history(kind, state.trade_updates_book),
        ),
        used_up(
            state.side(order.direction.spec_opposite())[level].queue,
            left_for_level(state.side(order.direction.spec_opposite()), order.size.0, level),
        ) <= at,
    ensures
        ({
            let side = state.side(order.direction.spec_opposite());
            let take_history = takes_history(kind, state.trade_updates_book);
            let left = left_for_level(side, order.size.0, level);
            let queue = side[level].queue;
            let run = used_up(queue, left);
            let stays = consume_queue(queue, side[level].price, left, take_history).queue;
            let ahead = passed_over(queue.take(run), take_history).len() + (at - run);
            let lost = if at == run {
                left_over(queue, left)
            } else {
                0
            };
            &&& aggress(state, order, kind).side(order.direction.spec_opposite()) == consume_side(
                side.take(level),
                order.size.0,
                take_history,
            ).levels + seq![LevelView { price: side[level].price, queue: stays }] + side.skip(
                level + 1,
            )
            &&& 0 <= ahead < stays.len()
            &&& stays[ahead] == reduced_by(queue[at], lost)
            &&& stays.skip(ahead + 1) == queue.skip(at + 1)
        }),
{
    let side = state.side(order.direction.spec_opposite());
    let take_history = takes_history(kind, state.trade_updates_book);
    let left = left_for_level(side, order.size.0, level);
    let queue = side[level].queue;
    let price = side[level].price;
    let from_here = side.skip(level);
    lemma_aggress_frame(state, order, kind);
    law_side_keeps_places(side, order.size.0, take_history, level);
    law_resting_order_keeps_its_place(queue, price, left, take_history, at);
    law_queue_keeps_places(queue, price, left, take_history);
    lemma_consume_queue_volume(queue, price, left, take_history);
    lemma_sum_split(queue, used_up(queue, left), entry_lots());
    assert(from_here[0] == side[level]);
    assert(from_here.drop_first() =~= side.skip(level + 1));
    let first = consume_queue(queue, price, left, take_history);
    assert(first.remaining == 0);
    assert(consume_side(from_here.drop_first(), 0, take_history).levels == from_here.drop_first());
    if left == 0 {
        assert(from_here =~= seq![side[level]] + side.skip(level + 1));
    }
}

} // verus!
