//! What holds of a side of the book whatever is done to it: how many entries
//! an order has on it, how much an aggressor takes from it, and that it stays
//! sorted.

use vstd::prelude::*;
use crate::exchange::book::{
    consume_queue, consume_side, crossed_levels, crosses, crossing_volume, entry_lots, entry_of,
    is_better, is_debited, level_at, level_lots, place_on_side, queue_volume, remove_from_side,
    resize_on_side, rest_position, side_holds, side_volume, Fill,
};
use crate::exchange::sums::{
    lemma_first_index, lemma_first_index_found, lemma_sum_bounds_item, lemma_sum_concat,
    lemma_sum_first, lemma_sum_insert, lemma_sum_one, lemma_sum_remove, lemma_sum_update,
    lemma_sum_zero, sum_over,
};
use crate::exchange::types::{LevelView, OrderBookEntry};
use crate::history::types::OrderOrigin;
use crate::types::{Direction, OrderID, Price, Size};

verus! {

/// One for an entry of the given order and owner, zero for any other.
pub open spec fn entry_counts(order_id: OrderID, from: OrderOrigin) -> spec_fn(OrderBookEntry) -> nat {
    |entry: OrderBookEntry|
        if entry.order_id == order_id && entry.from == from {
            1nat
        } else {
            0nat
        }
}

/// The number of entries that the given order of the given owner has in a queue.
pub open spec fn queue_count(queue: Seq<OrderBookEntry>, order_id: OrderID, from: OrderOrigin) -> nat {
    sum_over(queue, entry_counts(order_id, from))
}

/// Whether a price is the one asked for; every price is where none is asked for.
pub open spec fn price_matches(at: Option<Price>, price: Price) -> bool {
    match at {
        Some(wanted) => wanted == price,
        None => true,
    }
}

/// The number of entries of the given order in a level, counted only where the level's price is asked for.
pub open spec fn level_counts(at: Option<Price>, order_id: OrderID, from: OrderOrigin) -> spec_fn(
    LevelView,
) -> nat {
    |level: LevelView|
        if price_matches(at, level.price) {
            queue_count(level.queue, order_id, from)
        } else {
            0nat
        }
}

/// The number of entries that the given order of the given owner has on a
/// side: at the price `at`, or at any price where `at` is `None`.
pub open spec fn side_count(
    levels: Seq<LevelView>,
    at: Option<Price>,
    order_id: OrderID,
    from: OrderOrigin,
) -> nat {
    sum_over(levels, level_counts(at, order_id, from))
}

/// One for a fill that took the given order out of the book at a price asked for.
pub open spec fn fill_counts(
    at: Option<Price>,
    order_id: OrderID,
    from: OrderOrigin,
    take_history: bool,
) -> spec_fn(Fill) -> nat {
    |fill: Fill|
        if fill.order_id == order_id && fill.from == from && fill.resting_done && (fill.from
            == OrderOrigin::Trader || take_history) && price_matches(at, fill.price) {
            1nat
        } else {
            0nat
        }
}

/// The number of fills that took an entry of the given order out of the book.
pub open spec fn fills_taken(
    fills: Seq<Fill>,
    at: Option<Price>,
    order_id: OrderID,
    from: OrderOrigin,
    take_history: bool,
) -> nat {
    sum_over(fills, fill_counts(at, order_id, from, take_history))
}

/// The lots of a fill, as a weight to sum over.
pub open spec fn fill_lots() -> spec_fn(Fill) -> nat {
    |fill: Fill| fill.size.0 as nat
}

/// The lots executed by a run of fills.
pub open spec fn fills_volume(fills: Seq<Fill>) -> nat {
    sum_over(fills, fill_lots())
}

/// Every fill of a walk through one queue has the queue's price.
pub proof fn lemma_consume_queue_prices(
    queue: Seq<OrderBookEntry>,
    price: Price,
    amount: u64,
    take_history: bool,
)
    ensures
        forall|k: int|
            0 <= k < consume_queue(queue, price, amount, take_history).fills.len() ==> (
            #[trigger] consume_queue(queue, price, amount, take_history).fills[k]).price == price,
    decreases queue.len(),
{
    if queue.len() == 0 || amount == 0 {
    } else if amount < queue[0].size.0 {
    } else {
        lemma_consume_queue_prices(
            queue.drop_first(),
            price,
            (amount - queue[0].size.0) as u64,
            take_history,
        );
    }
}

/// An entry that an aggressor takes out of a queue is an entry less of its
/// order, and no entry comes or goes otherwise.
pub proof fn lemma_consume_queue_counts(
    queue: Seq<OrderBookEntry>,
    price: Price,
    amount: u64,
    take_history: bool,
    at: Option<Price>,
    order_id: OrderID,
    from: OrderOrigin,
)
    ensures
        ({
            let outcome = consume_queue(queue, price, amount, take_history);
            &&& queue_count(outcome.queue, order_id, from) + fills_taken(
                outcome.fills,
                None,
                order_id,
                from,
                take_history,
            ) == queue_count(queue, order_id, from)
            &&& fills_taken(outcome.fills, at, order_id, from, take_history) == if price_matches(
                at,
                price,
            ) {
                fills_taken(outcome.fills, None, order_id, from, take_history)
            } else {
                0
            }
        }),
    decreases queue.len(),
{
    let outcome = consume_queue(queue, price, amount, take_history);
    let counts = entry_counts(order_id, from);
    let taken = fill_counts(None, order_id, from, take_history);
    let taken_at = fill_counts(at, order_id, from, take_history);
    if queue.len() == 0 || amount == 0 {
    } else {
        let entry = queue[0];
        lemma_sum_first(queue, counts);
        if amount < entry.size.0 {
            let fill = outcome.fills[0];
            assert(outcome.fills =~= seq![fill]);
            lemma_sum_one(fill, taken);
            lemma_sum_one(fill, taken_at);
            if is_debited(entry, take_history) {
                lemma_sum_update(queue, 0, outcome.queue[0], counts);
                assert(outcome.queue =~= queue.update(0, outcome.queue[0]));
            }
        } else {
            let rest = consume_queue(
                queue.drop_first(),
                price,
                (amount - entry.size.0) as u64,
                take_history,
            );
            lemma_consume_queue_counts(
                queue.drop_first(),
                price,
                (amount - entry.size.0) as u64,
                take_history,
                at,
                order_id,
                from,
            );
            let fill = outcome.fills[0];
            assert(outcome.fills =~= seq![fill] + rest.fills);
            lemma_sum_concat(seq![fill], rest.fills, taken);
            lemma_sum_concat(seq![fill], rest.fills, taken_at);
            lemma_sum_one(fill, taken);
            lemma_sum_one(fill, taken_at);
            if !is_debited(entry, take_history) {
                lemma_sum_concat(seq![entry], rest.queue, counts);
                lemma_sum_one(entry, counts);
            }
        }
    }
}

/// An aggressor leaves a queue with what the queue could not serve, and the
/// fills add up to what it could.
pub proof fn lemma_consume_queue_volume(
    queue: Seq<OrderBookEntry>,
    price: Price,
    amount: u64,
    take_history: bool,
)
    ensures
        ({
            let outcome = consume_queue(queue, price, amount, take_history);
            &&& outcome.remaining == if amount >= queue_volume(queue) {
                amount - queue_volume(queue)
            } else {
                0
            }
            &&& fills_volume(outcome.fills) + outcome.remaining == amount
        }),
    decreases queue.len(),
{
    let outcome = consume_queue(queue, price, amount, take_history);
    if queue.len() == 0 || amount == 0 {
    } else {
        let entry = queue[0];
        lemma_sum_first(queue, entry_lots());
        let fill = outcome.fills[0];
        lemma_sum_one(fill, fill_lots());
        if amount < entry.size.0 {
            assert(outcome.fills =~= seq![fill]);
        } else {
            let rest = consume_queue(
                queue.drop_first(),
                price,
                (amount - entry.size.0) as u64,
                take_history,
            );
            lemma_consume_queue_volume(
                queue.drop_first(),
                price,
                (amount - entry.size.0) as u64,
                take_history,
            );
            assert(outcome.fills =~= seq![fill] + rest.fills);
            lemma_sum_concat(seq![fill], rest.fills, fill_lots());
        }
    }
}

/// An entry that an aggressor takes off a side is an entry less of its order
/// at its price, and no entry comes or goes otherwise.
pub proof fn lemma_consume_side_counts(
    levels: Seq<LevelView>,
    amount: u64,
    take_history: bool,
    at: Option<Price>,
    order_id: OrderID,
    from: OrderOrigin,
)
    ensures
        ({
            let outcome = consume_side(levels, amount, take_history);
            side_count(outcome.levels, at, order_id, from) + fills_taken(
                outcome.fills,
                at,
                order_id,
                from,
                take_history,
            ) == side_count(levels, at, order_id, from)
        }),
    decreases levels.len(),
{
    let outcome = consume_side(levels, amount, take_history);
    let counts = level_counts(at, order_id, from);
    let taken_at = fill_counts(at, order_id, from, take_history);
    if levels.len() == 0 || amount == 0 {
    } else {
        let first = consume_queue(levels[0].queue, levels[0].price, amount, take_history);
        let rest = consume_side(levels.drop_first(), first.remaining, take_history);
        lemma_consume_queue_counts(
            levels[0].queue,
            levels[0].price,
            amount,
            take_history,
            at,
            order_id,
            from,
        );
        lemma_consume_side_counts(
            levels.drop_first(),
            first.remaining,
            take_history,
            at,
            order_id,
            from,
        );
        lemma_sum_first(levels, counts);
        lemma_sum_concat(first.fills, rest.fills, taken_at);
        if first.queue.len() != 0 {
            let kept = LevelView { price: levels[0].price, queue: first.queue };
            lemma_sum_concat(seq![kept], rest.levels, counts);
            lemma_sum_one(kept, counts);
        } else {
            assert(queue_count(first.queue, order_id, from) == 0);
        }
    }
}

/// An aggressor leaves a side with what the side could not serve, and the
/// fills add up to what it could.
pub proof fn lemma_consume_side_volume(levels: Seq<LevelView>, amount: u64, take_history: bool)
    ensures
        ({
            let outcome = consume_side(levels, amount, take_history);
            &&& outcome.remaining == if amount >= side_volume(levels) {
                amount - side_volume(levels)
            } else {
                0
            }
            &&& fills_volume(outcome.fills) + outcome.remaining == amount
        }),
    decreases levels.len(),
{
    let outcome = consume_side(levels, amount, take_history);
    if levels.len() == 0 || amount == 0 {
    } else {
        let first = consume_queue(levels[0].queue, levels[0].price, amount, take_history);
        let rest = consume_side(levels.drop_first(), first.remaining, take_history);
        lemma_consume_queue_volume(levels[0].queue, levels[0].price, amount, take_history);
        lemma_consume_side_volume(levels.drop_first(), first.remaining, take_history);
        lemma_sum_first(levels, level_lots());
        lemma_sum_concat(first.fills, rest.fills, fill_lots());
    }
}

/// Whether the prices of a side get strictly worse from its head on: lower
/// and lower among bids, higher and higher among asks.
pub open spec fn side_sorted(levels: Seq<LevelView>, resting: Direction) -> bool {
    forall|i: int, j: int|
        0 <= i < j < levels.len() ==> is_better(
            (#[trigger] levels[i]).price,
            (#[trigger] levels[j]).price,
            resting,
        )
}

/// Whether every entry of a queue has lots left.
pub open spec fn sizes_positive(queue: Seq<OrderBookEntry>) -> bool {
    forall|j: int| 0 <= j < queue.len() ==> (#[trigger] queue[j]).size.0 > 0
}

/// Whether a side is in order: prices strictly sorted, no level empty, no entry without lots.
pub open spec fn side_wf(levels: Seq<LevelView>, resting: Direction) -> bool {
    &&& side_sorted(levels, resting)
    &&& forall|i: int|
        0 <= i < levels.len() ==> (#[trigger] levels[i]).queue.len() > 0 && sizes_positive(
            levels[i].queue,
        )
}

/// Whether every level of a side has a price of the given kind.
pub open spec fn prices_all(levels: Seq<LevelView>, kind: spec_fn(Price) -> bool) -> bool {
    forall|i: int| 0 <= i < levels.len() ==> kind((#[trigger] levels[i]).price)
}

/// An aggressor leaves no entry without lots behind.
pub proof fn lemma_consume_queue_positive(
    queue: Seq<OrderBookEntry>,
    price: Price,
    amount: u64,
    take_history: bool,
)
    requires
        sizes_positive(queue),
    ensures
        sizes_positive(consume_queue(queue, price, amount, take_history).queue),
    decreases queue.len(),
{
    let outcome = consume_queue(queue, price, amount, take_history);
    if queue.len() == 0 || amount == 0 {
    } else if amount < queue[0].size.0 {
        assert forall|j: int| 0 <= j < outcome.queue.len() implies (
        #[trigger] outcome.queue[j]).size.0 > 0 by {
            if j > 0 {
                assert(outcome.queue[j] == queue[j]);
            }
        }
    } else {
        let rest = consume_queue(
            queue.drop_first(),
            price,
            (amount - queue[0].size.0) as u64,
            take_history,
        );
        assert forall|j: int| 0 <= j < queue.drop_first().len() implies (
        #[trigger] queue.drop_first()[j]).size.0 > 0 by {
            assert(queue.drop_first()[j] == queue[j + 1]);
        }
        lemma_consume_queue_positive(
            queue.drop_first(),
            price,
            (amount - queue[0].size.0) as u64,
            take_history,
        );
        assert forall|j: int| 0 <= j < outcome.queue.len() implies (
        #[trigger] outcome.queue[j]).size.0 > 0 by {
            if is_debited(queue[0], take_history) {
            } else if j > 0 {
                assert(outcome.queue[j] == rest.queue[j - 1]);
            }
        }
    }
}

/// An aggressor that debits every entry and has at least the lots of a queue empties it.
pub proof fn lemma_consume_queue_empties(
    queue: Seq<OrderBookEntry>,
    price: Price,
    amount: u64,
    take_history: bool,
)
    requires
        forall|j: int| 0 <= j < queue.len() ==> is_debited(#[trigger] queue[j], take_history),
        amount >= queue_volume(queue),
        amount > 0,
        sizes_positive(queue),
    ensures
        consume_queue(queue, price, amount, take_history).queue.len() == 0,
    decreases queue.len(),
{
    if queue.len() == 0 {
    } else {
        let entry = queue[0];
        lemma_sum_first(queue, entry_lots());
        let rest = queue.drop_first();
        assert(is_debited(entry, take_history));
        assert(entry_lots()(entry) == entry.size.0);
        assert(amount >= entry.size.0);
        assert forall|j: int| 0 <= j < rest.len() implies is_debited(
            #[trigger] rest[j],
            take_history,
        ) && rest[j].size.0 > 0 by {
            assert(rest[j] == queue[j + 1]);
        }
        let left = (amount - entry.size.0) as u64;
        if rest.len() > 0 {
            lemma_sum_bounds_item(rest, 0, entry_lots());
            assert(entry_lots()(rest[0]) == rest[0].size.0);
            assert(rest[0].size.0 > 0);
            lemma_consume_queue_empties(rest, price, left, take_history);
        }
        assert(consume_queue(rest, price, left, take_history).queue.len() == 0);
        assert(consume_queue(queue, price, amount, take_history).queue == consume_queue(
            rest,
            price,
            left,
            take_history,
        ).queue);
    }
}

/// The levels that an aggressor leaves on a side have prices that the side had.
pub proof fn lemma_consume_side_prices(
    levels: Seq<LevelView>,
    amount: u64,
    take_history: bool,
    kind: spec_fn(Price) -> bool,
)
    requires
        prices_all(levels, kind),
    ensures
        prices_all(consume_side(levels, amount, take_history).levels, kind),
    decreases levels.len(),
{
    let outcome = consume_side(levels, amount, take_history);
    if levels.len() == 0 || amount == 0 {
    } else {
        let first = consume_queue(levels[0].queue, levels[0].price, amount, take_history);
        let rest = consume_side(levels.drop_first(), first.remaining, take_history);
        assert forall|i: int| 0 <= i < levels.drop_first().len() implies kind(
            (#[trigger] levels.drop_first()[i]).price,
        ) by {
            assert(levels.drop_first()[i] == levels[i + 1]);
        }
        lemma_consume_side_prices(levels.drop_first(), first.remaining, take_history, kind);
        assert forall|i: int| 0 <= i < outcome.levels.len() implies kind(
            (#[trigger] outcome.levels[i]).price,
        ) by {
            if first.queue.len() == 0 {
            } else if i > 0 {
                assert(outcome.levels[i] == rest.levels[i - 1]);
            } else {
                assert(kind(levels[0].price));
            }
        }
    }
}

/// A side that is in order stays in order when an aggressor goes through it.
pub proof fn lemma_consume_side_wf(
    levels: Seq<LevelView>,
    amount: u64,
    take_history: bool,
    resting: Direction,
)
    requires
        side_wf(levels, resting),
    ensures
        side_wf(consume_side(levels, amount, take_history).levels, resting),
    decreases levels.len(),
{
    let outcome = consume_side(levels, amount, take_history);
    if levels.len() == 0 || amount == 0 {
    } else {
        let first = consume_queue(levels[0].queue, levels[0].price, amount, take_history);
        let rest = consume_side(levels.drop_first(), first.remaining, take_history);
        let tail = levels.drop_first();
        let worse = |price: Price| is_better(levels[0].price, price, resting);
        assert forall|i: int| 0 <= i < tail.len() implies (#[trigger] tail[i]).queue.len() > 0
            && sizes_positive(tail[i].queue) && worse(tail[i].price) by {
            assert(tail[i] == levels[i + 1]);
        }
        assert forall|i: int, j: int| 0 <= i < j < tail.len() implies is_better(
            (#[trigger] tail[i]).price,
            (#[trigger] tail[j]).price,
            resting,
        ) by {
            assert(tail[i] == levels[i + 1]);
            assert(tail[j] == levels[j + 1]);
        }
        lemma_consume_side_wf(tail, first.remaining, take_history, resting);
        lemma_consume_side_prices(tail, first.remaining, take_history, worse);
        lemma_consume_queue_positive(levels[0].queue, levels[0].price, amount, take_history);
        if first.queue.len() != 0 {
            let kept = LevelView { price: levels[0].price, queue: first.queue };
            assert forall|i: int| 0 <= i < outcome.levels.len() implies (
            #[trigger] outcome.levels[i]).queue.len() > 0 && sizes_positive(
                outcome.levels[i].queue,
            ) by {
                if i > 0 {
                    assert(outcome.levels[i] == rest.levels[i - 1]);
                }
            }
            assert forall|i: int, j: int| 0 <= i < j < outcome.levels.len() implies is_better(
                (#[trigger] outcome.levels[i]).price,
                (#[trigger] outcome.levels[j]).price,
                resting,
            ) by {
                assert(outcome.levels[j] == rest.levels[j - 1]);
                if i > 0 {
                    assert(outcome.levels[i] == rest.levels[i - 1]);
                } else {
                    assert(worse(rest.levels[j - 1].price));
                }
            }
        }
    }
}

/// A level in order holds lots.
pub proof fn lemma_level_has_volume(queue: Seq<OrderBookEntry>)
    requires
        queue.len() > 0,
        sizes_positive(queue),
    ensures
        queue_volume(queue) > 0,
{
    lemma_sum_bounds_item(queue, 0, entry_lots());
    assert(queue[0].size.0 > 0);
}

/// Whether an aggressor debits every order on the levels that a limit of the
/// given direction and price crosses: always when it debits orders of the
/// tape, and otherwise when those levels hold orders of the trader only.
pub open spec fn crossed_are_debited(
    levels: Seq<LevelView>,
    limit: Price,
    aggressor: Direction,
    take_history: bool,
) -> bool {
    forall|i: int, j: int|
        0 <= i < crossed_levels(levels, limit, aggressor) && 0 <= i < levels.len() && 0 <= j
            < levels[i].queue.len() ==> is_debited(#[trigger] levels[i].queue[j], take_history)
}

/// An aggressor that debits every entry it meets and has exactly the lots of
/// the levels that a limit crosses takes exactly those levels off the side.
pub proof fn lemma_consume_side_takes_crossed(
    levels: Seq<LevelView>,
    limit: Price,
    aggressor: Direction,
    resting: Direction,
    amount: u64,
    take_history: bool,
)
    requires
        side_wf(levels, resting),
        amount == crossing_volume(levels, limit, aggressor),
        crossed_are_debited(levels, limit, aggressor, take_history),
    ensures
        consume_side(levels, amount, take_history).levels == levels.skip(
            crossed_levels(levels, limit, aggressor),
        ),
        0 <= crossed_levels(levels, limit, aggressor) <= levels.len(),
        amount == 0 ==> crossed_levels(levels, limit, aggressor) == 0,
    decreases levels.len(),
{
    let beyond = |level: LevelView| !crosses(level.price, limit, aggressor);
    let crossed = crossed_levels(levels, limit, aggressor);
    lemma_first_index_found(levels, beyond);
    assert(levels.skip(0) =~= levels);
    if crossed == 0 {
        assert(levels.take(0) =~= Seq::<LevelView>::empty());
    } else {
        let tail = levels.drop_first();
        lemma_first_index_found(tail, beyond);
        let taken = levels.take(crossed);
        lemma_sum_first(taken, level_lots());
        assert(taken.drop_first() =~= tail.take(crossed - 1));
        assert(taken[0] == levels[0]);
        lemma_level_has_volume(levels[0].queue);
        let first = consume_queue(levels[0].queue, levels[0].price, amount, take_history);
        assert forall|j: int| 0 <= j < levels[0].queue.len() implies is_debited(
            #[trigger] levels[0].queue[j],
            take_history,
        ) by {}
        lemma_consume_queue_empties(levels[0].queue, levels[0].price, amount, take_history);
        lemma_consume_queue_volume(levels[0].queue, levels[0].price, amount, take_history);
        assert(crossed_levels(tail, limit, aggressor) == crossed - 1);
        assert forall|i: int, j: int|
            0 <= i < crossed - 1 && 0 <= i < tail.len() && 0 <= j
                < tail[i].queue.len() implies is_debited(
            #[trigger] tail[i].queue[j],
            take_history,
        ) by {
            assert(tail[i] == levels[i + 1]);
            assert(is_debited(levels[i + 1].queue[j], take_history));
        }
        assert forall|i: int| 0 <= i < tail.len() implies (#[trigger] tail[i]).queue.len() > 0
            && sizes_positive(tail[i].queue) by {
            assert(tail[i] == levels[i + 1]);
        }
        assert forall|i: int, j: int| 0 <= i < j < tail.len() implies is_better(
            (#[trigger] tail[i]).price,
            (#[trigger] tail[j]).price,
            resting,
        ) by {
            assert(tail[i] == levels[i + 1]);
            assert(tail[j] == levels[j + 1]);
        }
        lemma_consume_side_takes_crossed(
            tail,
            limit,
            aggressor,
            resting,
            first.remaining,
            take_history,
        );
        assert(tail.skip(crossed - 1) =~= levels.skip(crossed));
    }
}

/// A side that is in order stays in order when an order with lots comes to rest on it.
pub proof fn lemma_place_wf(
    levels: Seq<LevelView>,
    resting: Direction,
    price: Price,
    entry: OrderBookEntry,
)
    requires
        side_wf(levels, resting),
        entry.size.0 > 0,
    ensures
        side_wf(place_on_side(levels, resting, price, entry), resting),
{
    let behind = |level: LevelView| !is_better(level.price, price, resting);
    let at = rest_position(levels, resting, price);
    let placed = place_on_side(levels, resting, price, entry);
    lemma_first_index_found(levels, behind);
    if at < levels.len() && levels[at].price == price {
        assert forall|i: int| 0 <= i < placed.len() implies (#[trigger] placed[i]).queue.len() > 0
            && sizes_positive(placed[i].queue) by {
            if i != at {
                assert(placed[i] == levels[i]);
            }
        }
        assert forall|i: int, j: int| 0 <= i < j < placed.len() implies is_better(
            (#[trigger] placed[i]).price,
            (#[trigger] placed[j]).price,
            resting,
        ) by {
            assert(placed[i].price == levels[i].price);
            assert(placed[j].price == levels[j].price);
        }
    } else {
        assert forall|i: int| 0 <= i < placed.len() implies (#[trigger] placed[i]).queue.len() > 0
            && sizes_positive(placed[i].queue) by {
            if i < at {
                assert(placed[i] == levels[i]);
            } else if i > at {
                assert(placed[i] == levels[i - 1]);
            }
        }
        assert forall|i: int, j: int| 0 <= i < j < placed.len() implies is_better(
            (#[trigger] placed[i]).price,
            (#[trigger] placed[j]).price,
            resting,
        ) by {
            let a = if i < at {
                levels[i].price
            } else if i == at {
                price
            } else {
                levels[i - 1].price
            };
            let b = if j < at {
                levels[j].price
            } else if j == at {
                price
            } else {
                levels[j - 1].price
            };
            assert(placed[i].price == a);
            assert(placed[j].price == b);
            if i < at {
                assert(!behind(levels[i]));
            }
            if at < levels.len() {
                assert(behind(levels[at]));
            }
        }
    }
}

/// An order that comes to rest is one entry more of it at its price, and no
/// entry comes or goes otherwise.
pub proof fn lemma_place_counts(
    levels: Seq<LevelView>,
    resting: Direction,
    price: Price,
    entry: OrderBookEntry,
    at: Option<Price>,
    order_id: OrderID,
    from: OrderOrigin,
)
    ensures
        side_count(place_on_side(levels, resting, price, entry), at, order_id, from) == side_count(
            levels,
            at,
            order_id,
            from,
        ) + if entry.order_id == order_id && entry.from == from && price_matches(at, price) {
            1nat
        } else {
            0nat
        },
{
    let behind = |level: LevelView| !is_better(level.price, price, resting);
    let position = rest_position(levels, resting, price);
    lemma_first_index_found(levels, behind);
    let counts = level_counts(at, order_id, from);
    if position < levels.len() && levels[position].price == price {
        let grown = LevelView { price, queue: levels[position].queue.push(entry) };
        lemma_sum_update(levels, position, grown, counts);
        assert(grown.queue.drop_last() =~= levels[position].queue);
    } else {
        let fresh = LevelView { price, queue: seq![entry] };
        lemma_sum_insert(levels, position, fresh, counts);
        lemma_sum_one(entry, entry_counts(order_id, from));
    }
}

/// A side that is in order stays in order when an order leaves it.
pub proof fn lemma_remove_wf(
    levels: Seq<LevelView>,
    resting: Direction,
    price: Price,
    order_id: OrderID,
    from: OrderOrigin,
)
    requires
        side_wf(levels, resting),
    ensures
        side_wf(remove_from_side(levels, price, order_id, from), resting),
{
    let removed = remove_from_side(levels, price, order_id, from);
    if side_holds(levels, price, order_id, from) {
        let i = level_at(levels, price);
        let j = entry_of(levels[i].queue, order_id, from);
        lemma_first_index_found(levels, |level: LevelView| level.price == price);
        lemma_first_index_found(
            levels[i].queue,
            |entry: OrderBookEntry| entry.order_id == order_id && entry.from == from,
        );
        if levels[i].queue.len() == 1 {
            assert forall|k: int| 0 <= k < removed.len() implies (#[trigger] removed[k]).queue.len()
                > 0 && sizes_positive(removed[k].queue) by {
                if k < i {
                    assert(removed[k] == levels[k]);
                } else {
                    assert(removed[k] == levels[k + 1]);
                }
            }
            assert forall|a: int, b: int| 0 <= a < b < removed.len() implies is_better(
                (#[trigger] removed[a]).price,
                (#[trigger] removed[b]).price,
                resting,
            ) by {
                let a0 = if a < i {
                    a
                } else {
                    a + 1
                };
                let b0 = if b < i {
                    b
                } else {
                    b + 1
                };
                assert(removed[a] == levels[a0]);
                assert(removed[b] == levels[b0]);
            }
        } else {
            let queue = levels[i].queue.remove(j);
            assert forall|k: int| 0 <= k < removed.len() implies (#[trigger] removed[k]).queue.len()
                > 0 && sizes_positive(removed[k].queue) by {
                if k != i {
                    assert(removed[k] == levels[k]);
                } else {
                    assert forall|m: int| 0 <= m < queue.len() implies (#[trigger] queue[m]).size.0
                        > 0 by {
                        if m < j {
                            assert(queue[m] == levels[i].queue[m]);
                        } else {
                            assert(queue[m] == levels[i].queue[m + 1]);
                        }
                    }
                }
            }
            assert forall|a: int, b: int| 0 <= a < b < removed.len() implies is_better(
                (#[trigger] removed[a]).price,
                (#[trigger] removed[b]).price,
                resting,
            ) by {
                assert(removed[a].price == levels[a].price);
                assert(removed[b].price == levels[b].price);
            }
        }
    }
}

/// An order that leaves a side is one entry less of it at its price, and no
/// entry comes or goes otherwise.
pub proof fn lemma_remove_counts(
    levels: Seq<LevelView>,
    price: Price,
    order_id: OrderID,
    from: OrderOrigin,
    at: Option<Price>,
    other_id: OrderID,
    other_from: OrderOrigin,
)
    requires
        side_holds(levels, price, order_id, from),
    ensures
        side_count(remove_from_side(levels, price, order_id, from), at, other_id, other_from)
            + if other_id == order_id && other_from == from && price_matches(at, price) {
            1nat
        } else {
            0nat
        } == side_count(levels, at, other_id, other_from),
{
    let i = level_at(levels, price);
    let j = entry_of(levels[i].queue, order_id, from);
    lemma_first_index_found(levels, |level: LevelView| level.price == price);
    lemma_first_index_found(
        levels[i].queue,
        |entry: OrderBookEntry| entry.order_id == order_id && entry.from == from,
    );
    let counts = level_counts(at, other_id, other_from);
    let entries = entry_counts(other_id, other_from);
    lemma_sum_remove(levels[i].queue, j, entries);
    if levels[i].queue.len() == 1 {
        lemma_sum_remove(levels, i, counts);
        assert(levels[i].queue.remove(j) =~= Seq::<OrderBookEntry>::empty());
    } else {
        let thinned = LevelView { price: levels[i].price, queue: levels[i].queue.remove(j) };
        lemma_sum_update(levels, i, thinned, counts);
    }
}

/// A side that is in order stays in order when an order on it gets a new size that is not zero.
pub proof fn lemma_resize_wf(
    levels: Seq<LevelView>,
    resting: Direction,
    price: Price,
    order_id: OrderID,
    from: OrderOrigin,
    size: Size,
)
    requires
        side_wf(levels, resting),
        size.0 > 0,
    ensures
        side_wf(resize_on_side(levels, price, order_id, from, size), resting),
{
    let resized = resize_on_side(levels, price, order_id, from, size);
    if side_holds(levels, price, order_id, from) {
        let i = level_at(levels, price);
        let j = entry_of(levels[i].queue, order_id, from);
        lemma_first_index_found(levels, |level: LevelView| level.price == price);
        lemma_first_index_found(
            levels[i].queue,
            |entry: OrderBookEntry| entry.order_id == order_id && entry.from == from,
        );
        assert forall|k: int| 0 <= k < resized.len() implies (#[trigger] resized[k]).queue.len() > 0
            && sizes_positive(resized[k].queue) by {
            if k != i {
                assert(resized[k] == levels[k]);
            } else {
                assert forall|m: int| 0 <= m < resized[k].queue.len() implies (
                #[trigger] resized[k].queue[m]).size.0 > 0 by {
                    if m != j {
                        assert(resized[k].queue[m] == levels[i].queue[m]);
                    }
                }
            }
        }
        assert forall|a: int, b: int| 0 <= a < b < resized.len() implies is_better(
            (#[trigger] resized[a]).price,
            (#[trigger] resized[b]).price,
            resting,
        ) by {
            assert(resized[a].price == levels[a].price);
            assert(resized[b].price == levels[b].price);
        }
    }
}

/// A new size for an order on a side changes no count of entries.
pub proof fn lemma_resize_counts(
    levels: Seq<LevelView>,
    price: Price,
    order_id: OrderID,
    from: OrderOrigin,
    size: Size,
    at: Option<Price>,
    other_id: OrderID,
    other_from: OrderOrigin,
)
    ensures
        side_count(resize_on_side(levels, price, order_id, from, size), at, other_id, other_from)
            == side_count(levels, at, other_id, other_from),
{
    if side_holds(levels, price, order_id, from) {
        let i = level_at(levels, price);
        let j = entry_of(levels[i].queue, order_id, from);
        lemma_first_index_found(levels, |level: LevelView| level.price == price);
        lemma_first_index_found(
            levels[i].queue,
            |entry: OrderBookEntry| entry.order_id == order_id && entry.from == from,
        );
        let resized = OrderBookEntry { order_id, size, from };
        let changed = LevelView {
            price: levels[i].price,
            queue: levels[i].queue.update(j, resized),
        };
        lemma_sum_update(levels[i].queue, j, resized, entry_counts(other_id, other_from));
        lemma_sum_update(levels, i, changed, level_counts(at, other_id, other_from));
    }
}

/// On a sorted side, an order that has an entry at a price is found there.
pub proof fn lemma_counted_is_held(
    levels: Seq<LevelView>,
    resting: Direction,
    price: Price,
    order_id: OrderID,
    from: OrderOrigin,
)
    requires
        side_sorted(levels, resting),
        side_count(levels, Some(price), order_id, from) > 0,
    ensures
        side_holds(levels, price, order_id, from),
{
    let counts = level_counts(Some(price), order_id, from);
    let priced = |level: LevelView| level.price == price;
    let owned = |entry: OrderBookEntry| entry.order_id == order_id && entry.from == from;
    if forall|i: int| 0 <= i < levels.len() ==> counts(#[trigger] levels[i]) == 0 {
        lemma_sum_zero(levels, counts);
    }
    let m = choose|m: int| 0 <= m < levels.len() && counts(#[trigger] levels[m]) != 0;
    lemma_first_index_found(levels, priced);
    let i = level_at(levels, price);
    assert(priced(levels[m]));
    if i < m {
        assert(is_better(levels[i].price, levels[m].price, resting));
    }
    assert(i == m);
    let queue = levels[i].queue;
    let entries = entry_counts(order_id, from);
    if forall|j: int| 0 <= j < queue.len() ==> entries(#[trigger] queue[j]) == 0 {
        lemma_sum_zero(queue, entries);
    }
    let n = choose|n: int| 0 <= n < queue.len() && entries(#[trigger] queue[n]) != 0;
    lemma_first_index_found(queue, owned);
    assert(owned(queue[n]));
}

/// An aggressor does not better the best price of the side it goes through.
pub proof fn lemma_consume_side_best(
    levels: Seq<LevelView>,
    amount: u64,
    take_history: bool,
    resting: Direction,
)
    requires
        side_sorted(levels, resting),
    ensures
        ({
            let left = consume_side(levels, amount, take_history).levels;
            left.len() > 0 ==> levels.len() > 0 && !is_better(
                left[0].price,
                levels[0].price,
                resting,
            )
        }),
{
    let left = consume_side(levels, amount, take_history).levels;
    if levels.len() > 0 {
        let no_better = |price: Price| !is_better(price, levels[0].price, resting);
        assert forall|i: int| 0 <= i < levels.len() implies no_better(
            (#[trigger] levels[i]).price,
        ) by {
            if i > 0 {
                assert(is_better(levels[0].price, levels[i].price, resting));
            }
        }
        lemma_consume_side_prices(levels, amount, take_history, no_better);
        if left.len() > 0 {
            assert(no_better(left[0].price));
        }
    }
}

/// An order that leaves a side does not better the side's best price.
pub proof fn lemma_remove_best(
    levels: Seq<LevelView>,
    resting: Direction,
    price: Price,
    order_id: OrderID,
    from: OrderOrigin,
)
    requires
        side_sorted(levels, resting),
    ensures
        ({
            let left = remove_from_side(levels, price, order_id, from);
            left.len() > 0 ==> levels.len() > 0 && !is_better(
                left[0].price,
                levels[0].price,
                resting,
            )
        }),
{
    let left = remove_from_side(levels, price, order_id, from);
    if side_holds(levels, price, order_id, from) && left.len() > 0 {
        let i = level_at(levels, price);
        lemma_first_index_found(levels, |level: LevelView| level.price == price);
        if levels[i].queue.len() == 1 {
            if i == 0 {
                assert(left[0] == levels[1]);
                assert(is_better(levels[0].price, levels[1].price, resting));
            } else {
                assert(left[0] == levels[0]);
            }
        } else {
            assert(left[0].price == levels[0].price);
        }
    }
}

/// The best price of a side on which an order came to rest is the order's
/// price or the best price that the side had.
pub proof fn lemma_place_best(
    levels: Seq<LevelView>,
    resting: Direction,
    price: Price,
    entry: OrderBookEntry,
)
    ensures
        ({
            let placed = place_on_side(levels, resting, price, entry);
            &&& placed.len() > 0
            &&& placed[0].price == price || (levels.len() > 0 && placed[0].price == levels[0].price)
        }),
{
    lemma_first_index_found(levels, |level: LevelView| !is_better(level.price, price, resting));
}

/// A new size for an order on a side changes no price and no length.
pub proof fn lemma_resize_best(
    levels: Seq<LevelView>,
    price: Price,
    order_id: OrderID,
    from: OrderOrigin,
    size: Size,
)
    ensures
        ({
            let resized = resize_on_side(levels, price, order_id, from, size);
            &&& resized.len() == levels.len()
            &&& resized.len() > 0 ==> resized[0].price == levels[0].price
        }),
{
    if side_holds(levels, price, order_id, from) {
        lemma_first_index_found(levels, |level: LevelView| level.price == price);
    }
}

/// An order that comes to rest on a side that is in order and holds no
/// entry of it at its price, and then leaves, leaves the side as it was.
pub proof fn law_place_then_remove(
    levels: Seq<LevelView>,
    resting: Direction,
    price: Price,
    entry: OrderBookEntry,
)
    requires
        side_wf(levels, resting),
        side_count(levels, Some(price), entry.order_id, entry.from) == 0,
    ensures
        remove_from_side(
            place_on_side(levels, resting, price, entry),
            price,
            entry.order_id,
            entry.from,
        ) == levels,
{
    let behind = |level: LevelView| !is_better(level.price, price, resting);
    let priced = |level: LevelView| level.price == price;
    let owned = |other: OrderBookEntry| other.order_id == entry.order_id && other.from == entry.from;
    let at = rest_position(levels, resting, price);
    let placed = place_on_side(levels, resting, price, entry);
    lemma_first_index_found(levels, behind);
    assert forall|k: int| 0 <= k < at implies !priced(#[trigger] placed[k]) by {
        assert(placed[k] == levels[k]);
        assert(!behind(levels[k]));
    }
    if at < levels.len() && levels[at].price == price {
        let queue = levels[at].queue;
        lemma_sum_bounds_item(levels, at, level_counts(Some(price), entry.order_id, entry.from));
        assert forall|j: int| 0 <= j < queue.len() implies !owned(#[trigger] queue.push(entry)[j]) by {
            lemma_sum_bounds_item(queue, j, entry_counts(entry.order_id, entry.from));
            assert(queue.push(entry)[j] == queue[j]);
        }
        lemma_first_index(placed, priced, at);
        lemma_first_index(queue.push(entry), owned, queue.len() as int);
        assert(queue.push(entry).remove(queue.len() as int) =~= queue);
        assert(placed.update(at, LevelView { price: placed[at].price, queue }) =~= levels);
    } else {
        lemma_first_index(placed, priced, at);
        lemma_first_index(seq![entry], owned, 0);
        assert(placed.remove(at) =~= levels);
    }
}

/// The crossing part of a limit is used up: an aggressor that has the
/// lots of the levels that a limit crosses goes through the side with
/// nothing left, whether it debits the orders of the tape or not.
pub proof fn law_crossing_part_is_used_up(
    levels: Seq<LevelView>,
    limit: Price,
    aggressor: Direction,
    take_history: bool,
)
    requires
        crossing_volume(levels, limit, aggressor) <= u64::MAX,
    ensures
        consume_side(
            levels,
            crossing_volume(levels, limit, aggressor) as u64,
            take_history,
        ).remaining == 0,
{
    let crossed = crossed_levels(levels, limit, aggressor);
    lemma_first_index_found(
        levels,
        |level: LevelView| !crosses(level.price, limit, aggressor),
    );
    assert(levels =~= levels.take(crossed) + levels.skip(crossed));
    lemma_sum_concat(levels.take(crossed), levels.skip(crossed), level_lots());
    lemma_consume_side_volume(
        levels,
        crossing_volume(levels, limit, aggressor) as u64,
        take_history,
    );
}

/// What a limit crosses on a side is part of what rests there.
pub proof fn lemma_crossing_within_side(levels: Seq<LevelView>, limit: Price, aggressor: Direction)
    ensures
        crossing_volume(levels, limit, aggressor) <= side_volume(levels),
{
    let crossed = crossed_levels(levels, limit, aggressor);
    lemma_first_index_found(
        levels,
        |level: LevelView| !crosses(level.price, limit, aggressor),
    );
    assert(levels =~= levels.take(crossed) + levels.skip(crossed));
    lemma_sum_concat(levels.take(crossed), levels.skip(crossed), level_lots());
}

} // verus!
