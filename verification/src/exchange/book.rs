//! One side of the order book: levels sorted best first, each a queue in time priority.
//!
//! The functions here know nothing of traders or sessions. They say what an
//! aggressor takes from a side, where a new order comes to rest, and what a
//! snapshot shows.

use vstd::prelude::*;
use crate::exchange::sums::{first_index, lemma_first_index, sum_over};
use crate::exchange::types::{LevelView, OrderBookEntry, OrderBookLevel};
use crate::history::types::OrderOrigin;
use crate::types::{Direction, OrderID, Price, Size};

verus! {

/// One execution of an aggressor against one resting order.
#[derive(Debug, PartialEq, Eq, Structural, Clone, Copy)]
pub struct Fill {
    /// The resting order.
    pub order_id: OrderID,
    /// The resting order's owner.
    pub from: OrderOrigin,
    /// The price of the level at which it rested.
    pub price: Price,
    /// The lots executed.
    pub size: Size,
    /// Whether this execution used up the resting order.
    pub resting_done: bool,
    /// Whether this execution used up the aggressor.
    pub aggressor_done: bool,
}

/// What is left of a queue after an aggressor went through it.
pub struct QueueOutcome {
    pub queue: Seq<OrderBookEntry>,
    pub fills: Seq<Fill>,
    pub remaining: u64,
}

/// What is left of a side after an aggressor went through it.
pub struct SideOutcome {
    pub levels: Seq<LevelView>,
    pub fills: Seq<Fill>,
    pub remaining: u64,
}

/// A side as contracts see it.
pub open spec fn side_view(side: Seq<OrderBookLevel>) -> Seq<LevelView> {
    side.map_values(|level: OrderBookLevel| level@)
}

/// Whether an aggressor debits the entry it executes against. Orders of the
/// trader always are; orders of the tape only where `take_history` says so.
pub open spec fn is_debited(entry: OrderBookEntry, take_history: bool) -> bool {
    entry.from == OrderOrigin::Trader || take_history
}

/// An aggressor of `amount` lots walks a queue from its head.
///
/// Against each entry it executes the smaller of the two sizes. An entry that
/// it uses up leaves the queue if it is debited and is passed over otherwise;
/// the last entry, if larger than what is left of the aggressor, is reduced
/// if it is debited.
pub open spec fn consume_queue(
    queue: Seq<OrderBookEntry>,
    price: Price,
    amount: u64,
    take_history: bool,
) -> QueueOutcome
    decreases queue.len(),
{
    if queue.len() == 0 || amount == 0 {
        QueueOutcome { queue, fills: Seq::empty(), remaining: amount }
    } else {
        let entry = queue[0];
        if amount < entry.size.0 {
            let fill = Fill {
                order_id: entry.order_id,
                from: entry.from,
                price,
                size: Size(amount),
                resting_done: false,
                aggressor_done: true,
            };
            let reduced = OrderBookEntry {
                order_id: entry.order_id,
                size: Size((entry.size.0 - amount) as u64),
                from: entry.from,
            };
            QueueOutcome {
                queue: if is_debited(entry, take_history) {
                    queue.update(0, reduced)
                } else {
                    queue
                },
                fills: seq![fill],
                remaining: 0,
            }
        } else {
            let fill = Fill {
                order_id: entry.order_id,
                from: entry.from,
                price,
                size: entry.size,
                resting_done: true,
                aggressor_done: amount == entry.size.0,
            };
            let rest = consume_queue(
                queue.drop_first(),
                price,
                (amount - entry.size.0) as u64,
                take_history,
            );
            QueueOutcome {
                queue: if is_debited(entry, take_history) {
                    rest.queue
                } else {
                    seq![entry] + rest.queue
                },
                fills: seq![fill] + rest.fills,
                remaining: rest.remaining,
            }
        }
    }
}

/// An aggressor of `amount` lots walks a side from its best level. A level
/// whose queue it empties leaves the side.
pub open spec fn consume_side(levels: Seq<LevelView>, amount: u64, take_history: bool) -> SideOutcome
    decreases levels.len(),
{
    if levels.len() == 0 || amount == 0 {
        SideOutcome { levels, fills: Seq::empty(), remaining: amount }
    } else {
        let first = consume_queue(levels[0].queue, levels[0].price, amount, take_history);
        let rest = consume_side(levels.drop_first(), first.remaining, take_history);
        SideOutcome {
            levels: if first.queue.len() == 0 {
                rest.levels
            } else {
                seq![LevelView { price: levels[0].price, queue: first.queue }] + rest.levels
            },
            fills: first.fills + rest.fills,
            remaining: rest.remaining,
        }
    }
}

/// Executes an aggressor of `amount` lots against one queue, in place.
/// The fills are appended to `fills`; what is left of the aggressor is returned.
pub fn consume_level_queue(
    queue: &mut Vec<OrderBookEntry>,
    price: Price,
    amount: u64,
    take_history: bool,
    fills: &mut Vec<Fill>,
) -> (remaining: u64)
    ensures
        final(queue)@ == consume_queue(old(queue)@, price, amount, take_history).queue,
        final(fills)@ == old(fills)@ + consume_queue(old(queue)@, price, amount, take_history).fills,
        remaining == consume_queue(old(queue)@, price, amount, take_history).remaining,
{
    let ghost start = queue@;
    let ghost fills_start = fills@;
    let ghost whole = consume_queue(start, price, amount, take_history);
    let mut left: u64 = amount;
    let mut j: usize = 0;
    proof {
        assert(queue@.skip(0) =~= queue@);
        assert(queue@.take(0) + whole.queue =~= whole.queue);
        assert(fills@ + whole.fills =~= fills_start + whole.fills);
    }
    while j < queue.len() && left > 0
        invariant
            j <= queue.len(),
            whole == consume_queue(start, price, amount, take_history),
            whole.queue == queue@.take(j as int) + consume_queue(
                queue@.skip(j as int),
                price,
                left,
                take_history,
            ).queue,
            fills_start + whole.fills == fills@ + consume_queue(
                queue@.skip(j as int),
                price,
                left,
                take_history,
            ).fills,
            whole.remaining == consume_queue(
                queue@.skip(j as int),
                price,
                left,
                take_history,
            ).remaining,
        ensures
            j == queue.len() || left == 0,
        decreases queue.len() - j,
    {
        let entry = queue[j];
        let ghost before = queue@;
        let ghost tail = before.skip(j as int);
        let ghost step = consume_queue(tail, price, left, take_history);
        let debited = match entry.from {
            OrderOrigin::Trader => true,
            OrderOrigin::History => take_history,
        };
        proof {
            assert(tail[0] == entry);
            assert(tail.drop_first() =~= before.skip(j as int + 1));
        }
        if left < entry.size.0 {
            fills.push(
                Fill {
                    order_id: entry.order_id,
                    from: entry.from,
                    price,
                    size: Size(left),
                    resting_done: false,
                    aggressor_done: true,
                },
            );
            if debited {
                queue[j].size = Size(entry.size.0 - left);
            }
            proof {
                assert(queue@.take(j as int) =~= before.take(j as int));
                assert(queue@.skip(j as int) =~= step.queue);
                assert(whole.queue =~= queue@.take(j as int) + queue@.skip(j as int));
                assert(queue@.take(j as int) + queue@.skip(j as int) =~= queue@);
                assert(fills_start + whole.fills =~= fills@);
            }
            left = 0;
            break;
        } else {
            fills.push(
                Fill {
                    order_id: entry.order_id,
                    from: entry.from,
                    price,
                    size: entry.size,
                    resting_done: true,
                    aggressor_done: left == entry.size.0,
                },
            );
            let ghost rest = consume_queue(
                before.skip(j as int + 1),
                price,
                (left - entry.size.0) as u64,
                take_history,
            );
            left = left - entry.size.0;
            if debited {
                queue.remove(j);
                proof {
                    assert(queue@.take(j as int) =~= before.take(j as int));
                    assert(queue@.skip(j as int) =~= before.skip(j as int + 1));
                }
            } else {
                j = j + 1;
                proof {
                    assert(queue@.take(j as int) =~= before.take(j as int - 1) + seq![entry]);
                    assert(whole.queue =~= queue@.take(j as int) + rest.queue);
                }
            }
            proof {
                assert(fills_start + whole.fills =~= fills@ + rest.fills);
            }
        }
    }
    proof {
        assert(queue@.take(j as int) + queue@.skip(j as int) =~= queue@);
        assert(fills@ + Seq::<Fill>::empty() =~= fills@);
        assert(fills@ =~= fills_start + whole.fills);
    }
    left
}

/// Executes an aggressor of `amount` lots against one side, in place, from its
/// best level on. The fills are appended to `fills`; what is left of the
/// aggressor is returned.
pub fn consume_book_side(
    side: &mut Vec<OrderBookLevel>,
    amount: u64,
    take_history: bool,
    fills: &mut Vec<Fill>,
) -> (remaining: u64)
    ensures
        side_view(final(side)@) == consume_side(side_view(old(side)@), amount, take_history).levels,
        final(fills)@ == old(fills)@ + consume_side(
            side_view(old(side)@),
            amount,
            take_history,
        ).fills,
        remaining == consume_side(side_view(old(side)@), amount, take_history).remaining,
{
    let ghost start = side_view(side@);
    let ghost fills_start = fills@;
    let ghost whole = consume_side(start, amount, take_history);
    let mut left: u64 = amount;
    let mut i: usize = 0;
    proof {
        assert(side_view(side@).skip(0) =~= side_view(side@));
        assert(side_view(side@).take(0) + whole.levels =~= whole.levels);
        assert(fills@ + whole.fills =~= fills_start + whole.fills);
    }
    while i < side.len() && left > 0
        invariant
            i <= side.len(),
            whole == consume_side(start, amount, take_history),
            whole.levels == side_view(side@).take(i as int) + consume_side(
                side_view(side@).skip(i as int),
                left,
                take_history,
            ).levels,
            fills_start + whole.fills == fills@ + consume_side(
                side_view(side@).skip(i as int),
                left,
                take_history,
            ).fills,
            whole.remaining == consume_side(
                side_view(side@).skip(i as int),
                left,
                take_history,
            ).remaining,
        decreases side.len() - i,
    {
        let ghost before = side_view(side@);
        let ghost tail = before.skip(i as int);
        let ghost fills_before = fills@;
        let ghost first = consume_queue(tail[0].queue, tail[0].price, left, take_history);
        let ghost rest = consume_side(before.skip(i as int + 1), first.remaining, take_history);
        let price = side[i].price;
        proof {
            assert(tail[0] == before[i as int]);
            assert(tail.drop_first() =~= before.skip(i as int + 1));
        }
        left = consume_level_queue(&mut side[i].queue, price, left, take_history, fills);
        proof {
            assert(side_view(side@).take(i as int) =~= before.take(i as int));
            assert(side_view(side@).skip(i as int + 1) =~= before.skip(i as int + 1));
            assert(side_view(side@)[i as int] == (LevelView { price, queue: first.queue }));
            assert(fills_start + whole.fills =~= fills@ + rest.fills) by {
                assert(fills_before + (first.fills + rest.fills) =~= (fills_before + first.fills)
                    + rest.fills);
            }
        }
        if side[i].queue.len() == 0 {
            let ghost holed = side_view(side@);
            side.remove(i);
            proof {
                assert(side_view(side@).take(i as int) =~= holed.take(i as int));
                assert(side_view(side@).skip(i as int) =~= holed.skip(i as int + 1));
            }
        } else {
            i = i + 1;
            proof {
                assert(side_view(side@).take(i as int) =~= before.take(i as int - 1) + seq![
                    LevelView { price, queue: first.queue },
                ]);
                assert(whole.levels =~= side_view(side@).take(i as int) + rest.levels);
            }
        }
    }
    proof {
        assert(side_view(side@).take(i as int) + side_view(side@).skip(i as int) =~= side_view(
            side@,
        ));
        assert(fills@ + Seq::<Fill>::empty() =~= fills@);
    }
    left
}

/// The largest size that can be written down stands for every volume beyond it.
pub open spec fn capped(volume: nat) -> u64 {
    if volume > u64::MAX {
        u64::MAX
    } else {
        volume as u64
    }
}

/// The lots of an entry, as a weight to sum over.
pub open spec fn entry_lots() -> spec_fn(OrderBookEntry) -> nat {
    |entry: OrderBookEntry| entry.size.0 as nat
}

/// The lots resting in a queue.
pub open spec fn queue_volume(queue: Seq<OrderBookEntry>) -> nat {
    sum_over(queue, entry_lots())
}

/// The lots of a level, as a weight to sum over.
pub open spec fn level_lots() -> spec_fn(LevelView) -> nat {
    |level: LevelView| queue_volume(level.queue)
}

/// The lots resting on a side.
pub open spec fn side_volume(levels: Seq<LevelView>) -> nat {
    sum_over(levels, level_lots())
}

/// Whether a resting price is one that a limit of the given direction and price trades at.
pub open spec fn crosses(resting: Price, limit: Price, aggressor: Direction) -> bool {
    match aggressor {
        Direction::Buy => resting.0 <= limit.0,
        Direction::Sell => resting.0 >= limit.0,
    }
}

/// Whether a resting price is one that a limit of the given direction and price trades at.
pub fn price_crosses(resting: Price, limit: Price, aggressor: Direction) -> (r: bool)
    ensures
        r == crosses(resting, limit, aggressor),
{
    match aggressor {
        Direction::Buy => resting.0 <= limit.0,
        Direction::Sell => resting.0 >= limit.0,
    }
}

/// The number of leading levels of a side that an aggressor's limit price crosses.
pub open spec fn crossed_levels(levels: Seq<LevelView>, limit: Price, aggressor: Direction) -> int {
    first_index(levels, |level: LevelView| !crosses(level.price, limit, aggressor))
}

/// The lots that a limit of the given direction and price finds to trade
/// against: the volume of the leading levels that its price crosses.
pub open spec fn crossing_volume(levels: Seq<LevelView>, limit: Price, aggressor: Direction) -> nat {
    side_volume(levels.take(crossed_levels(levels, limit, aggressor)))
}

/// Whether `a` is a strictly better price than `b` on the side that holds
/// orders of the given direction: higher among bids, lower among asks.
pub open spec fn is_better(a: Price, b: Price, resting: Direction) -> bool {
    match resting {
        Direction::Buy => a.0 > b.0,
        Direction::Sell => a.0 < b.0,
    }
}

/// Whether `a` is a strictly better price than `b` on the side that holds
/// orders of the given direction.
pub fn price_is_better(a: Price, b: Price, resting: Direction) -> (r: bool)
    ensures
        r == is_better(a, b, resting),
{
    match resting {
        Direction::Buy => a.0 > b.0,
        Direction::Sell => a.0 < b.0,
    }
}

/// Where an order at `price` comes to rest: behind every strictly better level.
pub open spec fn rest_position(levels: Seq<LevelView>, resting: Direction, price: Price) -> int {
    first_index(levels, |level: LevelView| !is_better(level.price, price, resting))
}

/// The side after an order came to rest on it: at the tail of the level at
/// its price, or in a new level of its own where there was none.
pub open spec fn place_on_side(
    levels: Seq<LevelView>,
    resting: Direction,
    price: Price,
    entry: OrderBookEntry,
) -> Seq<LevelView> {
    let at = rest_position(levels, resting, price);
    if at < levels.len() && levels[at].price == price {
        levels.update(at, LevelView { price, queue: levels[at].queue.push(entry) })
    } else {
        levels.insert(at, LevelView { price, queue: seq![entry] })
    }
}

/// The first level at `price`, or the number of levels where there is none.
pub open spec fn level_at(levels: Seq<LevelView>, price: Price) -> int {
    first_index(levels, |level: LevelView| level.price == price)
}

/// The first entry of the given order and owner, or the queue's length where there is none.
pub open spec fn entry_of(queue: Seq<OrderBookEntry>, order_id: OrderID, from: OrderOrigin) -> int {
    first_index(queue, |entry: OrderBookEntry| entry.order_id == order_id && entry.from == from)
}

/// Whether the first level at `price` holds an entry of the given order and owner.
pub open spec fn side_holds(
    levels: Seq<LevelView>,
    price: Price,
    order_id: OrderID,
    from: OrderOrigin,
) -> bool {
    let i = level_at(levels, price);
    i < levels.len() && entry_of(levels[i].queue, order_id, from) < levels[i].queue.len()
}

/// The side without the first entry of the given order and owner in the first
/// level at `price`, and without that level if nothing else rested there. A
/// side that holds no such entry stays as it is.
pub open spec fn remove_from_side(
    levels: Seq<LevelView>,
    price: Price,
    order_id: OrderID,
    from: OrderOrigin,
) -> Seq<LevelView> {
    let i = level_at(levels, price);
    if side_holds(levels, price, order_id, from) {
        let j = entry_of(levels[i].queue, order_id, from);
        if levels[i].queue.len() == 1 {
            levels.remove(i)
        } else {
            levels.update(i, LevelView { price: levels[i].price, queue: levels[i].queue.remove(j) })
        }
    } else {
        levels
    }
}

/// The side with the size of the first entry of the given order and owner in
/// the first level at `price` set anew. A side that holds no such entry stays as it is.
pub open spec fn resize_on_side(
    levels: Seq<LevelView>,
    price: Price,
    order_id: OrderID,
    from: OrderOrigin,
    size: Size,
) -> Seq<LevelView> {
    let i = level_at(levels, price);
    if side_holds(levels, price, order_id, from) {
        let j = entry_of(levels[i].queue, order_id, from);
        levels.update(
            i,
            LevelView {
                price: levels[i].price,
                queue: levels[i].queue.update(j, OrderBookEntry { order_id, size, from }),
            },
        )
    } else {
        levels
    }
}

/// What a subscriber sees of a side: its best `depth` levels, each with its
/// price and its volume.
pub open spec fn snapshot_of(levels: Seq<LevelView>, depth: usize) -> Seq<(Price, Size)> {
    Seq::new(
        if depth < levels.len() {
            depth as nat
        } else {
            levels.len()
        },
        |i: int| (levels[i].price, Size(capped(queue_volume(levels[i].queue)))),
    )
}

/// The orders of the given owner in a queue, oldest first.
pub open spec fn queue_orders_of(queue: Seq<OrderBookEntry>, from: OrderOrigin) -> Seq<OrderID>
    decreases queue.len(),
{
    if queue.len() == 0 {
        Seq::empty()
    } else if queue.last().from == from {
        queue_orders_of(queue.drop_last(), from).push(queue.last().order_id)
    } else {
        queue_orders_of(queue.drop_last(), from)
    }
}

/// The orders of the given owner on a side, best level first.
pub open spec fn side_orders_of(levels: Seq<LevelView>, from: OrderOrigin) -> Seq<OrderID>
    decreases levels.len(),
{
    if levels.len() == 0 {
        Seq::empty()
    } else {
        side_orders_of(levels.drop_last(), from) + queue_orders_of(levels.last().queue, from)
    }
}

impl OrderBookLevel {
    /// The volume of the level.
    pub fn get_ob_level_size(&self) -> (r: Size)
        ensures
            r.0 == capped(queue_volume(self.queue@)),
    {
        let mut total: u64 = 0;
        let mut j: usize = 0;
        proof {
            assert(self.queue@.take(0) =~= Seq::<OrderBookEntry>::empty());
        }
        while j < self.queue.len()
            invariant
                j <= self.queue.len(),
                total == capped(queue_volume(self.queue@.take(j as int))),
            decreases self.queue.len() - j,
        {
            let size = self.queue[j].size.0;
            proof {
                let next = self.queue@.take(j as int + 1);
                assert(next.drop_last() =~= self.queue@.take(j as int));
                assert(next.last() == self.queue@[j as int]);
            }
            total = if size > u64::MAX - total {
                u64::MAX
            } else {
                total + size
            };
            j = j + 1;
        }
        proof {
            assert(self.queue@.take(j as int) =~= self.queue@);
        }
        Size(total)
    }
}

/// The lots that a limit of the given direction and price finds to trade
/// against on the opposite side.
pub fn crossing_size(side: &Vec<OrderBookLevel>, limit: Price, aggressor: Direction) -> (r: Size)
    ensures
        r.0 == capped(crossing_volume(side_view(side@), limit, aggressor)),
{
    let ghost levels = side_view(side@);
    let ghost unwanted = |level: LevelView| !crosses(level.price, limit, aggressor);
    let mut total: u64 = 0;
    let mut i: usize = 0;
    proof {
        assert(levels.take(0) =~= Seq::<LevelView>::empty());
    }
    while i < side.len() && price_crosses(side[i].price, limit, aggressor)
        invariant
            i <= side.len(),
            levels == side_view(side@),
            unwanted == |level: LevelView| !crosses(level.price, limit, aggressor),
            forall|k: int| 0 <= k < i ==> !unwanted(#[trigger] levels[k]),
            total == capped(side_volume(levels.take(i as int))),
        decreases side.len() - i,
    {
        let size = side[i].get_ob_level_size().0;
        proof {
            let next = levels.take(i as int + 1);
            assert(next.drop_last() =~= levels.take(i as int));
            assert(next.last() == levels[i as int]);
        }
        total = if size > u64::MAX - total {
            u64::MAX
        } else {
            total + size
        };
        i = i + 1;
    }
    proof {
        if i < side.len() {
            assert(unwanted(levels[i as int]));
        }
        lemma_first_index(levels, unwanted, i as int);
    }
    Size(total)
}

/// Lets an order come to rest on the side that holds orders of its direction.
pub fn rest_on_side(
    side: &mut Vec<OrderBookLevel>,
    resting: Direction,
    price: Price,
    entry: OrderBookEntry,
)
    ensures
        side_view(final(side)@) == place_on_side(side_view(old(side)@), resting, price, entry),
{
    let ghost levels = side_view(side@);
    let ghost wanted = |level: LevelView| !is_better(level.price, price, resting);
    let mut i: usize = 0;
    while i < side.len() && price_is_better(side[i].price, price, resting)
        invariant
            i <= side.len(),
            levels == side_view(side@),
            wanted == |level: LevelView| !is_better(level.price, price, resting),
            forall|k: int| 0 <= k < i ==> !wanted(#[trigger] levels[k]),
        decreases side.len() - i,
    {
        i = i + 1;
    }
    proof {
        if i < side.len() {
            assert(wanted(levels[i as int]));
        }
        lemma_first_index(levels, wanted, i as int);
    }
    if i < side.len() && side[i].price == price {
        side[i].queue.push(entry);
        proof {
            assert(side_view(side@) =~= place_on_side(levels, resting, price, entry));
        }
    } else {
        let mut queue: Vec<OrderBookEntry> = Vec::new();
        queue.push(entry);
        side.insert(i, OrderBookLevel { price, queue });
        proof {
            assert(queue@ =~= seq![entry]);
            assert(side_view(side@) =~= place_on_side(levels, resting, price, entry));
        }
    }
}

/// The index of the first level at `price`; the number of levels where there is none.
pub fn find_level(side: &Vec<OrderBookLevel>, price: Price) -> (i: usize)
    ensures
        i == level_at(side_view(side@), price),
        i <= side.len(),
        i < side.len() ==> side[i as int].price == price,
{
    let ghost levels = side_view(side@);
    let ghost wanted = |level: LevelView| level.price == price;
    let mut i: usize = 0;
    while i < side.len() && side[i].price != price
        invariant
            i <= side.len(),
            levels == side_view(side@),
            wanted == |level: LevelView| level.price == price,
            forall|k: int| 0 <= k < i ==> !wanted(#[trigger] levels[k]),
        decreases side.len() - i,
    {
        i = i + 1;
    }
    proof {
        if i < side.len() {
            assert(wanted(levels[i as int]));
        }
        lemma_first_index(levels, wanted, i as int);
    }
    i
}

/// The index of the first entry of the given order and owner; the queue's
/// length where there is none.
pub fn find_entry(queue: &Vec<OrderBookEntry>, order_id: OrderID, from: OrderOrigin) -> (j: usize)
    ensures
        j == entry_of(queue@, order_id, from),
        j <= queue.len(),
        j < queue.len() ==> queue[j as int].order_id == order_id && queue[j as int].from == from,
{
    let ghost wanted = |entry: OrderBookEntry| entry.order_id == order_id && entry.from == from;
    let mut j: usize = 0;
    while j < queue.len() && !(queue[j].order_id == order_id && queue[j].from == from)
        invariant
            j <= queue.len(),
            wanted == |entry: OrderBookEntry| entry.order_id == order_id && entry.from == from,
            forall|k: int| 0 <= k < j ==> !wanted(#[trigger] queue@[k]),
        decreases queue.len() - j,
    {
        j = j + 1;
    }
    proof {
        if j < queue.len() {
            assert(wanted(queue@[j as int]));
        }
        lemma_first_index(queue@, wanted, j as int);
    }
    j
}

/// Takes the order of the given owner out of the level at `price`, and the
/// level with it if nothing else rested there. Says whether the order was found.
pub fn remove_entry(
    side: &mut Vec<OrderBookLevel>,
    price: Price,
    order_id: OrderID,
    from: OrderOrigin,
) -> (found: bool)
    ensures
        found == side_holds(side_view(old(side)@), price, order_id, from),
        side_view(final(side)@) == remove_from_side(
            side_view(old(side)@),
            price,
            order_id,
            from,
        ),
{
    let ghost levels = side_view(side@);
    let i = find_level(side, price);
    if i >= side.len() {
        return false;
    }
    let j = find_entry(&side[i].queue, order_id, from);
    if j >= side[i].queue.len() {
        return false;
    }
    if side[i].queue.len() == 1 {
        side.remove(i);
        proof {
            assert(side_view(side@) =~= levels.remove(i as int));
        }
    } else {
        side[i].queue.remove(j);
        proof {
            assert(side_view(side@) =~= levels.update(
                i as int,
                LevelView { price: levels[i as int].price, queue: levels[i as int].queue.remove(j as int) },
            ));
        }
    }
    true
}

/// Sets anew the size of the order of the given owner in the level at
/// `price`. Says whether the order was found.
pub fn resize_entry(
    side: &mut Vec<OrderBookLevel>,
    price: Price,
    order_id: OrderID,
    from: OrderOrigin,
    size: Size,
) -> (found: bool)
    ensures
        found == side_holds(side_view(old(side)@), price, order_id, from),
        side_view(final(side)@) == resize_on_side(
            side_view(old(side)@),
            price,
            order_id,
            from,
            size,
        ),
{
    let ghost levels = side_view(side@);
    let i = find_level(side, price);
    if i >= side.len() {
        return false;
    }
    let j = find_entry(&side[i].queue, order_id, from);
    if j >= side[i].queue.len() {
        return false;
    }
    side[i].queue[j].size = size;
    proof {
        assert(side_view(side@) =~= resize_on_side(levels, price, order_id, from, size));
    }
    true
}

/// The best `depth` levels of a side as a subscriber sees them.
pub fn snapshot_side(side: &Vec<OrderBookLevel>, depth: usize) -> (r: Vec<(Price, Size)>)
    ensures
        r@ == snapshot_of(side_view(side@), depth),
{
    let mut shown: Vec<(Price, Size)> = Vec::new();
    let mut i: usize = 0;
    while i < side.len() && i < depth
        invariant
            i <= side.len(),
            i <= depth,
            shown@.len() == i,
            forall|k: int|
                0 <= k < i ==> #[trigger] shown@[k] == (
                    side@[k].price,
                    Size(capped(queue_volume(side@[k].queue@))),
                ),
        decreases side.len() - i,
    {
        let size = side[i].get_ob_level_size();
        shown.push((side[i].price, size));
        i = i + 1;
    }
    proof {
        assert(shown@ =~= snapshot_of(side_view(side@), depth));
    }
    shown
}

/// Appends to `found` the orders of the given owner that rest on a side, best
/// level first and oldest first within a level.
pub fn collect_orders_of(side: &Vec<OrderBookLevel>, from: OrderOrigin, found: &mut Vec<OrderID>)
    ensures
        final(found)@ == old(found)@ + side_orders_of(side_view(side@), from),
{
    let ghost levels = side_view(side@);
    let ghost found_start = found@;
    let mut i: usize = 0;
    proof {
        assert(levels.take(0) =~= Seq::<LevelView>::empty());
        assert(found@ =~= found_start + side_orders_of(levels.take(0), from));
    }
    while i < side.len()
        invariant
            i <= side.len(),
            levels == side_view(side@),
            found@ == found_start + side_orders_of(levels.take(i as int), from),
        decreases side.len() - i,
    {
        let ghost found_before = found@;
        let ghost queue = side@[i as int].queue@;
        let mut j: usize = 0;
        proof {
            assert(queue.take(0) =~= Seq::<OrderBookEntry>::empty());
            assert(found@ =~= found_before + queue_orders_of(queue.take(0), from));
        }
        while j < side[i].queue.len()
            invariant
                i < side.len(),
                j <= side[i as int].queue.len(),
                queue == side@[i as int].queue@,
                found@ == found_before + queue_orders_of(queue.take(j as int), from),
            decreases side[i as int].queue.len() - j,
        {
            let entry = side[i].queue[j];
            proof {
                let prefix = queue.take(j as int);
                let next = queue.take(j as int + 1);
                assert(next.drop_last() =~= prefix);
                assert(next.last() == entry);
                if entry.from == from {
                    assert(found_before + queue_orders_of(next, from) =~= (found_before
                        + queue_orders_of(prefix, from)).push(entry.order_id));
                }
            }
            if entry.from == from {
                found.push(entry.order_id);
            }
            j = j + 1;
        }
        proof {
            assert(queue.take(j as int) =~= queue);
            let next = levels.take(i as int + 1);
            assert(next.drop_last() =~= levels.take(i as int));
            assert(next.last() == levels[i as int]);
            assert(found@ =~= found_start + side_orders_of(next, from));
        }
        i = i + 1;
    }
    proof {
        assert(levels.take(i as int) =~= levels);
    }
}

} // verus!
